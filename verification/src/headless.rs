//! A host without a window: the retained tree, a scene builder and a renderer.
//!
//! Batches of op bytes go in; for each frame the scene builder turns the tree into a scene for
//! the renderer. Which builder is used decides which styles are understood.
use crate::dom::Dom;
use crate::geometry::{items_view, DisplayList, ItemView, Size};
use crate::paint::{build_scene, stacked};
use crate::scalar::{some_function, Scalar};
use crate::tree::{apply_bytes, empty_dom, well_formed, DomView, HostError};
use vstd::prelude::*;

verus! {

/// Turns the retained tree into a scene for a viewport. A builder may keep state from frame to
/// frame; what it builds depends on that state, the tree and the viewport, and a relation says
/// what may become of the state.
pub trait SceneBuilder<S: Scalar>: Sized {
    /// What a builder in this state builds; of one from outside nothing more is known than that it
    /// is some function of its state, the tree and the viewport.
    open spec fn scene_items(self, dom: DomView, viewport: Size<S>) -> Seq<ItemView<S>> {
        some_function(0, (self, dom, viewport))
    }

    /// Whether building a scene may take a builder from `before` to `after`.
    open spec fn may_become(before: Self, dom: DomView, viewport: Size<S>, after: Self) -> bool {
        true
    }

    /// The scene to paint for a tree within a viewport.
    fn build_scene(&mut self, dom: &Dom, viewport: Size<S>) -> (r: DisplayList<S>)
        requires
            dom.wf(),
        ensures
            items_view(r.items@) == old(self).scene_items(dom@, viewport),
            Self::may_become(*old(self), dom@, viewport, *final(self)),
    ;
}

/// The default builder: it lays out the inline styles of the tree with the small built-in
/// layout, and keeps no state.
#[derive(Clone, Copy, PartialEq, Eq, Debug, Structural)]
pub struct LiteSceneBuilder;

impl Default for LiteSceneBuilder {
    fn default() -> (r: LiteSceneBuilder)
        ensures
            r == LiteSceneBuilder,
    {
        LiteSceneBuilder
    }
}

impl<S: Scalar> SceneBuilder<S> for LiteSceneBuilder {
    open spec fn scene_items(self, dom: DomView, viewport: Size<S>) -> Seq<ItemView<S>> {
        stacked(dom.nodes, dom.roots, viewport).items
    }

    open spec fn may_become(before: Self, dom: DomView, viewport: Size<S>, after: Self) -> bool {
        after == before
    }

    fn build_scene(&mut self, dom: &Dom, viewport: Size<S>) -> (r: DisplayList<S>) {
        build_scene(dom, viewport)
    }
}

/// Draws scenes. What it draws on, and whether it succeeds, is its own affair: the two relations
/// say what may come of a call.
pub trait Renderer<S: Scalar>: Sized {
    /// Whether drawing a scene of `items` may take a renderer from `before` to `after` and answer
    /// `r`.
    open spec fn may_render(
        before: Self,
        items: Seq<ItemView<S>>,
        after: Self,
        r: Result<(), HostError>,
    ) -> bool {
        true
    }

    /// Whether showing what was drawn may take a renderer from `before` to `after` and answer `r`.
    open spec fn may_present(before: Self, after: Self, r: Result<(), HostError>) -> bool {
        true
    }

    /// Draw a scene.
    fn render(&mut self, scene: &DisplayList<S>) -> (r: Result<(), HostError>)
        ensures
            Self::may_render(*old(self), items_view(scene.items@), *final(self), r),
    ;

    /// Show what was drawn.
    fn present(&mut self) -> (r: Result<(), HostError>)
        ensures
            <Self as Renderer<S>>::may_present(*old(self), *final(self), r),
    ;
}

/// A host: a retained tree, a scene builder and a renderer.
pub struct Host<B, R> {
    dom: Dom,
    scene: B,
    renderer: R,
}

/// What a [`Host`] holds.
pub ghost struct HostParts<B, R> {
    pub dom: DomView,
    pub scene: B,
    pub renderer: R,
}

impl<B, R> View for Host<B, R> {
    type V = HostParts<B, R>;

    closed spec fn view(&self) -> HostParts<B, R> {
        HostParts { dom: self.dom@, scene: self.scene, renderer: self.renderer }
    }
}

impl<R> Host<LiteSceneBuilder, R> {
    /// A host over an empty tree that paints inline styles.
    pub fn new(renderer: R) -> (r: Host<LiteSceneBuilder, R>)
        ensures
            r@ == (HostParts { dom: empty_dom(), scene: LiteSceneBuilder, renderer }),
            r.wf(),
    {
        Host { dom: Dom::new(), scene: LiteSceneBuilder, renderer }
    }
}

impl<B, R> Host<B, R> {
    /// What holds of every host: its tree is well formed.
    pub open spec fn wf(&self) -> bool {
        well_formed(self@.dom)
    }

    /// A host over an empty tree with the given scene builder.
    pub fn with_scene_builder(scene: B, renderer: R) -> (r: Host<B, R>)
        ensures
            r@ == (HostParts { dom: empty_dom(), scene, renderer }),
            r.wf(),
    {
        Host { dom: Dom::new(), scene, renderer }
    }

    /// Apply one batch of op bytes to the tree.
    pub fn apply(&mut self, ops: &[u8]) -> (r: Result<(), HostError>)
        requires
            old(self).wf(),
        ensures
            (final(self)@.dom, r) == apply_bytes(old(self)@.dom, ops@, 0),
            final(self)@.scene == old(self)@.scene,
            final(self)@.renderer == old(self)@.renderer,
            final(self).wf(),
    {
        self.dom.apply(ops)
    }

    /// The retained tree.
    pub fn dom(&self) -> (r: &Dom)
        ensures
            r@ == self@.dom,
    {
        &self.dom
    }

    /// The renderer.
    pub fn renderer(&self) -> (r: &R)
        ensures
            *r == self@.renderer,
    {
        &self.renderer
    }

    /// The scene builder.
    pub fn scene_builder(&self) -> (r: &B)
        ensures
            *r == self@.scene,
    {
        &self.scene
    }
}

/// Whether painting a scene of `items` may take a renderer from `before` to `after` and answer
/// `r`: the scene is drawn, and is shown unless drawing failed. A failure is the answer.
pub open spec fn may_paint<S: Scalar, R: Renderer<S>>(
    before: R,
    items: Seq<ItemView<S>>,
    after: R,
    r: Result<(), HostError>,
) -> bool {
    exists|drawn: R, answer: Result<(), HostError>| #[trigger]
        R::may_render(before, items, drawn, answer) && match answer {
            Ok(_) => R::may_present(drawn, after, r),
            Err(e) => after == drawn && r == Err::<(), HostError>(e),
        }
}

impl<B, R> Host<B, R> {
    /// Build the scene for `viewport` from the current tree and paint it.
    pub fn paint<S: Scalar>(&mut self, viewport: Size<S>) -> (r: Result<(), HostError>) where
        B: SceneBuilder<S>,
        R: Renderer<S>,

        requires
            old(self).wf(),
        ensures
            final(self)@.dom == old(self)@.dom,
            final(self).wf(),
            B::may_become(old(self)@.scene, old(self)@.dom, viewport, final(self)@.scene),
            may_paint(
                old(self)@.renderer,
                old(self)@.scene.scene_items(old(self)@.dom, viewport),
                final(self)@.renderer,
                r,
            ),
    {
        let scene = self.scene.build_scene(&self.dom, viewport);
        match self.renderer.render(&scene) {
            Ok(_) => self.renderer.present(),
            Err(e) => Err(e),
        }
    }
}

/// Whatever is drawn is shown, and the answer is that to showing it; where drawing fails, nothing is
/// shown and the answer is the failure.
pub proof fn law_failed_drawings_are_not_shown<S: Scalar, R: Renderer<S>>(
    before: R,
    items: Seq<ItemView<S>>,
    after: R,
    r: Result<(), HostError>,
)
    ensures
        forall|drawn: R| #[trigger]
            R::may_render(before, items, drawn, Ok(())) && R::may_present(drawn, after, r) ==> may_paint(
                before,
                items,
                after,
                r,
            ),
        forall|e: HostError|
            R::may_render(before, items, after, Err(e)) && r == Err::<(), HostError>(e)
                ==> #[trigger] may_paint(before, items, after, Err(e)),
        may_paint(before, items, after, r) && (forall|drawn: R| !(#[trigger] R::may_render(
            before,
            items,
            drawn,
            Ok(()),
        ))) ==> r is Err && R::may_render(before, items, after, r),
        may_paint(before, items, after, r) && (forall|drawn: R, e: HostError| !(
        #[trigger] R::may_render(before, items, drawn, Err(e)))) ==> exists|drawn: R| #[trigger]
            R::may_render(before, items, drawn, Ok(())) && R::may_present(drawn, after, r),
{
    assert forall|drawn: R| #[trigger]
        R::may_render(before, items, drawn, Ok(())) && R::may_present(drawn, after, r) implies may_paint(
        before,
        items,
        after,
        r,
    ) by {
        assert(R::may_render(before, items, drawn, Ok::<(), HostError>(())));
    }
    if may_paint(before, items, after, r) {
        let (drawn, answer) = choose|drawn: R, answer: Result<(), HostError>| #[trigger]
            R::may_render(before, items, drawn, answer) && match answer {
                Ok(_) => R::may_present(drawn, after, r),
                Err(e) => after == drawn && r == Err::<(), HostError>(e),
            };
        match answer {
            Ok(u) => {
                assert(u == ());
                assert(answer == Ok::<(), HostError>(()));
                assert(R::may_render(before, items, drawn, Ok(())));
            },
            Err(e) => {
                assert(R::may_render(before, items, drawn, Err(e)));
            },
        }
    }
}

/// The default builder paints what the small layout paints, and stays as it is.
pub proof fn law_the_default_builder_paints_the_layout<S: Scalar>(
    b: LiteSceneBuilder,
    after: LiteSceneBuilder,
    dom: DomView,
    viewport: Size<S>,
)
    ensures
        SceneBuilder::<S>::scene_items(b, dom, viewport) == stacked(
            dom.nodes,
            dom.roots,
            viewport,
        ).items,
        <LiteSceneBuilder as SceneBuilder<S>>::may_become(b, dom, viewport, after) ==> after == b,
{
}

} // verus!
