//! Canopy: a web-like native UI runtime without a scripting engine.
//!
//! A guest program describes its interface as a tree, and changes it by sending batches of ops
//! as bytes. A host decodes the ops, checks every handle, and keeps the tree. From the tree it
//! lays out and paints a scene, finds what a pointer hits, and sends events back.
//!
//! The guest's side:
//!
//! * [`handles`], [`tags`], [`wire`] and [`protocol`]: opaque handles, ops, and their codec.
//! * [`emitter`] and [`reconciler`]: building batches, and trees from descriptions of trees.
//! * [`input`]: editing text by keys, and the keyboard focus.
//! * [`anim`]: tweens on a clock that the host drives.
//!
//! The host's side:
//!
//! * [`tree`] and [`dom`]: what each op does to the retained tree, and the tree itself.
//! * [`mirror`]: what the guest's side promises of the host's tree.
//! * [`props`], [`style`] and [`cascade`]: inline styles, and those that a stylesheet gives.
//! * [`paint`], and [`flex`] with [`scene`]: two layouts, a small one and one by a flexbox engine.
//! * [`displaylist`], [`panel`] and [`headless`]: scenes as bytes, panels, and the paint loop.
//! * [`a11y`]: the tree as assistive technology sees it.
//! * [`abi`] and [`snapshot`]: what a host in another language talks to.
//! * [`hotreload`] with [`rebuild`], and [`cli`]: the developer's tools.
//!
//! Lengths and seconds are [`scalar::Scalar`]s: the library says in terms of their operations
//! what it computes, and leaves open whether they are whole or have fractions.
//!
//! Each module states what its functions do over plain mathematical views, and ends with the
//! laws that hold of them: the functions whose names begin with `law_`.
pub mod a11y;
pub mod abi;
pub mod anim;
pub mod cascade;
pub mod chars;
pub mod cli;
pub mod displaylist;
pub mod dom;
pub mod emitter;
pub mod flex;
pub mod geometry;
pub mod handles;
pub mod headless;
pub mod hotreload;
pub mod input;
pub mod mirror;
pub mod paint;
pub mod panel;
pub mod props;
pub mod protocol;
pub mod rebuild;
pub mod reconciler;
pub mod scalar;
pub mod scene;
pub mod seqs;
pub mod snapshot;
pub mod style;
pub mod tags;
pub mod templates;
pub mod text;
pub mod tree;
pub mod wire;
