//! Plugin panels: the pixels of a plugin's own frame, copied into a region of the host's frame.
//!
//! A plugin is laid out and painted for a viewport of the size of its panel, into a frame of
//! its own. What is copied is clipped to the panel's region and to the host's frame, so a plugin
//! cannot touch a pixel outside its region.
use crate::geometry::{Color, Rect, Size};
use crate::scalar::{Scalar, Whole};
use vstd::prelude::*;

verus! {

/// A frame of pixels, row by row from the top.
#[derive(PartialEq, Eq, Debug)]
pub struct Buffer {
    width: usize,
    height: usize,
    data: Vec<Color>,
}

/// What a [`Buffer`] holds.
#[verifier::ext_equal]
pub ghost struct Frame {
    pub width: nat,
    pub height: nat,
    /// The pixel at a column and a row.
    pub pixels: Map<(nat, nat), Color>,
}

impl View for Buffer {
    type V = Frame;

    closed spec fn view(&self) -> Frame {
        Frame {
            width: self.width as nat,
            height: self.height as nat,
            pixels: Map::new(
                |at: (nat, nat)| at.0 < self.width && at.1 < self.height,
                |at: (nat, nat)| self.data@[at.1 * self.width + at.0],
            ),
        }
    }
}

/// A frame filled with one color.
pub open spec fn filled(width: nat, height: nat, color: Color) -> Frame {
    Frame {
        width,
        height,
        pixels: Map::new(|at: (nat, nat)| at.0 < width && at.1 < height, |at: (nat, nat)| color),
    }
}

proof fn lemma_index(width: nat, height: nat, x: nat, y: nat)
    requires
        x < width,
        y < height,
    ensures
        y * width + x < width * height,
{
    assert(y * width + x < width * height) by (nonlinear_arith)
        requires
            x < width,
            y < height,
    ;
}

proof fn lemma_index_injective(width: nat, x: nat, y: nat, u: nat, v: nat)
    requires
        x < width,
        u < width,
        y * width + x == v * width + u,
    ensures
        x == u,
        y == v,
{
    assert(x == u && y == v) by (nonlinear_arith)
        requires
            x < width,
            u < width,
            y * width + x == v * width + u,
    ;
}

/// No color at all.
pub open spec fn clear_color() -> Color {
    Color { r: 0, g: 0, b: 0, a: 0 }
}

impl Buffer {
    /// What holds of every buffer: it has a pixel for each place.
    pub closed spec fn wf(&self) -> bool {
        self.data@.len() == self.width * self.height
    }

    /// A frame filled with a color. Its pixels must be few enough to be counted.
    pub fn filled(width: usize, height: usize, color: Color) -> (r: Buffer)
        requires
            width * height <= usize::MAX,
        ensures
            r@ == filled(width as nat, height as nat, color),
            r.wf(),
    {
        let n: usize = width * height;
        let mut data: Vec<Color> = Vec::new();
        let mut i: usize = 0;
        while i < n
            invariant
                i <= n,
                data@.len() == i,
                forall|k: int| 0 <= k < i ==> data@[k] == color,
            decreases n - i,
        {
            data.push(color);
            i += 1;
        }
        let r = Buffer { width, height, data };
        proof {
            assert forall|at: (nat, nat)| at.0 < width && at.1 < height implies #[trigger] r@.pixels[at]
                == color by {
                lemma_index(width as nat, height as nat, at.0, at.1);
            }
            assert(r@ =~= filled(width as nat, height as nat, color));
        }
        r
    }

    /// A frame with nothing painted on it.
    pub fn new(width: usize, height: usize) -> (r: Buffer)
        requires
            width * height <= usize::MAX,
        ensures
            r@ == filled(width as nat, height as nat, clear_color()),
            r.wf(),
    {
        Buffer::filled(width, height, Color { r: 0, g: 0, b: 0, a: 0 })
    }

    /// Width in pixels.
    pub fn width(&self) -> (r: usize)
        ensures
            r == self@.width,
    {
        self.width
    }

    /// Height in pixels.
    pub fn height(&self) -> (r: usize)
        ensures
            r == self@.height,
    {
        self.height
    }

    /// The pixel at a column and a row.
    pub fn pixel(&self, x: usize, y: usize) -> (r: Color)
        requires
            self.wf(),
            x < self@.width,
            y < self@.height,
        ensures
            r == self@.pixels[(x as nat, y as nat)],
    {
        let n: usize = self.data.len();
        proof {
            lemma_index(self.width as nat, self.height as nat, x as nat, y as nat);
            lemma_row(self.width as nat, x as nat, y as nat);
            assert(y * self.width + x < n);
        }
        self.data[y * self.width + x]
    }

    /// Set the pixel at a column and a row.
    pub fn set_pixel(&mut self, x: usize, y: usize, color: Color)
        requires
            old(self).wf(),
            x < old(self)@.width,
            y < old(self)@.height,
        ensures
            final(self)@ == (Frame {
                pixels: old(self)@.pixels.insert((x as nat, y as nat), color),
                ..old(self)@
            }),
            final(self).wf(),
    {
        let ghost before = self@;
        let n: usize = self.data.len();
        proof {
            lemma_index(self.width as nat, self.height as nat, x as nat, y as nat);
            lemma_row(self.width as nat, x as nat, y as nat);
            assert(y * self.width + x < n);
        }
        let at: usize = y * self.width + x;
        self.data.set(at, color);
        proof {
            let want = before.pixels.insert((x as nat, y as nat), color);
            assert forall|p: (nat, nat)| p.0 < self.width && p.1 < self.height implies #[trigger] self@.pixels[p]
                == want[p] by {
                lemma_index(self.width as nat, self.height as nat, p.0, p.1);
                if p.1 * self.width + p.0 == at {
                    lemma_index_injective(self.width as nat, p.0, p.1, x as nat, y as nat);
                }
            }
            assert(self@.pixels =~= want);
        }
    }
}

proof fn lemma_row(width: nat, x: nat, y: nat)
    ensures
        y * width <= y * width + x,
        y * width >= 0,
{
    assert(y * width >= 0) by (nonlinear_arith);
}

/// The frame `dst` with the first `cols` columns and `rows` rows of `src` copied in, the first pixel
/// at `(dx, dy)`; what does not fit is dropped.
pub open spec fn pasted(dst: Frame, src: Frame, dx: int, dy: int, cols: nat, rows: nat) -> Frame {
    Frame {
        pixels: Map::new(
            |at: (nat, nat)| dst.pixels.contains_key(at),
            |at: (nat, nat)|
                if 0 <= at.0 - dx < cols && at.0 - dx < src.width && 0 <= at.1 - dy < rows && at.1
                    - dy < src.height {
                    src.pixels[((at.0 - dx) as nat, (at.1 - dy) as nat)]
                } else {
                    dst.pixels[at]
                },
        ),
        ..dst
    }
}

/// `dst` with `rows` rows of the part of `src` that begins at `(sx, sy)` and has `cols` columns
/// copied in at `(dx, dy)`, and of the next row `more` pixels.
spec fn pasted_upto(
    dst: Frame,
    src: Frame,
    sx: nat,
    sy: nat,
    dx: nat,
    dy: nat,
    cols: nat,
    rows: nat,
    more: nat,
) -> Frame {
    Frame {
        pixels: Map::new(
            |at: (nat, nat)| dst.pixels.contains_key(at),
            |at: (nat, nat)|
                if dx <= at.0 < dx + cols && dy <= at.1 && (at.1 - dy < rows || (at.1 - dy == rows
                    && at.0 - dx < more)) {
                    src.pixels[((at.0 - dx + sx) as nat, (at.1 - dy + sy) as nat)]
                } else {
                    dst.pixels[at]
                },
        ),
        ..dst
    }
}

/// How many of `n` pixels that begin at `from` lie within the first `limit`.
fn fitting(from: usize, n: usize, limit: usize) -> (r: usize)
    ensures
        r <= n,
        r > 0 ==> from + r <= limit,
        r < n ==> from + r >= limit,
{
    if from >= limit {
        0
    } else if limit - from < n {
        limit - from
    } else {
        n
    }
}

/// Copy the part of `src` that begins at `(sx, sy)` and has at most `cols` columns and `rows` rows
/// into `dst`, at `(dx, dy)`, clipped to `dst`.
fn copy_part(
    dst: &mut Buffer,
    src: &Buffer,
    sx: usize,
    sy: usize,
    dx: usize,
    dy: usize,
    cols: usize,
    rows: usize,
)
    requires
        old(dst).wf(),
        src.wf(),
        sx == 0 || dx == 0,
        sy == 0 || dy == 0,
    ensures
        final(dst)@ == pasted(
            old(dst)@,
            src@,
            dx - sx,
            dy - sy,
            (sx + cols) as nat,
            (sy + rows) as nat,
        ),
        final(dst).wf(),
{
    let ghost before = dst@;
    let w: usize = dst.width();
    let h: usize = dst.height();
    let cols_there: usize = fitting(sx, cols, src.width());
    let rows_there: usize = fitting(sy, rows, src.height());
    let m: usize = fitting(dx, cols_there, w);
    let n: usize = fitting(dy, rows_there, h);
    assert(dst@ =~= pasted_upto(
        before,
        src@,
        sx as nat,
        sy as nat,
        dx as nat,
        dy as nat,
        m as nat,
        0,
        0,
    ));
    let mut j: usize = 0;
    while j < n
        invariant
            dst.wf(),
            src.wf(),
            dst@.width == w,
            dst@.height == h,
            before.width == w,
            before.height == h,
            j <= n,
            n > 0 ==> dy + n <= h && sy + n <= src@.height,
            m > 0 ==> dx + m <= w && sx + m <= src@.width,
            forall|at: (nat, nat)| #[trigger]
                before.pixels.contains_key(at) <==> at.0 < w && at.1 < h,
            dst@ == pasted_upto(
                before,
                src@,
                sx as nat,
                sy as nat,
                dx as nat,
                dy as nat,
                m as nat,
                j as nat,
                0,
            ),
        decreases n - j,
    {
        let mut i: usize = 0;
        while i < m
            invariant
                dst.wf(),
                src.wf(),
                dst@.width == w,
                dst@.height == h,
                before.width == w,
                before.height == h,
                j < n,
                i <= m,
                dy + n <= h && sy + n <= src@.height,
                m > 0 ==> dx + m <= w && sx + m <= src@.width,
                forall|at: (nat, nat)| #[trigger]
                    before.pixels.contains_key(at) <==> at.0 < w && at.1 < h,
                dst@ == pasted_upto(
                    before,
                    src@,
                    sx as nat,
                    sy as nat,
                    dx as nat,
                    dy as nat,
                    m as nat,
                    j as nat,
                    i as nat,
                ),
            decreases m - i,
        {
            let color = src.pixel(sx + i, sy + j);
            dst.set_pixel(dx + i, dy + j, color);
            i += 1;
            assert(dst@.pixels =~= pasted_upto(
                before,
                src@,
                sx as nat,
                sy as nat,
                dx as nat,
                dy as nat,
                m as nat,
                j as nat,
                i as nat,
            ).pixels);
        }
        j += 1;
        assert(dst@.pixels =~= pasted_upto(
            before,
            src@,
            sx as nat,
            sy as nat,
            dx as nat,
            dy as nat,
            m as nat,
            j as nat,
            0,
        ).pixels);
    }
    assert(dst@.pixels =~= pasted(
        before,
        src@,
        dx - sx,
        dy - sy,
        (sx + cols) as nat,
        (sy + rows) as nat,
    ).pixels);
}

/// Copy the pixels of `src` into `dst`, the first at `(dst_x, dst_y)`, clipped to `dst`.
pub fn copy_into(dst: &mut Buffer, src: &Buffer, dst_x: usize, dst_y: usize)
    requires
        old(dst).wf(),
        src.wf(),
    ensures
        final(dst)@ == pasted(
            old(dst)@,
            src@,
            dst_x as int,
            dst_y as int,
            src@.width,
            src@.height,
        ),
        final(dst).wf(),
{
    copy_part(dst, src, 0, 0, dst_x, dst_y, src.width(), src.height());
}

/// How many pixels a panel of the given size has along each axis.
pub open spec fn panel_pixels<S: Scalar>(size: Size<S>) -> (u32, u32) {
    (
        size.w.s_larger(S::s_whole(0)).s_to_u32(),
        size.h.s_larger(S::s_whole(0)).s_to_u32(),
    )
}

/// How many pixels a panel of the given size has along each axis.
pub fn panel_size<S: Scalar>(size: Size<S>) -> (r: (u32, u32))
    ensures
        r == panel_pixels(size),
{
    (size.w.larger(S::whole(0)).to_u32(), size.h.larger(S::whole(0)).to_u32())
}

/// The pixel of the host's frame at which a coordinate lies; one left of or above the frame is
/// negative.
pub open spec fn pixel_at<S: Scalar>(x: S) -> int {
    if x.s_less(S::s_whole(0)) {
        -(S::s_whole(0).s_minus(x).s_to_u32() as int)
    } else {
        x.s_to_u32() as int
    }
}

/// The pixels that a coordinate leaves out at the start of a panel, and the pixel of the host's
/// frame at which the rest begins.
fn start_at<S: Scalar>(x: S) -> (r: (u32, u32))
    ensures
        r.0 == 0 || r.1 == 0,
        r.1 - r.0 == pixel_at(x),
{
    if x.less(S::whole(0)) {
        (S::whole(0).minus(x).to_u32(), 0)
    } else {
        (0, x.to_u32())
    }
}

/// The host's frame with a panel in the region that it was given: the panel's first pixel lies at
/// the region's origin, and what falls outside the region or the frame is dropped.
pub open spec fn composited<S: Scalar>(target: Frame, region: Rect<S>, panel: Frame) -> Frame {
    let (w, h) = panel_pixels(region.size);
    pasted(target, panel, pixel_at(region.origin.x), pixel_at(region.origin.y), w as nat, h as nat)
}

/// Copy the frame of a panel into the region of the host's frame that it was given.
pub fn composite<S: Scalar>(target: &mut Buffer, region: Rect<S>, panel: &Buffer)
    requires
        old(target).wf(),
        panel.wf(),
    ensures
        final(target)@ == composited(old(target)@, region, panel@),
        final(target).wf(),
{
    let ghost before = target@;
    let (w, h) = panel_size(region.size);
    let (skip_x, x) = start_at(region.origin.x);
    let (skip_y, y) = start_at(region.origin.y);
    if skip_x >= w || skip_y >= h {
        assert(target@.pixels =~= composited(before, region, panel@).pixels);
        return;
    }
    copy_part(
        target,
        panel,
        skip_x as usize,
        skip_y as usize,
        x as usize,
        y as usize,
        (w - skip_x) as usize,
        (h - skip_y) as usize,
    );
    assert(target@ == composited(before, region, panel@));
}

/// Whether a pixel of the host's frame lies in a region.
pub open spec fn covers<S: Scalar>(region: Rect<S>, at: (nat, nat)) -> bool {
    let (w, h) = panel_pixels(region.size);
    &&& 0 <= at.0 - pixel_at(region.origin.x) < w
    &&& 0 <= at.1 - pixel_at(region.origin.y) < h
}

/// A panel touches no pixel outside the region that it was given, wherever that region lies and
/// however large the panel is.
pub proof fn law_panels_stay_in_their_region<S: Scalar>(
    target: Frame,
    region: Rect<S>,
    panel: Frame,
    at: (nat, nat),
)
    requires
        target.pixels.contains_key(at),
        !covers(region, at),
    ensures
        composited(target, region, panel).pixels.contains_key(at),
        composited(target, region, panel).pixels[at] == target.pixels[at],
{
}

/// Within its region a panel shows its own pixels, the first of them at the region's origin.
pub proof fn law_panels_show_their_pixels<S: Scalar>(
    target: Frame,
    region: Rect<S>,
    panel: Frame,
    at: (nat, nat),
)
    requires
        target.pixels.contains_key(at),
        covers(region, at),
        at.0 - pixel_at(region.origin.x) < panel.width,
        at.1 - pixel_at(region.origin.y) < panel.height,
    ensures
        composited(target, region, panel).pixels[at] == panel.pixels[(
            (at.0 - pixel_at(region.origin.x)) as nat,
            (at.1 - pixel_at(region.origin.y)) as nat,
        )],
{
}

/// In whole pixels a region covers exactly the pixels between its edges. Its edges must be within
/// the reach of 32 bits.
pub proof fn law_whole_regions_are_exact(region: Rect<Whole>, at: (nat, nat))
    requires
        -0xffff_ffff <= region.origin.x.0 <= 0xffff_ffff,
        -0xffff_ffff <= region.origin.y.0 <= 0xffff_ffff,
        region.size.w.0 <= 0xffff_ffff,
        region.size.h.0 <= 0xffff_ffff,
    ensures
        covers(region, at) <==> {
            &&& region.origin.x.0 <= at.0 < region.origin.x.0 + region.size.w.0
            &&& region.origin.y.0 <= at.1 < region.origin.y.0 + region.size.h.0
        },
{
}

/// In whole pixels, each pixel of a panel lands as far from the origin of its region as it is from
/// that of the panel, as long as that is within the region and within the frame of the host; every
/// other pixel of the host stays as it was, and so does the size of its frame.
pub proof fn law_whole_panels_land_in_place(
    target: Frame,
    region: Rect<Whole>,
    panel: Frame,
    at: (nat, nat),
)
    requires
        -0xffff_ffff <= region.origin.x.0 <= 0xffff_ffff,
        -0xffff_ffff <= region.origin.y.0 <= 0xffff_ffff,
        region.size.w.0 <= 0xffff_ffff,
        region.size.h.0 <= 0xffff_ffff,
        target.pixels.contains_key(at),
    ensures
        ({
            let x = at.0 - region.origin.x.0;
            let y = at.1 - region.origin.y.0;
            let hit = 0 <= x < region.size.w.0 && x < panel.width && 0 <= y < region.size.h.0 && y
                < panel.height;
            let after = composited(target, region, panel);
            &&& after.width == target.width
            &&& after.height == target.height
            &&& after.pixels.dom() == target.pixels.dom()
            &&& after.pixels[at] == if hit {
                panel.pixels[(x as nat, y as nat)]
            } else {
                target.pixels[at]
            }
        }),
{
    assert(composited(target, region, panel).pixels.dom() =~= target.pixels.dom());
}

/// In whole pixels a panel is as large as its region, and has no pixel where that has no extent.
pub proof fn law_whole_panels_are_as_large_as_their_region(size: Size<Whole>)
    requires
        size.w.0 <= 0xffff_ffff,
        size.h.0 <= 0xffff_ffff,
    ensures
        size.w.0 >= 0 ==> panel_pixels(size).0 == size.w.0,
        size.h.0 >= 0 ==> panel_pixels(size).1 == size.h.0,
        size.w.0 < 0 ==> panel_pixels(size).0 == 0,
        size.h.0 < 0 ==> panel_pixels(size).1 == 0,
{
}

/// A frame copied into another covers as much of it as it is large, from the given place on and as far
/// as the other reaches; the rest stays as it was.
pub proof fn law_copies_land_at_their_place(dst: Frame, src: Frame, x: nat, y: nat, at: (nat, nat))
    requires
        dst.pixels.contains_key(at),
    ensures
        ({
            let after = pasted(dst, src, x as int, y as int, src.width, src.height);
            let hit = x <= at.0 < x + src.width && y <= at.1 < y + src.height;
            &&& after.width == dst.width
            &&& after.height == dst.height
            &&& after.pixels.dom() == dst.pixels.dom()
            &&& hit ==> after.pixels[at] == src.pixels[((at.0 - x) as nat, (at.1 - y) as nat)]
            &&& !hit ==> after.pixels[at] == dst.pixels[at]
        }),
{
    let after = pasted(dst, src, x as int, y as int, src.width, src.height);
    assert(after.pixels.dom() =~= dst.pixels.dom());
}

/// A filled frame has its color at each of its places, and no other place. A new one is transparent.
pub proof fn law_filled_frames_have_one_color(width: nat, height: nat, color: Color, at: (nat, nat))
    ensures
        ({
            let f = filled(width, height, color);
            &&& f.width == width && f.height == height
            &&& f.pixels.contains_key(at) <==> at.0 < width && at.1 < height
            &&& f.pixels.contains_key(at) ==> f.pixels[at] == color
        }),
        clear_color().a == 0,
{
}

} // verus!
