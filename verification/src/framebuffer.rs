//! A colour buffer with a per-pixel depth buffer. A write lands only inside
//! the buffer and only where it is nearer than what the pixel already holds.

use vstd::prelude::*;

verus! {

/// The depth that a cleared pixel holds: farther than any depth that can be
/// written.
pub const FAR_DEPTH: u32 = 0xFFFF_FFFF;

/// An opaque or translucent colour, eight bits a channel.
#[derive(Clone, Copy, Debug, PartialEq, Eq, Structural)]
pub struct Color {
    pub r: u8,
    pub g: u8,
    pub b: u8,
    pub a: u8,
}

/// One write to a framebuffer: a colour and its depth, for the pixel `(x, y)`.
#[derive(Clone, Copy, Debug, PartialEq, Eq, Structural)]
pub struct PixelWrite {
    pub x: i32,
    pub y: i32,
    pub color: Color,
    pub depth: u32,
}

/// The contents of a framebuffer: both buffers hold one entry per pixel, row
/// after row.
pub struct Frame {
    pub width: nat,
    pub height: nat,
    pub colors: Seq<Color>,
    pub depths: Seq<u32>,
    pub background: Color,
}

impl Frame {
    /// Both buffers have one entry for each pixel.
    pub open spec fn wf(self) -> bool {
        &&& self.colors.len() == self.width * self.height
        &&& self.depths.len() == self.width * self.height
    }

    /// Whether `(x, y)` is a pixel of the frame.
    pub open spec fn contains(self, x: int, y: int) -> bool {
        0 <= x < self.width && 0 <= y < self.height
    }

    /// Where the pixel `(x, y)` stands in the two buffers.
    pub open spec fn offset(self, x: int, y: int) -> int {
        y * self.width + x
    }

    /// The colour of the pixel `(x, y)`.
    pub open spec fn color_at(self, x: int, y: int) -> Color {
        self.colors[self.offset(x, y)]
    }

    /// The depth stored for the pixel `(x, y)`.
    pub open spec fn depth_at(self, x: int, y: int) -> u32 {
        self.depths[self.offset(x, y)]
    }

    /// Whether a write of `depth` at `(x, y)` lands: the pixel exists and
    /// `depth` is strictly nearer than the depth it holds.
    pub open spec fn accepts(self, x: int, y: int, depth: u32) -> bool {
        self.contains(x, y) && depth < self.depth_at(x, y)
    }

    /// The frame after a write of `color` and `depth` at `(x, y)`.
    pub open spec fn point(self, x: int, y: int, color: Color, depth: u32) -> Frame {
        if self.accepts(x, y, depth) {
            Frame {
                colors: self.colors.update(self.offset(x, y), color),
                depths: self.depths.update(self.offset(x, y), depth),
                ..self
            }
        } else {
            self
        }
    }

    /// The frame after the writes of `writes`, made in order.
    pub open spec fn drawn(self, writes: Seq<PixelWrite>) -> Frame
        decreases writes.len(),
    {
        if writes.len() == 0 {
            self
        } else {
            let last = writes.last();
            self.drawn(writes.drop_last()).point(last.x as int, last.y as int, last.color, last.depth)
        }
    }

    /// The frame with every pixel reset to the background and the far depth.
    pub open spec fn cleared(self) -> Frame {
        Frame {
            colors: Seq::new(self.width * self.height, |i: int| self.background),
            depths: Seq::new(self.width * self.height, |i: int| FAR_DEPTH),
            ..self
        }
    }

    /// A cleared frame of the given size and background.
    pub open spec fn blank(width: nat, height: nat, background: Color) -> Frame {
        Frame {
            width,
            height,
            colors: Seq::new(width * height, |i: int| background),
            depths: Seq::new(width * height, |i: int| FAR_DEPTH),
            background,
        }
    }
}

/// The offset of a pixel of the frame lies inside the buffers.
pub proof fn lemma_offset_in_range(width: nat, height: nat, x: int, y: int)
    requires
        0 <= x < width,
        0 <= y < height,
    ensures
        0 <= y * width + x < width * height,
{
    assert(y * width + x < width * height && 0 <= y * width) by (nonlinear_arith)
        requires
            0 <= x < width,
            0 <= y < height,
    ;
}

/// A framebuffer: the picture being drawn, and for each pixel the depth of
/// what was drawn there.
pub struct Framebuffer {
    width: usize,
    height: usize,
    colors: Vec<Color>,
    depths: Vec<u32>,
    background: Color,
}

impl View for Framebuffer {
    type V = Frame;

    closed spec fn view(&self) -> Frame {
        Frame {
            width: self.width as nat,
            height: self.height as nat,
            colors: self.colors@,
            depths: self.depths@,
            background: self.background,
        }
    }
}

impl Framebuffer {
    /// A framebuffer of `width` by `height` pixels, cleared to an opaque
    /// black background.
    pub fn new(width: usize, height: usize) -> (fb: Framebuffer)
        requires
            width * height <= usize::MAX,
        ensures
            fb@ == Frame::blank(width as nat, height as nat, Color { r: 0, g: 0, b: 0, a: 255 }),
            fb@.wf(),
    {
        let background = Color { r: 0, g: 0, b: 0, a: 255 };
        let total: usize = width * height;
        let mut colors: Vec<Color> = Vec::new();
        let mut depths: Vec<u32> = Vec::new();
        let mut i: usize = 0;
        while i < total
            invariant
                i <= total,
                colors@ =~= Seq::new(i as nat, |k: int| background),
                depths@ =~= Seq::new(i as nat, |k: int| FAR_DEPTH),
            decreases total - i,
        {
            colors.push(background);
            depths.push(FAR_DEPTH);
            i = i + 1;
        }
        Framebuffer { width, height, colors, depths, background }
    }

    /// The number of pixels in a row.
    pub fn width(&self) -> (w: usize)
        ensures
            w == self@.width,
    {
        self.width
    }

    /// The number of rows.
    pub fn height(&self) -> (h: usize)
        ensures
            h == self@.height,
    {
        self.height
    }

    /// Writes `color` at `(x, y)` if the pixel exists and `depth` is
    /// strictly nearer than the depth stored there, and stores `depth` with
    /// it. Any other write changes nothing.
    pub fn point(&mut self, x: i32, y: i32, color: Color, depth: u32)
        requires
            old(self)@.wf(),
        ensures
            final(self)@ == old(self)@.point(x as int, y as int, color, depth),
            final(self)@.wf(),
            old(self)@.accepts(x as int, y as int, depth) ==> final(self)@.color_at(x as int, y as int) == color
                && final(self)@.depth_at(x as int, y as int) == depth,
            !old(self)@.accepts(x as int, y as int, depth) ==> final(self)@ == old(self)@,
    {
        proof {
            lemma_point_outcome(self@, x as int, y as int, color, depth);
        }
        if x >= 0 && y >= 0 && (x as usize) < self.width && (y as usize) < self.height {
            proof {
                lemma_offset_in_range(self.width as nat, self.height as nat, x as int, y as int);
                assert(self.colors.len() <= usize::MAX);
            }
            let i: usize = y as usize * self.width + x as usize;
            if depth < self.depths[i] {
                self.colors.set(i, color);
                self.depths.set(i, depth);
            }
        }
    }

    /// Writes each entry of `writes`, in order, as `point` does.
    pub fn draw(&mut self, writes: &Vec<PixelWrite>)
        requires
            old(self)@.wf(),
        ensures
            final(self)@ == old(self)@.drawn(writes@),
            final(self)@.wf(),
    {
        let mut k: usize = 0;
        while k < writes.len()
            invariant
                k <= writes.len(),
                self@.wf(),
                self@ == old(self)@.drawn(writes@.take(k as int)),
            decreases writes.len() - k,
        {
            let w = writes[k];
            self.point(w.x, w.y, w.color, w.depth);
            proof {
                assert(writes@.take(k + 1).drop_last() =~= writes@.take(k as int));
            }
            k = k + 1;
        }
        proof {
            assert(writes@.take(k as int) =~= writes@);
        }
    }

    /// Resets every pixel to the background colour and the far depth.
    pub fn clear(&mut self)
        requires
            old(self)@.wf(),
        ensures
            final(self)@ == old(self)@.cleared(),
            final(self)@.wf(),
    {
        let total: usize = self.colors.len();
        let mut i: usize = 0;
        while i < total
            invariant
                i <= total,
                self.width == old(self).width,
                self.height == old(self).height,
                self.background == old(self).background,
                self.colors@.len() == total,
                self.depths@.len() == total,
                forall|k: int| 0 <= k < i ==> self.colors@[k] == self.background,
                forall|k: int| 0 <= k < i ==> self.depths@[k] == FAR_DEPTH,
            decreases total - i,
        {
            self.colors.set(i, self.background);
            self.depths.set(i, FAR_DEPTH);
            i = i + 1;
        }
        proof {
            assert(self.colors@ =~= old(self)@.cleared().colors);
            assert(self.depths@ =~= old(self)@.cleared().depths);
        }
    }

    /// Sets the colour that `clear` paints. The picture itself is untouched.
    pub fn set_background_color(&mut self, color: Color)
        ensures
            final(self)@ == (Frame { background: color, ..old(self)@ }),
    {
        self.background = color;
    }

    /// The colour that `clear` paints.
    pub fn background_color(&self) -> (color: Color)
        ensures
            color == self@.background,
    {
        self.background
    }

    /// The colour of the pixel `(x, y)`, if there is such a pixel.
    pub fn color_at(&self, x: i32, y: i32) -> (color: Option<Color>)
        requires
            self@.wf(),
        ensures
            color == if self@.contains(x as int, y as int) {
                Some(self@.color_at(x as int, y as int))
            } else {
                None
            },
    {
        if x >= 0 && y >= 0 && (x as usize) < self.width && (y as usize) < self.height {
            proof {
                lemma_offset_in_range(self.width as nat, self.height as nat, x as int, y as int);
                assert(self.colors.len() <= usize::MAX);
            }
            Some(self.colors[y as usize * self.width + x as usize])
        } else {
            None
        }
    }

    /// The depth stored for the pixel `(x, y)`, if there is such a pixel.
    pub fn depth_at(&self, x: i32, y: i32) -> (depth: Option<u32>)
        requires
            self@.wf(),
        ensures
            depth == if self@.contains(x as int, y as int) {
                Some(self@.depth_at(x as int, y as int))
            } else {
                None
            },
    {
        if x >= 0 && y >= 0 && (x as usize) < self.width && (y as usize) < self.height {
            proof {
                lemma_offset_in_range(self.width as nat, self.height as nat, x as int, y as int);
                assert(self.depths.len() <= usize::MAX);
            }
            Some(self.depths[y as usize * self.width + x as usize])
        } else {
            None
        }
    }

    /// The whole picture, row after row, for presenting it.
    pub fn colors(&self) -> (colors: &Vec<Color>)
        ensures
            colors@ == self@.colors,
    {
        &self.colors
    }
}

/// Two pixels of a frame with the same offset are the same pixel.
pub proof fn lemma_offset_injective(width: nat, x1: int, y1: int, x2: int, y2: int)
    requires
        0 <= x1 < width,
        0 <= x2 < width,
        y1 * width + x1 == y2 * width + x2,
    ensures
        x1 == x2,
        y1 == y2,
{
    assert(y1 == y2) by (nonlinear_arith)
        requires
            0 <= x1 < width,
            0 <= x2 < width,
            y1 * width + x1 == y2 * width + x2,
    ;
}

/// What a write does. One that the frame accepts puts its colour and depth
/// at its pixel; one that is out of bounds, or not strictly nearer than the
/// stored depth, changes nothing. No write touches another pixel, the size
/// or the background.
pub proof fn lemma_point_outcome(frame: Frame, x: int, y: int, color: Color, depth: u32)
    requires
        frame.wf(),
    ensures
        frame.point(x, y, color, depth).wf(),
        frame.point(x, y, color, depth).width == frame.width,
        frame.point(x, y, color, depth).height == frame.height,
        frame.point(x, y, color, depth).background == frame.background,
        frame.accepts(x, y, depth) ==> frame.point(x, y, color, depth).color_at(x, y) == color
            && frame.point(x, y, color, depth).depth_at(x, y) == depth,
        !frame.accepts(x, y, depth) ==> frame.point(x, y, color, depth) == frame,
        forall|x2: int, y2: int|
            frame.contains(x2, y2) && (x2 != x || y2 != y) ==> #[trigger] frame.point(
                x,
                y,
                color,
                depth,
            ).color_at(x2, y2) == frame.color_at(x2, y2),
        forall|x2: int, y2: int|
            frame.contains(x2, y2) && (x2 != x || y2 != y) ==> #[trigger] frame.point(
                x,
                y,
                color,
                depth,
            ).depth_at(x2, y2) == frame.depth_at(x2, y2),
{
    let after = frame.point(x, y, color, depth);
    if frame.accepts(x, y, depth) {
        lemma_offset_in_range(frame.width, frame.height, x, y);
    }
    assert forall|x2: int, y2: int| frame.contains(x2, y2) && (x2 != x || y2 != y) implies #[trigger] after.color_at(
        x2,
        y2,
    ) == frame.color_at(x2, y2) by {
        lemma_point_elsewhere(frame, x, y, color, depth, x2, y2);
    }
    assert forall|x2: int, y2: int| frame.contains(x2, y2) && (x2 != x || y2 != y) implies #[trigger] after.depth_at(
        x2,
        y2,
    ) == frame.depth_at(x2, y2) by {
        lemma_point_elsewhere(frame, x, y, color, depth, x2, y2);
    }
}

proof fn lemma_point_elsewhere(frame: Frame, x: int, y: int, color: Color, depth: u32, x2: int, y2: int)
    requires
        frame.wf(),
        frame.contains(x2, y2),
        x2 != x || y2 != y,
    ensures
        frame.point(x, y, color, depth).color_at(x2, y2) == frame.color_at(x2, y2),
        frame.point(x, y, color, depth).depth_at(x2, y2) == frame.depth_at(x2, y2),
{
    if frame.accepts(x, y, depth) {
        lemma_offset_in_range(frame.width, frame.height, x, y);
        lemma_offset_in_range(frame.width, frame.height, x2, y2);
        if frame.offset(x2, y2) == frame.offset(x, y) {
            lemma_offset_injective(frame.width, x, y, x2, y2);
        }
    }
}

/// After a write the depth of its pixel is the smaller of the depth that was
/// stored and the depth that was written: the nearer one wins.
pub proof fn lemma_point_keeps_nearest(frame: Frame, x: int, y: int, color: Color, depth: u32)
    requires
        frame.wf(),
        frame.contains(x, y),
    ensures
        frame.point(x, y, color, depth).depth_at(x, y) == if depth < frame.depth_at(x, y) {
            depth
        } else {
            frame.depth_at(x, y)
        },
{
    lemma_point_outcome(frame, x, y, color, depth);
}

/// Writing the same colour and depth at the same pixel a second time changes
/// nothing: after the first write the depth is no longer strictly nearer.
pub proof fn lemma_point_idempotent(frame: Frame, x: int, y: int, color: Color, depth: u32)
    requires
        frame.wf(),
    ensures
        frame.point(x, y, color, depth).point(x, y, color, depth) == frame.point(x, y, color, depth),
{
    lemma_point_outcome(frame, x, y, color, depth);
}

/// A cleared frame shows the background everywhere, at the far depth, so it
/// accepts every write inside it that is nearer than the far depth.
pub proof fn lemma_cleared(frame: Frame, x: int, y: int)
    requires
        frame.contains(x, y),
    ensures
        frame.cleared().wf(),
        frame.cleared().color_at(x, y) == frame.background,
        frame.cleared().depth_at(x, y) == FAR_DEPTH,
        forall|depth: u32| depth < FAR_DEPTH ==> #[trigger] frame.cleared().accepts(x, y, depth),
{
    lemma_offset_in_range(frame.width, frame.height, x, y);
}

/// Whether the write `w` is aimed at the pixel `(x, y)`.
pub open spec fn aims_at(w: PixelWrite, x: int, y: int) -> bool {
    w.x == x && w.y == y
}

/// After a sequence of writes a pixel holds the nearest depth among the
/// depth it had and the depths written to it, with the colour that came with
/// that depth; a pixel that no nearer write reached keeps what it had.
pub proof fn lemma_drawn_nearest(frame: Frame, writes: Seq<PixelWrite>, x: int, y: int)
    requires
        frame.wf(),
        frame.contains(x, y),
    ensures
        frame.drawn(writes).wf(),
        frame.drawn(writes).width == frame.width,
        frame.drawn(writes).height == frame.height,
        frame.drawn(writes).background == frame.background,
        frame.drawn(writes).depth_at(x, y) <= frame.depth_at(x, y),
        forall|k: int|
            0 <= k < writes.len() && aims_at(#[trigger] writes[k], x, y) ==> frame.drawn(writes).depth_at(x, y)
                <= writes[k].depth,
        (frame.drawn(writes).depth_at(x, y) == frame.depth_at(x, y) && frame.drawn(writes).color_at(x, y)
            == frame.color_at(x, y)) || (exists|k: int|
            0 <= k < writes.len() && aims_at(#[trigger] writes[k], x, y) && writes[k].depth
                == frame.drawn(writes).depth_at(x, y) && writes[k].color == frame.drawn(writes).color_at(x, y)),
    decreases writes.len(),
{
    if writes.len() > 0 {
        let last = writes.last();
        let before = frame.drawn(writes.drop_last());
        let after = frame.drawn(writes);
        lemma_drawn_nearest(frame, writes.drop_last(), x, y);
        lemma_point_outcome(before, last.x as int, last.y as int, last.color, last.depth);
        assert forall|k: int| 0 <= k < writes.len() && aims_at(#[trigger] writes[k], x, y) implies after.depth_at(
            x,
            y,
        ) <= writes[k].depth by {
            if k < writes.len() - 1 {
                assert(writes.drop_last()[k] == writes[k]);
            }
        }
        if aims_at(last, x, y) && before.accepts(x, y, last.depth) {
            assert(aims_at(writes[writes.len() - 1], x, y));
        } else if !(before.depth_at(x, y) == frame.depth_at(x, y) && before.color_at(x, y) == frame.color_at(x, y)) {
            let k = choose|k: int|
                0 <= k < writes.drop_last().len() && aims_at(#[trigger] writes.drop_last()[k], x, y)
                    && writes.drop_last()[k].depth == before.depth_at(x, y) && writes.drop_last()[k].color
                    == before.color_at(x, y);
            assert(writes[k] == writes.drop_last()[k]);
        }
    }
}

} // verus!
