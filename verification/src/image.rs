use vstd::prelude::*;
use crate::color::Color;

verus! {

/// A pixel position or an extent, as `(x, y)` in pixel units.
pub type Pos = (usize, usize);

/// What a canvas of `width` by `height` black pixels holds.
pub open spec fn blank(width: nat, height: nat) -> Seq<Color> {
    Seq::new(width * height, |i: int| Color::black())
}

/// The place of pixel `(x, y)` in the row-major storage of a canvas that is
/// `width` pixels wide.
pub open spec fn index_of(width: int, x: int, y: int) -> int {
    y * width + x
}

/// Every in-range position has a place in the storage, and the place gives
/// the position back.
pub proof fn lemma_index_of(width: int, height: int, x: int, y: int)
    requires
        0 <= x < width,
        0 <= y < height,
    ensures
        0 <= index_of(width, x, y) < width * height,
        index_of(width, x, y) % width == x,
        index_of(width, x, y) / width == y,
{
    vstd::arithmetic::div_mod::lemma_fundamental_div_mod_converse(y * width + x, width, y, x);
    assert(y * width + x < width * height) by (nonlinear_arith)
        requires
            0 <= x < width,
            0 <= y < height,
    ;
    assert(0 <= y * width) by (nonlinear_arith)
        requires
            0 <= y,
            0 < width,
    ;
}

/// Every place in the storage belongs to exactly one in-range position.
pub proof fn lemma_position_of(width: int, height: int, i: int)
    requires
        0 < width,
        0 <= i < width * height,
    ensures
        0 <= i % width < width,
        0 <= i / width < height,
        index_of(width, i % width, i / width) == i,
{
    vstd::arithmetic::div_mod::lemma_fundamental_div_mod(i, width);
    vstd::arithmetic::div_mod::lemma_mod_bound(i, width);
    vstd::arithmetic::div_mod::lemma_div_pos_is_pos(i, width);
    let q = i / width;
    let r = i % width;
    assert(width * q == q * width) by (nonlinear_arith);
    assert(q < height) by (nonlinear_arith)
        requires
            0 < width,
            q * width + r == i,
            0 <= r,
            i < width * height,
    ;
}

/// A fixed-size canvas. Pixels are stored row by row, top row first.
pub struct Image {
    width: usize,
    height: usize,
    pixels: Vec<Color>,
}

impl View for Image {
    type V = Seq<Color>;

    /// The pixels in row-major order: `(x, y)` is at `y * width + x`.
    closed spec fn view(&self) -> Seq<Color> {
        self.pixels@
    }
}

impl Image {
    pub closed spec fn spec_width(&self) -> usize {
        self.width
    }

    pub closed spec fn spec_height(&self) -> usize {
        self.height
    }

    /// Both dimensions are positive and the storage holds exactly
    /// `width * height` pixels, few enough to be serialized.
    pub closed spec fn wf(&self) -> bool {
        &&& self.width > 0
        &&& self.height > 0
        &&& self.pixels@.len() == self.width * self.height
        &&& self.width * self.height * 3 <= isize::MAX
    }

    /// The largest pixel count a canvas can have.
    pub open spec fn fits(width: nat, height: nat) -> bool {
        width * height * 3 <= isize::MAX
    }

    pub proof fn lemma_wf(&self)
        requires
            self.wf(),
        ensures
            self.spec_width() > 0,
            self.spec_height() > 0,
            self@.len() == self.spec_width() * self.spec_height(),
            Self::fits(self.spec_width() as nat, self.spec_height() as nat),
    {
    }

    #[verifier::when_used_as_spec(spec_width)]
    pub fn width(&self) -> (w: usize)
        ensures
            w == self.spec_width(),
    {
        self.width
    }

    #[verifier::when_used_as_spec(spec_height)]
    pub fn height(&self) -> (h: usize)
        ensures
            h == self.spec_height(),
    {
        self.height
    }

    /// Whether `(x, y)` names a pixel of this canvas.
    pub open spec fn contains(&self, x: int, y: int) -> bool {
        0 <= x < self.spec_width() && 0 <= y < self.spec_height()
    }

    /// The color at `(x, y)`, for a position that the canvas contains.
    pub open spec fn pixel(&self, x: int, y: int) -> Color {
        self@[index_of(self.spec_width() as int, x, y)]
    }

    /// The stored pixels, row by row.
    pub fn pixels(&self) -> (p: &[Color])
        ensures
            p@ == self@,
    {
        self.pixels.as_slice()
    }

    /// The color at `pos`, or nothing for a position outside the canvas.
    pub fn get_pixel(&self, pos: Pos) -> (color: Option<Color>)
        requires
            self.wf(),
        ensures
            color == if self.contains(pos.0 as int, pos.1 as int) {
                Some(self.pixel(pos.0 as int, pos.1 as int))
            } else {
                None
            },
    {
        let (x, y) = pos;
        if x < self.width && y < self.height {
            proof {
                lemma_index_of(self.width as int, self.height as int, x as int, y as int);
            }
            Some(self.pixels[y * self.width + x])
        } else {
            None
        }
    }

    /// Writes one pixel. A position outside the canvas is ignored.
    pub fn set_pixel(&mut self, pos: Pos, color: Color)
        requires
            old(self).wf(),
        ensures
            final(self).wf(),
            final(self).spec_width() == old(self).spec_width(),
            final(self).spec_height() == old(self).spec_height(),
            old(self).contains(pos.0 as int, pos.1 as int) ==> final(self)@ == old(self)@.update(
                index_of(old(self).spec_width() as int, pos.0 as int, pos.1 as int),
                color,
            ),
            !old(self).contains(pos.0 as int, pos.1 as int) ==> final(self)@ == old(self)@,
    {
        let (x, y) = pos;
        if x < self.width && y < self.height {
            proof {
                lemma_index_of(self.width as int, self.height as int, x as int, y as int);
            }
            let i: usize = y * self.width + x;
            self.pixels.set(i, color);
        }
    }

    /// An all-black canvas.
    pub fn new(width: usize, height: usize) -> (img: Image)
        requires
            width > 0,
            height > 0,
            Self::fits(width as nat, height as nat),
        ensures
            img.wf(),
            img.spec_width() == width,
            img.spec_height() == height,
            img@ == blank(width as nat, height as nat),
    {
        assert(width * height <= width * height * 3) by (nonlinear_arith)
            requires width * height >= 0;
        let n: usize = width * height;
        let pixels = vec![Color { r: 0, g: 0, b: 0 }; n];
        assert(pixels@ =~= blank(width as nat, height as nat));
        Image { width, height, pixels }
    }
}

} // verus!
