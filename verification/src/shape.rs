use vstd::prelude::*;
use crate::color::Color;
use crate::image::{index_of, lemma_index_of, lemma_position_of, Image, Pos};

verus! {

/// A set of pixel positions.
pub trait Footprint: Sized {
    /// Whether the footprint includes the pixel `(x, y)`, on a canvas
    /// without borders.
    spec fn covers(&self, x: int, y: int) -> bool;
}

/// Something that can paint its footprint onto a canvas in one color.
pub trait Shape: Footprint {
    /// Paints the footprint onto `image`, clipped to the canvas.
    fn draw(&self, image: &mut Image, color: Color)
        requires
            old(image).wf(),
        ensures
            final(image).wf(),
            final(image).spec_width() == old(image).spec_width(),
            final(image).spec_height() == old(image).spec_height(),
            final(image)@ == stamped(self, old(image)@, old(image).spec_width() as int, color),
    ;
}

/// The pixels `before` with every pixel of the footprint of `shape` set to
/// `color`, on a canvas `width` pixels wide.
pub open spec fn stamped<S: Footprint>(shape: &S, before: Seq<Color>, width: int, color: Color) -> Seq<
    Color,
> {
    Seq::new(
        before.len(),
        |i: int|
            if shape.covers(i % width, i / width) {
                color
            } else {
                before[i]
            },
    )
}

/// Whether every pixel of the footprint that lies on a `width` by `height`
/// canvas lies in the columns `[min_x, max_x)` and the rows `[min_y, max_y)`.
spec fn boxed<S: Footprint>(
    shape: &S,
    width: int,
    height: int,
    min_x: int,
    max_x: int,
    min_y: int,
    max_y: int,
) -> bool {
    forall|x: int, y: int|
        0 <= x < width && 0 <= y < height && #[trigger] shape.covers(x, y) ==> min_x <= x < max_x
            && min_y <= y < max_y
}

/// What a canvas holds while a footprint is being painted column by column:
/// the columns left of `col` are done, and so are the rows above `row` in
/// column `col`.
spec fn partly_stamped<S: Footprint>(
    shape: &S,
    before: Seq<Color>,
    width: int,
    color: Color,
    col: int,
    row: int,
) -> Seq<Color> {
    Seq::new(
        before.len(),
        |i: int|
            if shape.covers(i % width, i / width) && (i % width < col || (i % width == col && i
                / width < row)) {
                color
            } else {
                before[i]
            },
    )
}

/// Nothing is painted before the first pixel of the box.
proof fn lemma_stamp_start<S: Footprint>(
    shape: &S,
    before: Seq<Color>,
    width: int,
    height: int,
    color: Color,
    min_x: int,
    max_x: int,
    min_y: int,
    max_y: int,
)
    requires
        0 < width,
        before.len() == width * height,
        boxed(shape, width, height, min_x, max_x, min_y, max_y),
    ensures
        partly_stamped(shape, before, width, color, min_x, min_y) == before,
{
    let start = partly_stamped(shape, before, width, color, min_x, min_y);
    assert forall|i: int| 0 <= i < before.len() implies start[i] == before[i] by {
        lemma_position_of(width, height, i);
    }
    assert(start =~= before);
}

/// Painting the pixel `(x, y)`, if the footprint has it, moves the work on
/// by one row.
proof fn lemma_stamp_step<S: Footprint>(
    shape: &S,
    before: Seq<Color>,
    width: int,
    height: int,
    color: Color,
    x: int,
    y: int,
)
    requires
        0 <= x < width,
        0 <= y < height,
        before.len() == width * height,
    ensures
        partly_stamped(shape, before, width, color, x, y + 1) == if shape.covers(x, y) {
            partly_stamped(shape, before, width, color, x, y).update(index_of(width, x, y), color)
        } else {
            partly_stamped(shape, before, width, color, x, y)
        },
{
    let now = partly_stamped(shape, before, width, color, x, y);
    let next = partly_stamped(shape, before, width, color, x, y + 1);
    let k = index_of(width, x, y);
    lemma_index_of(width, height, x, y);
    let painted = if shape.covers(x, y) {
        now.update(k, color)
    } else {
        now
    };
    assert forall|i: int| 0 <= i < before.len() implies next[i] == painted[i] by {
        lemma_position_of(width, height, i);
    }
    assert(next =~= painted);
}

/// Below the box a column holds nothing more to paint.
proof fn lemma_stamp_next_column<S: Footprint>(
    shape: &S,
    before: Seq<Color>,
    width: int,
    height: int,
    color: Color,
    x: int,
    y: int,
    min_x: int,
    max_x: int,
    min_y: int,
    max_y: int,
)
    requires
        0 < width,
        before.len() == width * height,
        boxed(shape, width, height, min_x, max_x, min_y, max_y),
        max_y <= y,
    ensures
        partly_stamped(shape, before, width, color, x, y) == partly_stamped(
            shape,
            before,
            width,
            color,
            x + 1,
            min_y,
        ),
{
    let done = partly_stamped(shape, before, width, color, x, y);
    let next = partly_stamped(shape, before, width, color, x + 1, min_y);
    assert forall|i: int| 0 <= i < before.len() implies done[i] == next[i] by {
        lemma_position_of(width, height, i);
    }
    assert(done =~= next);
}

/// Right of the box nothing is left to paint.
proof fn lemma_stamp_end<S: Footprint>(
    shape: &S,
    before: Seq<Color>,
    width: int,
    height: int,
    color: Color,
    x: int,
    min_x: int,
    max_x: int,
    min_y: int,
    max_y: int,
)
    requires
        0 < width,
        before.len() == width * height,
        boxed(shape, width, height, min_x, max_x, min_y, max_y),
        max_x <= x,
    ensures
        partly_stamped(shape, before, width, color, x, min_y) == stamped(
            shape,
            before,
            width,
            color,
        ),
{
    let done = partly_stamped(shape, before, width, color, x, min_y);
    let all = stamped(shape, before, width, color);
    assert forall|i: int| 0 <= i < before.len() implies done[i] == all[i] by {
        lemma_position_of(width, height, i);
    }
    assert(done =~= all);
}

/// A filled disk around `pos`.
#[derive(Clone, Copy, Debug)]
pub struct Circle {
    pub pos: Pos,
    pub radius: usize,
}

/// The disk test at the center of pixel `(x, y)`, with every length doubled
/// so that the half-pixel offset is a whole number.
pub open spec fn in_disk(cx: int, cy: int, radius: int, x: int, y: int) -> bool {
    (2 * (x - cx) + 1) * (2 * (x - cx) + 1) + (2 * (y - cy) + 1) * (2 * (y - cy) + 1) <= (2
        * radius) * (2 * radius)
}

/// `d * (d + 1)`, a quarter of `(2 * d + 1)^2 - 1`.
spec fn oblong(d: int) -> int {
    d * (d + 1)
}

/// The disk test without the doubling.
proof fn lemma_in_disk_halved(cx: int, cy: int, radius: int, x: int, y: int)
    ensures
        in_disk(cx, cy, radius, x, y) <==> oblong(x - cx) + oblong(y - cy) < radius * radius,
{
    let dx = x - cx;
    let dy = y - cy;
    assert((2 * dx + 1) * (2 * dx + 1) == 4 * oblong(dx) + 1) by (nonlinear_arith);
    assert((2 * dy + 1) * (2 * dy + 1) == 4 * oblong(dy) + 1) by (nonlinear_arith);
    assert((2 * radius) * (2 * radius) == 4 * (radius * radius)) by (nonlinear_arith);
}

/// `d * (d + 1)` is never negative, stays below `radius^2` for `d` in
/// `[-radius, radius)`, and reaches it everywhere else.
proof fn lemma_oblong_bounds(d: int, radius: int)
    requires
        0 <= radius,
    ensures
        0 <= oblong(d),
        -radius <= d < radius ==> oblong(d) <= radius * radius - radius,
        !(-radius <= d < radius) ==> oblong(d) >= radius * radius,
{
    assert(0 <= d * (d + 1)) by (nonlinear_arith);
    if -radius <= d < radius {
        assert(d * (d + 1) <= radius * radius - radius) by (nonlinear_arith)
            requires
                -radius <= d < radius,
        ;
    } else {
        assert(d * (d + 1) >= radius * radius) by (nonlinear_arith)
            requires
                0 <= radius,
                d >= radius || d < -radius,
        ;
    }
}

/// A disk lies within the square `[cx - r, cx + r) x [cy - r, cy + r)`.
pub proof fn lemma_disk_in_square(cx: int, cy: int, radius: int, x: int, y: int)
    requires
        0 <= radius,
        in_disk(cx, cy, radius, x, y),
    ensures
        cx - radius <= x < cx + radius,
        cy - radius <= y < cy + radius,
{
    lemma_in_disk_halved(cx, cy, radius, x, y);
    lemma_oblong_bounds(x - cx, radius);
    lemma_oblong_bounds(y - cy, radius);
}

impl Circle {
    /// `d * (d + 1)` for `d = a - c`, where `d` lies in `[-radius, radius)`.
    fn oblong_of(a: usize, c: usize, Ghost(radius): Ghost<int>) -> (t: u128)
        requires
            0 <= radius <= usize::MAX,
            c - radius <= a < c + radius,
        ensures
            t == oblong(a - c),
            t <= radius * radius - radius,
    {
        proof {
            lemma_oblong_bounds(a - c, radius);
            assert(radius * radius - radius <= 0xffff_ffff_ffff_ffff * 0xffff_ffff_ffff_ffff)
                by (nonlinear_arith)
                requires
                    0 <= radius <= 0xffff_ffff_ffff_ffff,
            ;
        }
        if a >= c {
            let d: u128 = (a - c) as u128;
            assert(d * (d + 1) == oblong(a - c));
            d * (d + 1)
        } else {
            let e: u128 = (c - a) as u128;
            assert(e * (e - 1) == oblong(a - c)) by (nonlinear_arith)
                requires
                    e == c - a,
            ;
            e * (e - 1)
        }
    }

    /// Whether the pixel `(x, y)` belongs to the disk.
    pub fn contains(&self, x: usize, y: usize) -> (inside: bool)
        ensures
            inside == self.covers(x as int, y as int),
    {
        let (cx, cy) = self.pos;
        let r = self.radius;
        proof {
            if in_disk(cx as int, cy as int, r as int, x as int, y as int) {
                lemma_disk_in_square(cx as int, cy as int, r as int, x as int, y as int);
            }
            lemma_in_disk_halved(cx as int, cy as int, r as int, x as int, y as int);
        }
        let in_columns = if x >= cx {
            x - cx < r
        } else {
            cx - x <= r
        };
        let in_rows = if y >= cy {
            y - cy < r
        } else {
            cy - y <= r
        };
        if !in_columns || !in_rows {
            return false;
        }
        let tx = Self::oblong_of(x, cx, Ghost(r as int));
        let ty = Self::oblong_of(y, cy, Ghost(r as int));
        assert(r * r <= 0xffff_ffff_ffff_ffff * 0xffff_ffff_ffff_ffff) by (nonlinear_arith)
            requires
                0 <= r <= 0xffff_ffff_ffff_ffff,
        ;
        let rr: u128 = (r as u128) * (r as u128);
        tx < rr - ty
    }
}

impl Footprint for Circle {
    open spec fn covers(&self, x: int, y: int) -> bool {
        in_disk(self.pos.0 as int, self.pos.1 as int, self.radius as int, x, y)
    }
}

impl Shape for Circle {
    fn draw(&self, image: &mut Image, color: Color) {
        let w = image.width();
        let h = image.height();
        let (cx, cy) = self.pos;
        let r = self.radius;
        let min_x = cx.saturating_sub(r);
        let sum_x = cx.saturating_add(r);
        let max_x = if sum_x < w { sum_x } else { w };
        let min_y = cy.saturating_sub(r);
        let sum_y = cy.saturating_add(r);
        let max_y = if sum_y < h { sum_y } else { h };
        let ghost before = image@;
        proof {
            image.lemma_wf();
            assert forall|x: int, y: int|
                0 <= x < w && 0 <= y < h && #[trigger] self.covers(x, y) implies min_x <= x < max_x
                && min_y <= y < max_y by {
                lemma_disk_in_square(cx as int, cy as int, r as int, x, y);
            }
            lemma_stamp_start(
                self,
                before,
                w as int,
                h as int,
                color,
                min_x as int,
                max_x as int,
                min_y as int,
                max_y as int,
            );
        }
        let mut x: usize = min_x;
        while x < max_x
            invariant
                image.wf(),
                image.spec_width() == w,
                image.spec_height() == h,
                before.len() == w * h,
                max_x <= w,
                max_y <= h,
                boxed(self, w as int, h as int, min_x as int, max_x as int, min_y as int, max_y as int),
                image@ == partly_stamped(self, before, w as int, color, x as int, min_y as int),
            decreases max_x - x,
        {
            let mut y: usize = min_y;
            while y < max_y
                invariant
                    image.wf(),
                    image.spec_width() == w,
                    image.spec_height() == h,
                    before.len() == w * h,
                    x < max_x <= w,
                    max_y <= h,
                    image@ == partly_stamped(self, before, w as int, color, x as int, y as int),
                decreases max_y - y,
            {
                if self.contains(x, y) {
                    image.set_pixel((x, y), color);
                }
                proof {
                    lemma_stamp_step(self, before, w as int, h as int, color, x as int, y as int);
                }
                y += 1;
            }
            proof {
                lemma_stamp_next_column(
                    self,
                    before,
                    w as int,
                    h as int,
                    color,
                    x as int,
                    y as int,
                    min_x as int,
                    max_x as int,
                    min_y as int,
                    max_y as int,
                );
            }
            x += 1;
        }
        proof {
            lemma_stamp_end(
                self,
                before,
                w as int,
                h as int,
                color,
                x as int,
                min_x as int,
                max_x as int,
                min_y as int,
                max_y as int,
            );
        }
    }
}

/// A filled rectangle from `pos` to `pos + dim`, both corners included.
#[derive(Clone, Copy, Debug)]
pub struct Rect {
    pub pos: Pos,
    pub dim: Pos,
}

impl Footprint for Rect {
    open spec fn covers(&self, x: int, y: int) -> bool {
        &&& self.pos.0 <= x <= self.pos.0 + self.dim.0
        &&& self.pos.1 <= y <= self.pos.1 + self.dim.1
    }
}

impl Shape for Rect {
    fn draw(&self, image: &mut Image, color: Color) {
        let w = image.width();
        let h = image.height();
        let (left, top) = self.pos;
        let (dx, dy) = self.dim;
        let min_x = if left < w { left } else { w };
        let end_x = left.saturating_add(dx).saturating_add(1);
        let max_x = if end_x < w { end_x } else { w };
        let min_y = if top < h { top } else { h };
        let end_y = top.saturating_add(dy).saturating_add(1);
        let max_y = if end_y < h { end_y } else { h };
        let ghost before = image@;
        proof {
            image.lemma_wf();
            lemma_stamp_start(
                self,
                before,
                w as int,
                h as int,
                color,
                min_x as int,
                max_x as int,
                min_y as int,
                max_y as int,
            );
        }
        let mut x: usize = min_x;
        while x < max_x
            invariant
                image.wf(),
                image.spec_width() == w,
                image.spec_height() == h,
                before.len() == w * h,
                max_x <= w,
                max_y <= h,
                min_x <= x || max_x <= x,
                self.pos == (left, top),
                self.dim == (dx, dy),
                min_x == if left < w { left } else { w },
                max_x == if left + dx + 1 < w { left + dx + 1 } else { w as int },
                min_y == if top < h { top } else { h },
                max_y == if top + dy + 1 < h { top + dy + 1 } else { h as int },
                boxed(self, w as int, h as int, min_x as int, max_x as int, min_y as int, max_y as int),
                image@ == partly_stamped(self, before, w as int, color, x as int, min_y as int),
            decreases max_x - x,
        {
            let mut y: usize = min_y;
            while y < max_y
                invariant
                    image.wf(),
                    image.spec_width() == w,
                    image.spec_height() == h,
                    before.len() == w * h,
                    min_x <= x < max_x <= w,
                    max_y <= h,
                    min_y <= y || max_y <= y,
                    self.pos == (left, top),
                    self.dim == (dx, dy),
                    min_x == if left < w { left } else { w },
                    max_x == if left + dx + 1 < w { left + dx + 1 } else { w as int },
                    min_y == if top < h { top } else { h },
                    max_y == if top + dy + 1 < h { top + dy + 1 } else { h as int },
                    image@ == partly_stamped(self, before, w as int, color, x as int, y as int),
                decreases max_y - y,
            {
                assert(self.covers(x as int, y as int));
                image.set_pixel((x, y), color);
                proof {
                    lemma_stamp_step(self, before, w as int, h as int, color, x as int, y as int);
                }
                y += 1;
            }
            proof {
                lemma_stamp_next_column(
                    self,
                    before,
                    w as int,
                    h as int,
                    color,
                    x as int,
                    y as int,
                    min_x as int,
                    max_x as int,
                    min_y as int,
                    max_y as int,
                );
            }
            x += 1;
        }
        proof {
            lemma_stamp_end(
                self,
                before,
                w as int,
                h as int,
                color,
                x as int,
                min_x as int,
                max_x as int,
                min_y as int,
                max_y as int,
            );
        }
    }
}

/// A single pixel.
#[derive(Clone, Copy, Debug)]
pub struct Point {
    pub pos: Pos,
}

impl Footprint for Point {
    open spec fn covers(&self, x: int, y: int) -> bool {
        x == self.pos.0 && y == self.pos.1
    }
}

impl Shape for Point {
    fn draw(&self, image: &mut Image, color: Color) {
        let ghost before = image@;
        let ghost w = image.spec_width() as int;
        let ghost h = image.spec_height() as int;
        let ghost x = self.pos.0 as int;
        let ghost y = self.pos.1 as int;
        proof {
            image.lemma_wf();
        }
        image.set_pixel(self.pos, color);
        proof {
            if 0 <= x < w && 0 <= y < h {
                lemma_index_of(w, h, x, y);
            }
            let all = stamped(self, before, w, color);
            assert forall|i: int| 0 <= i < before.len() implies image@[i] == all[i] by {
                lemma_position_of(w, h, i);
            }
            assert(image@ =~= all);
        }
    }
}

/// Whether no pixel of the footprint lies on the canvas.
pub open spec fn misses<S: Footprint>(shape: &S, image: &Image) -> bool {
    forall|x: int, y: int| image.contains(x, y) ==> !#[trigger] shape.covers(x, y)
}

/// Painting a shape that lies entirely outside the canvas changes nothing.
pub proof fn lemma_outside_changes_nothing<S: Footprint>(shape: &S, image: &Image, color: Color)
    requires
        image.wf(),
        misses(shape, image),
    ensures
        stamped(shape, image@, image.spec_width() as int, color) == image@,
{
    image.lemma_wf();
    let w = image.spec_width() as int;
    let h = image.spec_height() as int;
    let after = stamped(shape, image@, w, color);
    assert forall|i: int| 0 <= i < image@.len() implies after[i] == image@[i] by {
        lemma_position_of(w, h, i);
        assert(image.contains(i % w, i / w));
    }
    assert(after =~= image@);
}

/// A point right of the last column or below the last row misses the canvas.
pub proof fn lemma_point_outside(point: &Point, image: &Image)
    requires
        !image.contains(point.pos.0 as int, point.pos.1 as int),
    ensures
        misses(point, image),
{
}

/// A rectangle whose corner lies right of the last column or below the last
/// row misses the canvas.
pub proof fn lemma_rect_outside(rect: &Rect, image: &Image)
    requires
        rect.pos.0 >= image.spec_width() || rect.pos.1 >= image.spec_height(),
    ensures
        misses(rect, image),
{
}

/// A disk whose enclosing square begins right of the last column or below
/// the last row misses the canvas.
pub proof fn lemma_circle_outside(circle: &Circle, image: &Image)
    requires
        circle.pos.0 - circle.radius >= image.spec_width() || circle.pos.1 - circle.radius
            >= image.spec_height(),
    ensures
        misses(circle, image),
{
    assert forall|x: int, y: int| image.contains(x, y) implies !#[trigger] circle.covers(x, y) by {
        if circle.covers(x, y) {
            lemma_disk_in_square(
                circle.pos.0 as int,
                circle.pos.1 as int,
                circle.radius as int,
                x,
                y,
            );
        }
    }
}

/// Painting a point on the canvas changes the pixel at its position and no
/// other.
pub proof fn lemma_point_changes_one_pixel(point: &Point, image: &Image, color: Color)
    requires
        image.wf(),
        image.contains(point.pos.0 as int, point.pos.1 as int),
    ensures
        stamped(point, image@, image.spec_width() as int, color) == image@.update(
            index_of(image.spec_width() as int, point.pos.0 as int, point.pos.1 as int),
            color,
        ),
{
    image.lemma_wf();
    let w = image.spec_width() as int;
    let h = image.spec_height() as int;
    let x = point.pos.0 as int;
    let y = point.pos.1 as int;
    lemma_index_of(w, h, x, y);
    let after = stamped(point, image@, w, color);
    let changed = image@.update(index_of(w, x, y), color);
    assert forall|i: int| 0 <= i < image@.len() implies after[i] == changed[i] by {
        lemma_position_of(w, h, i);
    }
    assert(after =~= changed);
}

/// A rectangle without extent paints what a point at its corner paints.
pub proof fn lemma_rect_without_extent(pos: Pos, before: Seq<Color>, width: int, color: Color)
    ensures
        stamped(&Rect { pos, dim: (0, 0) }, before, width, color) == stamped(
            &Point { pos },
            before,
            width,
            color,
        ),
{
    let rect = Rect { pos, dim: (0, 0) };
    let point = Point { pos };
    assert(stamped(&rect, before, width, color) =~= stamped(&point, before, width, color));
}

/// Painting the rectangle without extent at the origin changes the first
/// pixel of the canvas and no other.
pub proof fn lemma_unit_rect_at_origin(image: &Image, color: Color)
    requires
        image.wf(),
    ensures
        stamped(&Rect { pos: (0, 0), dim: (0, 0) }, image@, image.spec_width() as int, color)
            == image@.update(0, color),
        index_of(image.spec_width() as int, 0, 0) == 0,
{
    image.lemma_wf();
    lemma_rect_without_extent((0, 0), image@, image.spec_width() as int, color);
    lemma_point_changes_one_pixel(&Point { pos: (0, 0) }, image, color);
}

/// A disk of radius zero holds no pixel center: painting it changes nothing,
/// wherever its center lies.
pub proof fn lemma_circle_of_radius_zero(pos: Pos, before: Seq<Color>, width: int, color: Color)
    ensures
        forall|x: int, y: int| !(Circle { pos, radius: 0 }).covers(x, y),
        stamped(&Circle { pos, radius: 0 }, before, width, color) == before,
{
    let circle = Circle { pos, radius: 0 };
    assert forall|x: int, y: int| !circle.covers(x, y) by {
        lemma_in_disk_halved(pos.0 as int, pos.1 as int, 0, x, y);
        lemma_oblong_bounds(x - pos.0, 0);
        lemma_oblong_bounds(y - pos.1, 0);
    }
    assert(stamped(&circle, before, width, color) =~= before);
}

impl Image {
    /// Paints `shape` in `color` and hands the canvas back, so that calls
    /// can be chained.
    pub fn draw_shape<S: Shape>(self, shape: S, color: Color) -> (image: Image)
        requires
            self.wf(),
        ensures
            image.wf(),
            image.spec_width() == self.spec_width(),
            image.spec_height() == self.spec_height(),
            image@ == stamped(&shape, self@, self.spec_width() as int, color),
    {
        let mut image = self;
        shape.draw(&mut image, color);
        image
    }
}

} // verus!
