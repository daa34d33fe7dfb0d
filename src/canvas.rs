//! A fixed-size two-dimensional grid of colours, stored row by row.

use vstd::prelude::*;

use crate::color::Color;

verus! {

/// The failure of a write at a position outside the canvas.
#[derive(Debug, Clone, Copy, PartialEq, Eq)]
pub struct OutOfBounds {
    /// The row that was asked for.
    pub row: usize,
    /// The column that was asked for.
    pub column: usize,
}

/// A grid of `height` rows and `width` columns of colours.
///
/// The pixels are held in one buffer in row-major order: the pixel at
/// `(row, column)` sits at `row * width + column`.
pub struct Canvas<T> {
    /// Number of rows.
    pub height: usize,
    /// Number of columns.
    pub width: usize,
    /// The pixels, row after row.
    pub pixels: Vec<Color<T>>,
}

/// The colour with every channel at the default value of its type (zero for numbers).
pub open spec fn is_black<T: Default>(c: Color<T>) -> bool {
    &&& call_ensures(T::default, (), c.r)
    &&& call_ensures(T::default, (), c.g)
    &&& call_ensures(T::default, (), c.b)
}

impl<T> Canvas<T> {
    /// The buffer holds exactly one pixel per position, and its size is addressable.
    pub open spec fn well_formed(&self) -> bool {
        &&& self.pixels@.len() == self.height * self.width
        &&& self.height * self.width <= usize::MAX
    }

    /// `(row, column)` names a position of the canvas.
    pub open spec fn in_bounds(&self, row: int, column: int) -> bool {
        0 <= row < self.height && 0 <= column < self.width
    }

    /// Where `(row, column)` sits in the buffer.
    pub open spec fn index_of(&self, row: int, column: int) -> int {
        row * self.width + column
    }

    /// The colour at `(row, column)`.
    pub open spec fn pixel(&self, row: int, column: int) -> Color<T> {
        self.pixels@[self.index_of(row, column)]
    }

    /// Where `(row, column)` sits in the buffer, if it is on the canvas.
    fn get_index(&self, row: usize, column: usize) -> (r: Option<usize>)
        requires
            self.well_formed(),
        ensures
            r is Some <==> self.in_bounds(row as int, column as int),
            r is Some ==> r->0 == self.index_of(row as int, column as int),
            r is Some ==> r->0 < self.pixels@.len(),
    {
        if row < self.height && column < self.width {
            proof {
                lemma_index_in_buffer(self.height as int, self.width as int, row as int, column as int);
            }
            Some(row * self.width + column)
        } else {
            None
        }
    }

    /// The colour at `(row, column)`, or `None` when the position is off the canvas.
    pub fn get(&self, row: usize, column: usize) -> (r: Option<&Color<T>>)
        requires
            self.well_formed(),
        ensures
            r is Some <==> self.in_bounds(row as int, column as int),
            r is Some ==> *r->0 == self.pixel(row as int, column as int),
    {
        match self.get_index(row, column) {
            Some(i) => Some(&self.pixels[i]),
            None => None,
        }
    }

    /// A mutable reference to the colour at `(row, column)`, or `None` when the
    /// position is off the canvas. Whatever is written through the reference
    /// becomes that pixel; every other pixel stays as it was.
    pub fn get_mut(&mut self, row: usize, column: usize) -> (r: Option<&mut Color<T>>)
        requires
            old(self).well_formed(),
        ensures
            final(self).height == old(self).height,
            final(self).width == old(self).width,
            r is Some <==> old(self).in_bounds(row as int, column as int),
            match r {
                Some(p) => {
                    &&& *p == old(self).pixel(row as int, column as int)
                    &&& final(self).pixels@ == old(self).pixels@.update(
                        old(self).index_of(row as int, column as int),
                        *final(p),
                    )
                },
                None => final(self).pixels@ == old(self).pixels@,
            },
    {
        match self.get_index(row, column) {
            Some(i) => Some(&mut self.pixels[i]),
            None => None,
        }
    }

    /// Writes `color` at `(row, column)`; a position off the canvas is refused and
    /// leaves the canvas as it was.
    pub fn set(&mut self, row: usize, column: usize, color: Color<T>) -> (r: Result<(), OutOfBounds>)
        requires
            old(self).well_formed(),
        ensures
            final(self).well_formed(),
            final(self).height == old(self).height,
            final(self).width == old(self).width,
            r is Ok <==> old(self).in_bounds(row as int, column as int),
            r is Ok ==> final(self).pixels@ == old(self).pixels@.update(
                old(self).index_of(row as int, column as int),
                color,
            ),
            r is Err ==> final(self).pixels@ == old(self).pixels@,
            r is Err ==> r == Err::<(), OutOfBounds>(OutOfBounds { row, column }),
    {
        match self.get_index(row, column) {
            Some(i) => {
                self.pixels.set(i, color);
                Ok(())
            },
            None => Err(OutOfBounds { row, column }),
        }
    }
}

impl<T: Copy> Canvas<T> {
    /// Paints every pixel with `color`.
    pub fn fill(&mut self, color: Color<T>)
        requires
            old(self).well_formed(),
        ensures
            final(self).well_formed(),
            final(self).height == old(self).height,
            final(self).width == old(self).width,
            final(self).pixels@ == Seq::new(old(self).pixels@.len(), |i: int| color),
    {
        let n = self.pixels.len();
        let mut i: usize = 0;
        while i < n
            invariant
                self.height == old(self).height,
                self.width == old(self).width,
                self.pixels@.len() == n,
                n == old(self).pixels@.len(),
                i <= n,
                forall|j: int| 0 <= j < i ==> self.pixels@[j] == color,
            decreases n - i,
        {
            self.pixels.set(i, color);
            i = i + 1;
        }
        assert(self.pixels@ == Seq::new(n as nat, |i: int| color));
    }
}

impl<T: Copy + Default> Canvas<T> {
    /// A canvas of `height` rows and `width` columns, every pixel black.
    pub fn new(height: usize, width: usize) -> (c: Self)
        requires
            height * width <= usize::MAX,
        ensures
            c.height == height,
            c.width == width,
            c.well_formed(),
            forall|i: int| 0 <= i < c.pixels@.len() ==> is_black(#[trigger] c.pixels@[i]),
    {
        let size: usize = width * height;
        let zero = T::default();
        let black = Color { r: zero, g: zero, b: zero };
        let mut pixels: Vec<Color<T>> = Vec::new();
        let mut i: usize = 0;
        while i < size
            invariant
                i <= size,
                pixels@.len() == i,
                is_black(black),
                forall|j: int| 0 <= j < i ==> #[trigger] pixels@[j] == black,
            decreases size - i,
        {
            pixels.push(black);
            i = i + 1;
        }
        assert(size == height * width) by (nonlinear_arith)
            requires size == width * height;
        Canvas { height, width, pixels }
    }
}

/// Writing a colour at a position of the canvas and reading that position back gives
/// the colour written, and every other position keeps its colour.
///
/// `after` is the canvas as [`Canvas::set`] leaves it when the write succeeds.
pub proof fn lemma_set_then_get<T>(
    before: Canvas<T>,
    after: Canvas<T>,
    row: int,
    column: int,
    color: Color<T>,
)
    requires
        before.well_formed(),
        before.in_bounds(row, column),
        after.height == before.height,
        after.width == before.width,
        after.pixels@ == before.pixels@.update(before.index_of(row, column), color),
    ensures
        after.well_formed(),
        after.in_bounds(row, column),
        after.pixel(row, column) == color,
        forall|r: int, c: int|
            #![trigger after.pixel(r, c)]
            before.in_bounds(r, c) && (r != row || c != column) ==> after.pixel(r, c)
                == before.pixel(r, c),
{
    lemma_index_in_buffer(before.height as int, before.width as int, row, column);
    assert forall|r: int, c: int|
        #![trigger after.pixel(r, c)]
        before.in_bounds(r, c) && (r != row || c != column) implies after.pixel(r, c)
        == before.pixel(r, c) by {
        lemma_index_in_buffer(before.height as int, before.width as int, r, c);
        lemma_index_distinct(before.width as int, r, c, row, column);
    }
}

proof fn lemma_index_distinct(width: int, r1: int, c1: int, r2: int, c2: int)
    requires
        0 <= c1 < width,
        0 <= c2 < width,
        r1 != r2 || c1 != c2,
    ensures
        r1 * width + c1 != r2 * width + c2,
{
    if r1 == r2 {
    } else if r1 < r2 {
        assert(r1 * width + width <= r2 * width) by (nonlinear_arith)
            requires
                r1 < r2,
                width >= 0,
        ;
    } else {
        assert(r2 * width + width <= r1 * width) by (nonlinear_arith)
            requires
                r2 < r1,
                width >= 0,
        ;
    }
}

proof fn lemma_index_in_buffer(height: int, width: int, row: int, column: int)
    requires
        0 <= row < height,
        0 <= column < width,
    ensures
        0 <= row * width + column < height * width,
{
    assert(row * width + column < height * width) by (nonlinear_arith)
        requires
            0 <= row < height,
            0 <= column < width,
    ;
    assert(0 <= row * width) by (nonlinear_arith)
        requires
            0 <= row,
            0 <= width,
    ;
}

} // verus!
