//! Packed colours and the row-major pixel grid with its rectangular views.

use vstd::prelude::*;
use vstd::std_specs::convert::FromSpecImpl;

use crate::{Coordinate, Size};

verus! {

/// A colour of four 8-bit channels. As a 32-bit word the alpha channel is the
/// highest byte, followed by red, green and blue.
#[derive(Clone, Copy, Debug, PartialEq, Eq, Structural)]
pub struct ARGB {
    pub b: u8,
    pub g: u8,
    pub r: u8,
    pub a: u8,
}

impl ARGB {
    /// The 32-bit word of this colour: `a`, `r`, `g`, `b` from the highest byte down.
    pub open spec fn packed(self) -> int {
        self.a * 0x100_0000 + self.r * 0x1_0000 + self.g * 0x100 + self.b
    }

    /// The colour whose 32-bit word is `word`.
    pub open spec fn unpacked(word: u32) -> ARGB {
        ARGB {
            a: (word / 0x100_0000) as u8,
            r: (word / 0x1_0000 % 0x100) as u8,
            g: (word / 0x100 % 0x100) as u8,
            b: (word % 0x100) as u8,
        }
    }

    /// The 24-bit word that a line pen takes: blue, green, red from the highest
    /// byte down, the alpha channel left out.
    pub open spec fn colorref(self) -> int {
        self.b * 0x1_0000 + self.g * 0x100 + self.r
    }

    /// One channel scaled by `alpha / 255`, the fraction cut off.
    pub open spec fn scaled(channel: u8, alpha: u8) -> int {
        channel * alpha / 255
    }

    /// This colour with its three colour channels scaled by the alpha channel.
    pub open spec fn premultiplied(self) -> ARGB {
        ARGB {
            a: self.a,
            r: Self::scaled(self.r, self.a) as u8,
            g: Self::scaled(self.g, self.a) as u8,
            b: Self::scaled(self.b, self.a) as u8,
        }
    }

    /// Returns the colour as the 24-bit word of a line pen.
    pub fn as_colorref(self) -> (word: u32)
        ensures
            word == self.colorref(),
    {
        let b: u32 = self.b as u32;
        let g: u32 = self.g as u32;
        let r: u32 = self.r as u32;
        assert((b << 16 | g << 8 | r) == b * 0x1_0000 + g * 0x100 + r) by (bit_vector)
            requires
                b < 0x100,
                g < 0x100,
                r < 0x100,
        ;
        b << 16 | g << 8 | r
    }

    /// Returns the colour with each colour channel multiplied by `a / 255` and
    /// cut off to a whole number; the alpha channel stays.
    pub fn as_premult_alpha(self) -> (scaled: Self)
        ensures
            scaled == self.premultiplied(),
            scaled.a == self.a,
            scaled.r == self.r * self.a / 255,
            scaled.g == self.g * self.a / 255,
            scaled.b == self.b * self.a / 255,
            scaled.r <= self.r && scaled.g <= self.g && scaled.b <= self.b,
    {
        Self {
            a: self.a,
            r: scale_channel(self.r, self.a),
            g: scale_channel(self.g, self.a),
            b: scale_channel(self.b, self.a),
        }
    }
}

/// Scales one channel by `alpha / 255`, cutting the fraction off.
fn scale_channel(channel: u8, alpha: u8) -> (scaled: u8)
    ensures
        scaled == ARGB::scaled(channel, alpha),
        scaled == channel * alpha / 255,
        scaled <= channel,
{
    assert(0 <= channel * alpha <= channel * 255) by (nonlinear_arith)
        requires
            0 <= alpha <= 255,
            0 <= channel,
    ;
    let product: u32 = channel as u32 * alpha as u32;
    (product / 255) as u8
}

impl From<u32> for ARGB {
    /// Splits a 32-bit word into its four channels.
    fn from(value: u32) -> (color: Self) {
        let a: u8 = (value >> 24) as u8;
        let r: u8 = ((value >> 16) & 0xff) as u8;
        let g: u8 = ((value >> 8) & 0xff) as u8;
        let b: u8 = (value & 0xff) as u8;
        assert(value >> 24 == value / 0x100_0000) by (bit_vector);
        assert((value >> 16) & 0xff == value / 0x1_0000 % 0x100) by (bit_vector);
        assert((value >> 8) & 0xff == value / 0x100 % 0x100) by (bit_vector);
        assert(value & 0xff == value % 0x100) by (bit_vector);
        ARGB { a, r, g, b }
    }
}

impl FromSpecImpl<u32> for ARGB {
    open spec fn obeys_from_spec() -> bool {
        true
    }

    open spec fn from_spec(value: u32) -> Self {
        ARGB::unpacked(value)
    }
}

impl From<ARGB> for u32 {
    /// Joins the four channels into a 32-bit word.
    fn from(value: ARGB) -> (word: u32) {
        let a: u32 = value.a as u32;
        let r: u32 = value.r as u32;
        let g: u32 = value.g as u32;
        let b: u32 = value.b as u32;
        assert((a << 24 | r << 16 | g << 8 | b) == a * 0x100_0000 + r * 0x1_0000 + g * 0x100 + b)
            by (bit_vector)
            requires
                a < 0x100,
                r < 0x100,
                g < 0x100,
                b < 0x100,
        ;
        a << 24 | r << 16 | g << 8 | b
    }
}

impl FromSpecImpl<ARGB> for u32 {
    open spec fn obeys_from_spec() -> bool {
        true
    }

    open spec fn from_spec(value: ARGB) -> Self {
        value.packed() as u32
    }
}

/// Splitting the word of a colour gives the colour back.
pub proof fn lemma_unpack_pack(color: ARGB)
    ensures
        0 <= color.packed() <= u32::MAX,
        ARGB::unpacked(color.packed() as u32) == color,
{
    let low: int = color.r * 0x1_0000 + color.g * 0x100 + color.b;
    let word: int = color.a * 0x100_0000 + low;
    assert(word == color.packed());
    assert(0 <= low < 0x100_0000);
    assert(word / 0x100_0000 == color.a);
    assert(word / 0x1_0000 == color.a * 0x100 + color.r);
    assert(word / 0x100 == color.a * 0x1_0000 + color.r * 0x100 + color.g);
    assert(word % 0x100 == color.b);
}

/// Joining the channels of a word gives the word back.
pub proof fn lemma_pack_unpack(word: u32)
    ensures
        ARGB::unpacked(word).packed() == word,
{
    let a: u32 = word / 0x100_0000;
    let r: u32 = word / 0x1_0000 % 0x100;
    let g: u32 = word / 0x100 % 0x100;
    let b: u32 = word % 0x100;
    assert(word / 0x1_0000 == a * 0x100 + r);
    assert(word / 0x100 == (word / 0x1_0000) * 0x100 + g);
    assert(word == (word / 0x100) * 0x100 + b);
}

/// The rows of a rectangle inside a grid, from the top one down. Each row is
/// handed out once, by `next`.
pub struct BitmapSubrectRows<'a, T> {
    inner: &'a [T],
    width: usize,
    start_coord: Coordinate<usize>,
    size: Size<usize>,
    current_row: usize,
}

/// The cells of `cells`, a grid `width` wide, that lie in row `row` from column
/// `left` on, `columns` of them.
pub open spec fn row_slice<T>(cells: Seq<T>, width: int, left: int, row: int, columns: int) -> Seq<
    T,
> {
    cells.subrange(row * width + left, row * width + left + columns)
}

/// The rows of the rectangle of `size` (rows first, then columns) whose top left
/// cell is `start` (column first, then row), in a grid `width` wide.
pub open spec fn rect_rows<T>(
    cells: Seq<T>,
    width: int,
    start: Coordinate<usize>,
    size: Size<usize>,
) -> Seq<Seq<T>> {
    Seq::new(
        size.0 as nat,
        |k: int| row_slice(cells, width, start.0 as int, start.1 + k, size.1 as int),
    )
}

/// Whether the rectangle of `size` at `start` lies inside a grid of `len` cells
/// that is `width` wide.
pub open spec fn rect_fits(
    len: int,
    width: int,
    start: Coordinate<usize>,
    size: Size<usize>,
) -> bool {
    &&& width > 0
    &&& start.0 + size.1 <= width
    &&& (start.1 + size.0) * width <= len
}

impl<'a, T> BitmapSubrectRows<'a, T> {
    #[verifier::type_invariant]
    spec fn inv(self) -> bool {
        &&& rect_fits(self.inner@.len() as int, self.width as int, self.start_coord, self.size)
        &&& self.current_row <= self.size.0
    }

    /// The rows that `next` has not handed out yet, the next one first.
    pub closed spec fn remaining(&self) -> Seq<Seq<T>> {
        rect_rows(self.inner@, self.width as int, self.start_coord, self.size).skip(
            self.current_row as int,
        )
    }

    fn new(bitmap: &'a Bitmap<T>, start_coord: Coordinate<usize>, size: Size<usize>) -> (rows: Self)
        requires
            rect_fits(bitmap@.len() as int, bitmap.width as int, start_coord, size),
        ensures
            rows.remaining() == rect_rows(bitmap@, bitmap.width as int, start_coord, size),
    {
        let rows =
            Self { inner: bitmap.inner, width: bitmap.width, start_coord, size, current_row: 0 };
        assert(rows.remaining() =~= rect_rows(bitmap@, bitmap.width as int, start_coord, size));
        rows
    }

    /// Hands out the next row of the rectangle, or `None` once all rows are out.
    pub fn next(&mut self) -> (row: Option<&'a [T]>)
        ensures
            old(self).remaining().len() == 0 ==> row.is_none() && final(self).remaining()
                == old(self).remaining(),
            old(self).remaining().len() > 0 ==> row.is_some() && row.unwrap()@ == old(
                self,
            ).remaining()[0] && final(self).remaining() == old(self).remaining().skip(1),
    {
        proof {
            use_type_invariant(&*self);
        }
        if self.current_row >= self.size.0 {
            return None;
        }
        let ghost before = *self;
        proof {
            vstd::slice::axiom_spec_len(self.inner);
            lemma_row_bounds(
                self.inner@.len() as int,
                self.width as int,
                self.start_coord.1 + self.size.0,
                self.current_row + self.start_coord.1,
            );
        }
        let row = self.current_row + self.start_coord.1;
        assert(self.width * row == row * self.width) by (nonlinear_arith);
        let index_of_row = self.width * row;
        let start_index = index_of_row + self.start_coord.0;
        self.current_row += 1;
        let slice = &self.inner[start_index..start_index + self.size.1];
        proof {
            assert(slice@ == before.remaining()[0]);
            assert(self.remaining() =~= before.remaining().skip(1));
        }
        Some(slice)
    }
}

/// Row `row` of a grid lies inside it, when `rows` rows do and `row < rows`.
proof fn lemma_row_bounds(len: int, width: int, rows: int, row: int)
    requires
        width > 0,
        0 <= row < rows,
        rows * width <= len,
    ensures
        rows <= len,
        0 <= row * width,
        row * width + width <= len,
{
    assert(rows <= rows * width) by (nonlinear_arith)
        requires
            0 <= rows,
            1 <= width,
    ;
    assert(0 <= row * width) by (nonlinear_arith)
        requires
            0 <= row,
            0 < width,
    ;
    assert((row + 1) * width <= rows * width) by (nonlinear_arith)
        requires
            row + 1 <= rows,
            0 < width,
    ;
    assert((row + 1) * width == row * width + width) by (nonlinear_arith);
}

/// A grid of cells in row-major order over a borrowed buffer: the cell in
/// column `x` of row `y` is `inner[y * width + x]`.
pub struct Bitmap<'a, T> {
    pub inner: &'a mut [T],
    pub width: usize,
}

impl<'a, T> View for Bitmap<'a, T> {
    type V = Seq<T>;

    /// The cells in row-major order.
    open spec fn view(&self) -> Seq<T> {
        (*self.inner)@
    }
}

impl<'a, T> Bitmap<'a, T> {
    /// A grid has a positive width, and its buffer holds whole rows only.
    pub open spec fn wf(&self) -> bool {
        &&& self.width > 0
        &&& self@.len() % (self.width as nat) == 0
    }

    /// The number of rows.
    pub open spec fn spec_height(&self) -> nat {
        self@.len() / (self.width as nat)
    }

    /// Whether the rectangle of `size` (rows first, then columns) at `start`
    /// (column first, then row) lies inside the grid.
    pub open spec fn contains_rect(&self, start: Coordinate<usize>, size: Size<usize>) -> bool {
        &&& start.0 + size.1 <= self.width
        &&& start.1 + size.0 <= self.spec_height()
    }

    /// Wraps `buffer` as a grid that is `width` cells wide.
    pub fn new(buffer: &'a mut [T], width: usize) -> (bitmap: Self)
        requires
            width > 0,
            old(buffer)@.len() % (width as nat) == 0,
        ensures
            final(bitmap.inner)@ == final(buffer)@,
            bitmap.width == width,
            bitmap@ == old(buffer)@,
            bitmap.wf(),
    {
        Self { inner: buffer, width }
    }

    /// Returns the number of rows.
    pub fn height(&self) -> (rows: usize)
        requires
            self.wf(),
        ensures
            rows == self.spec_height(),
            rows * self.width == self@.len(),
    {
        let rows = self.inner.len() / self.width;
        assert(rows * self.width == self@.len()) by (nonlinear_arith)
            requires
                self.width > 0,
                rows == self@.len() / (self.width as nat),
                self@.len() % (self.width as nat) == 0,
        ;
        rows
    }

    /// Rewrites every cell: cell `i` of the buffer becomes `f(i)`, the cells
    /// taken in row-major order.
    pub fn fill_with<F: FnMut(usize) -> T>(&mut self, mut f: F)
        requires
            forall|i: usize| i < old(self)@.len() ==> call_requires(f, (i,)),
        ensures
            final(self).width == old(self).width,
            final(self)@.len() == old(self)@.len(),
            forall|i: int|
                0 <= i < old(self)@.len() ==> call_ensures(
                    f,
                    (i as usize,),
                    #[trigger] final(self)@[i],
                ),
    {
        let ghost fill = f;
        let len = self.inner.len();
        let mut i: usize = 0;
        while i < len
            invariant
                i <= len,
                len == self@.len(),
                self@.len() == old(self)@.len(),
                self.width == old(self).width,
                f == fill,
                forall|k: usize| k < len ==> call_requires(f, (k,)),
                forall|k: int| 0 <= k < i ==> call_ensures(f, (k as usize,), #[trigger] self@[k]),
            decreases len - i,
        {
            let value = f(i);
            self.inner[i] = value;
            i += 1;
        }
    }

    /// The rows of the rectangle of `size` (rows first, then columns) whose top
    /// left cell is `start_coord` (column first, then row).
    pub fn subrect(&'a self, start_coord: Coordinate<usize>, size: Size<usize>) -> (rows:
        BitmapSubrectRows<'a, T>)
        requires
            self.wf(),
            self.contains_rect(start_coord, size),
        ensures
            rows.remaining() == rect_rows(self@, self.width as int, start_coord, size),
    {
        proof {
            self.lemma_rect_fits(start_coord, size);
        }
        BitmapSubrectRows::new(self, start_coord, size)
    }

    /// The rows of the rectangle as `subrect` gives them, or `OutOfBounds` when
    /// the rectangle does not lie inside the grid.
    pub fn checked_subrect(&'a self, start_coord: Coordinate<usize>, size: Size<usize>) -> (rows:
        Result<BitmapSubrectRows<'a, T>, OutOfBounds>)
        requires
            self.wf(),
        ensures
            rows.is_ok() <==> self.contains_rect(start_coord, size),
            rows matches Ok(r) ==> r.remaining() == rect_rows(
                self@,
                self.width as int,
                start_coord,
                size,
            ),
    {
        let height = self.height();
        if start_coord.0 > self.width || size.1 > self.width - start_coord.0 {
            return Err(OutOfBounds);
        }
        if start_coord.1 > height || size.0 > height - start_coord.1 {
            return Err(OutOfBounds);
        }
        Ok(self.subrect(start_coord, size))
    }

    /// A buffer holds no more cells than an index can count.
    pub proof fn lemma_len_bound(&self)
        ensures
            self@.len() <= usize::MAX,
    {
        vstd::slice::axiom_spec_len(&*self.inner);
    }

    /// A rectangle inside the grid stays inside the buffer.
    pub proof fn lemma_rect_fits(&self, start: Coordinate<usize>, size: Size<usize>)
        requires
            self.wf(),
            self.contains_rect(start, size),
        ensures
            rect_fits(self@.len() as int, self.width as int, start, size),
    {
        let width = self.width as int;
        let height = self.spec_height() as int;
        let rows = start.1 + size.0;
        assert(height * width == self@.len()) by (nonlinear_arith)
            requires
                width > 0,
                height == self@.len() / (width as nat),
                self@.len() % (width as nat) == 0,
        ;
        assert(rows * width <= height * width) by (nonlinear_arith)
            requires
                rows <= height,
                width > 0,
        ;
    }
}

/// The rectangle asked for does not lie inside the grid.
#[derive(Clone, Copy, Debug, PartialEq, Eq, Structural)]
pub struct OutOfBounds;

impl<'a, T: Clone> Bitmap<'a, T> {
    /// Rewrites every cell with a clone of `value`.
    pub fn fill(&mut self, value: T)
        ensures
            final(self).width == old(self).width,
            final(self)@.len() == old(self)@.len(),
            forall|i: int| 0 <= i < old(self)@.len() ==> cloned(value, #[trigger] final(self)@[i]),
    {
        let len = self.inner.len();
        let mut i: usize = 0;
        while i < len
            invariant
                i <= len,
                len == self@.len(),
                self@.len() == old(self)@.len(),
                self.width == old(self).width,
                forall|k: int| 0 <= k < i ==> cloned(value, #[trigger] self@[k]),
            decreases len - i,
        {
            self.inner[i] = value.clone();
            i += 1;
        }
    }

    /// A grid of `dimensions` (width first, then height) over a buffer of its
    /// own that lives as long as the program, every cell a clone of `fill`.
    pub fn new_static(dimensions: Size<u32>, fill: T) -> (bitmap: Bitmap<'static, T>)
        requires
            dimensions.0 > 0,
            dimensions.0 * dimensions.1 <= u32::MAX,
        ensures
            bitmap.wf(),
            bitmap.width == dimensions.0,
            bitmap.spec_height() == dimensions.1,
            bitmap@.len() == dimensions.0 * dimensions.1,
            forall|i: int| 0 <= i < bitmap@.len() ==> cloned(fill, #[trigger] bitmap@[i]),
    {
        let length = (dimensions.0 * dimensions.1) as usize;
        let inner = vec![fill; length];
        let slice = leak(inner);
        proof {
            let w = dimensions.0 as int;
            let h = dimensions.1 as int;
            assert((w * h) % w == 0 && (w * h) / w == h) by (nonlinear_arith)
                requires
                    w > 0,
                    h >= 0,
            ;
        }
        Bitmap { inner: slice, width: dimensions.0 as usize }
    }
}

/// `Vec::leak` of std: gives the vector's buffer away for the rest of the
/// program. The contract claims that the slice handed back holds the
/// vector's elements, in their order.
#[verifier::external_body]
fn leak<T>(buffer: Vec<T>) -> (slice: &'static mut [T])
    ensures
        slice@ == buffer@,
{
    buffer.leak()
}

} // verus!
