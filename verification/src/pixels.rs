//! Colour planes, stored in a three-dimensional `ndarray` array, and the
//! row-major bytes that a picture is written from.
use vstd::prelude::*;

verus! {

/// Eight-bit colour channels addressed `(a, b, c)`: two axes of position and
/// the channel, which is 0 for red, 1 for green and 2 for blue.
///
/// The channels live in an `ndarray::Array3<u8>`. Nothing of that array is
/// visible to the verifier: what it holds is spoken of through
/// [`pixels_shape`], [`pixels_cells`] and [`pixels_standard`]. The field is
/// private and every function that makes or changes the array keeps it
/// non-empty, three channels deep, in standard layout and small enough to
/// allocate.
#[verifier::external_body]
pub struct Pixels {
    channels: ndarray::Array3<u8>,
}

/// The lengths of the three axes of the array inside `pixels`.
pub uninterp spec fn pixels_shape(pixels: Pixels) -> (nat, nat, nat);

/// The channel values that the array inside `pixels` holds, keyed by
/// `(a, b, c)`.
pub uninterp spec fn pixels_cells(pixels: Pixels) -> Map<(int, int, int), u8>;

/// Whether the array inside `pixels` is contiguous in memory with its last
/// axis varying fastest.
pub uninterp spec fn pixels_standard(pixels: Pixels) -> bool;

/// Where channel `(a, b, c)` stands among the elements of a `shape` array
/// when they are listed with the last axis varying fastest.
pub open spec fn flat_index(shape: (nat, nat, nat), a: int, b: int, c: int) -> int {
    (a * shape.1 + b) * shape.2 + c
}

/// The bytes of a picture, as raster formats want them: rows from the top,
/// each row from the left, three bytes to a pixel.
#[derive(Debug, PartialEq, Eq)]
pub struct Raster {
    /// Pixels in a row.
    pub width: u32,
    /// Number of rows.
    pub height: u32,
    /// Red, green and blue of every pixel, row after row.
    pub bytes: Vec<u8>,
}

impl Raster {
    /// Whether the bytes are exactly those of `width * height` pixels.
    pub open spec fn complete(&self) -> bool {
        self.bytes@.len() == 3 * self.width * self.height
    }

    /// Whether column `col` of row `row` is a pixel of the picture.
    pub open spec fn has(&self, col: int, row: int) -> bool {
        0 <= col < self.width && 0 <= row < self.height
    }

    /// The value of channel `c` of the pixel in column `col` of row `row`.
    pub open spec fn channel(&self, col: int, row: int, c: int) -> u8 {
        self.bytes@[(row * self.width + col) * 3 + c]
    }
}

impl Pixels {
    /// What holds of every value of the type.
    #[verifier::type_invariant]
    pub open spec fn well_formed(self) -> bool {
        &&& 1 <= pixels_shape(self).0
        &&& 1 <= pixels_shape(self).1
        &&& 3 == pixels_shape(self).2
        &&& 3 * pixels_shape(self).0 * pixels_shape(self).1 <= isize::MAX
        &&& pixels_standard(self)
    }

    /// The lengths of the two position axes.
    pub open spec fn dims(&self) -> (nat, nat) {
        (pixels_shape(*self).0, pixels_shape(*self).1)
    }

    /// Whether `(a, b)` addresses a position of the planes.
    pub open spec fn has(&self, a: int, b: int) -> bool {
        0 <= a < self.dims().0 && 0 <= b < self.dims().1
    }

    /// The value of channel `c` at position `(a, b)`.
    pub open spec fn channel(&self, a: int, b: int, c: int) -> u8 {
        pixels_cells(*self)[(a, b, c)]
    }

    /// Trusted: `ndarray::Array3::<u8>::zeros` on the shape `(a, b, 3)`.
    ///
    /// Claims that the array has exactly that shape, that every channel is
    /// zero and that it is in standard layout. The call panics when the
    /// element count does not fit `isize`, which is left out.
    #[verifier::external_body]
    pub(crate) fn zeros(a: usize, b: usize) -> (pixels: Pixels)
        requires
            1 <= a,
            1 <= b,
            3 * a * b <= isize::MAX,
        ensures
            pixels_shape(pixels) == (a as nat, b as nat, 3nat),
            pixels_standard(pixels),
            forall|i: int, j: int, c: int|
                0 <= i < a && 0 <= j < b && 0 <= c < 3 ==> #[trigger] pixels_cells(pixels)[(
                    i,
                    j,
                    c,
                )] == 0,
    {
        Pixels { channels: ndarray::Array3::zeros((a, b, 3)) }
    }

    /// Trusted: `ArrayBase::dim` of the array.
    ///
    /// Claims that it returns the three axis lengths.
    #[verifier::external_body]
    pub(crate) fn shape(&self) -> (dim: (usize, usize, usize))
        ensures
            pixels_shape(*self) == (dim.0 as nat, dim.1 as nat, dim.2 as nat),
    {
        self.channels.dim()
    }

    /// Trusted: `Index::index` of the array at `(a, b, c)`.
    ///
    /// Claims that it returns the channel value stored there. The call
    /// panics on an index outside the shape, which is left out.
    #[verifier::external_body]
    pub(crate) fn fetch(&self, a: usize, b: usize, c: usize) -> (value: u8)
        requires
            a < pixels_shape(*self).0,
            b < pixels_shape(*self).1,
            c < pixels_shape(*self).2,
        ensures
            value == pixels_cells(*self)[(a as int, b as int, c as int)],
    {
        self.channels[(a, b, c)]
    }

    /// Trusted: `IndexMut::index_mut` of the array at `(a, b, c)`, assigned
    /// `value`.
    ///
    /// Claims that shape and layout stay, that the channel at `(a, b, c)`
    /// now holds `value` and that no other channel changes. The call panics
    /// on an index outside the shape, which is left out.
    #[verifier::external_body]
    pub(crate) fn store(&mut self, a: usize, b: usize, c: usize, value: u8)
        requires
            a < pixels_shape(*old(self)).0,
            b < pixels_shape(*old(self)).1,
            c < pixels_shape(*old(self)).2,
        ensures
            pixels_shape(*final(self)) == pixels_shape(*old(self)),
            pixels_standard(*final(self)) == pixels_standard(*old(self)),
            pixels_cells(*final(self)) == pixels_cells(*old(self)).insert(
                (a as int, b as int, c as int),
                value,
            ),
    {
        self.channels[(a, b, c)] = value;
    }

    /// Trusted: `ArrayBase::as_slice` of the array, copied into a vector.
    ///
    /// Claims that a slice is handed out exactly when the array is in
    /// standard layout, and that it then lists every channel once, with
    /// the last axis varying fastest.
    #[verifier::external_body]
    pub(crate) fn to_vec(&self) -> (bytes: Option<Vec<u8>>)
        ensures
            bytes is Some == pixels_standard(*self),
            bytes matches Some(v) ==> {
                &&& v@.len() == pixels_shape(*self).0 * pixels_shape(*self).1 * pixels_shape(
                    *self,
                ).2
                &&& forall|a: int, b: int, c: int|
                    0 <= a < pixels_shape(*self).0 && 0 <= b < pixels_shape(*self).1 && 0 <= c
                        < pixels_shape(*self).2 ==> v@[flat_index(pixels_shape(*self), a, b, c)]
                        == #[trigger] pixels_cells(*self)[(a, b, c)]
            },
    {
        self.channels.as_slice().map(<[u8]>::to_vec)
    }

    /// The lengths of the three axes: two of position, and the three
    /// channels.
    pub fn dim(&self) -> (dim: (usize, usize, usize))
        ensures
            dim.0 == self.dims().0 >= 1,
            dim.1 == self.dims().1 >= 1,
            dim.2 == 3,
            3 * dim.0 * dim.1 <= isize::MAX,
    {
        proof {
            use_type_invariant(self);
        }
        self.shape()
    }

    /// The value of channel `c` at `(a, b)`, or `None` where the planes have
    /// no such channel.
    pub fn get(&self, a: usize, b: usize, c: usize) -> (value: Option<u8>)
        ensures
            value == if self.has(a as int, b as int) && c < 3 {
                Some(self.channel(a as int, b as int, c as int))
            } else {
                None
            },
    {
        proof {
            use_type_invariant(self);
        }
        let (len_a, len_b, depth) = self.shape();
        if a < len_a && b < len_b && c < depth {
            Some(self.fetch(a, b, c))
        } else {
            None
        }
    }
}

} // verus!
