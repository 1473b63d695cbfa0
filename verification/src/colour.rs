//! From iteration counts to colours, and from colours to the bytes of a
//! picture.
//!
//! The blend between anchor colours is not computed here. The caller hands in
//! `shade`, a function value that is asked for the colour of a count; this
//! module reads the anchors, visits the cells and lays the colours out.
use vstd::prelude::*;
use vstd::utf8::{is_ascii_chars, is_ascii_chars_encode_utf8, is_ascii_chars_nat_bound};
use crate::grid::{grid_shape, Grid};
use crate::pixels::{flat_index, pixels_shape, Pixels, Raster};
use crate::sample::{lemma_scan_inside, lemma_scan_reaches, scan};

verus! {

/// A colour of three eight-bit channels.
#[derive(Clone, Copy, Debug, PartialEq, Eq, Structural)]
pub struct Rgb {
    pub red: u8,
    pub green: u8,
    pub blue: u8,
}

/// The value of a hexadecimal digit, in either case, or `None` for any other
/// character.
pub open spec fn hex_value(c: char) -> Option<int> {
    if '0' <= c <= '9' {
        Some(c as int - '0' as int)
    } else if 'a' <= c <= 'f' {
        Some(c as int - 'a' as int + 10)
    } else if 'A' <= c <= 'F' {
        Some(c as int - 'A' as int + 10)
    } else {
        None
    }
}

/// The channel that the two digits at `at` and `at + 1` spell.
pub open spec fn hex_pair(text: Seq<char>, at: int) -> int {
    16 * hex_value(text[at]).unwrap() + hex_value(text[at + 1]).unwrap()
}

/// Whether `text` is a colour in hexadecimal: any number of `#`, then exactly
/// six hexadecimal digits.
pub open spec fn is_hex_colour(text: Seq<char>) -> bool {
    &&& text.len() >= 6
    &&& forall|k: int| 0 <= k < text.len() - 6 ==> text[k] == '#'
    &&& forall|k: int| text.len() - 6 <= k < text.len() ==> hex_value(#[trigger] text[k]) is Some
}

/// The colour that `text` spells, red first, or `None` where `text` is
/// malformed.
pub open spec fn hex_colour(text: Seq<char>) -> Option<Rgb> {
    if is_hex_colour(text) {
        Some(
            Rgb {
                red: hex_pair(text, text.len() - 6) as u8,
                green: hex_pair(text, text.len() - 4) as u8,
                blue: hex_pair(text, text.len() - 2) as u8,
            },
        )
    } else {
        None
    }
}

/// The value of the digit whose code is `code`.
fn hex_digit(code: u8, Ghost(c): Ghost<char>) -> (value: Option<u8>)
    requires
        c as int == code,
    ensures
        value matches Some(v) ==> hex_value(c) == Some(v as int) && v < 16,
        value is None ==> hex_value(c) is None,
{
    if 0x30 <= code && code <= 0x39 {
        Some(code - 0x30)
    } else if 0x61 <= code && code <= 0x66 {
        Some(code - 0x61 + 10)
    } else if 0x41 <= code && code <= 0x46 {
        Some(code - 0x41 + 10)
    } else {
        None
    }
}

/// Reads a colour written in hexadecimal.
///
/// Leading `#` are skipped, however many there are. What follows must be
/// exactly six hexadecimal digits, two for each of red, green and blue;
/// anything else is malformed and gives `None`.
pub fn hex_to_rgb(hex: &str) -> (colour: Option<Rgb>)
    ensures
        colour == hex_colour(hex@),
{
    if !hex.is_ascii() {
        proof {
            assert(!is_ascii_chars(hex@));
            let k = choose|k: int|
                0 <= k < hex@.len() && !('\0' <= #[trigger] hex@[k] <= '\u{7f}');
            assert(hex@[k] != '#');
            assert(hex_value(hex@[k]) is None);
        }
        return None;
    }
    proof {
        is_ascii_chars_encode_utf8(hex@);
        is_ascii_chars_nat_bound(hex@);
    }
    let bytes = hex.as_bytes();
    let len: usize = bytes.len();
    if len < 6 {
        return None;
    }
    let start: usize = len - 6;
    let mut at: usize = 0;
    while at < start
        invariant
            len == hex@.len() == bytes@.len(),
            forall|k: int| 0 <= k < len ==> bytes@[k] == #[trigger] hex@[k] as int,
            start == len - 6,
            at <= start,
            forall|k: int| 0 <= k < at ==> hex@[k] == '#',
        decreases start - at,
    {
        if bytes[at] != 0x23 {
            assert(hex@[at as int] != '#');
            return None;
        }
        at = at + 1;
    }
    let mut channels: [u8; 3] = [0, 0, 0];
    let mut n: usize = 0;
    while n < 3
        invariant
            len == hex@.len() == bytes@.len(),
            forall|k: int| 0 <= k < len ==> bytes@[k] == #[trigger] hex@[k] as int,
            start == len - 6,
            n <= 3,
            forall|k: int| 0 <= k < start ==> hex@[k] == '#',
            forall|k: int| start <= k < start + 2 * n ==> hex_value(#[trigger] hex@[k]) is Some,
            forall|m: int| 0 <= m < n ==> channels[m] == hex_pair(hex@, start + 2 * m),
        decreases 3 - n,
    {
        let high = hex_digit(bytes[start + 2 * n], Ghost(hex@[start + 2 * n]));
        let low = hex_digit(bytes[start + 2 * n + 1], Ghost(hex@[start + 2 * n + 1]));
        match (high, low) {
            (Some(h), Some(l)) => {
                channels[n] = 16 * h + l;
            },
            _ => {
                return None;
            },
        }
        n = n + 1;
    }
    Some(Rgb { red: channels[0], green: channels[1], blue: channels[2] })
}

/// Why a list of anchors is no gradient.
#[derive(Clone, Copy, Debug, PartialEq, Eq, Structural)]
pub enum GradientError {
    /// The list is empty: a gradient has at least one anchor.
    NoAnchors,
    /// The anchor at this place in the list is malformed, and none before it.
    BadAnchor(usize),
}

/// Reads the anchors of a gradient, each written in hexadecimal as
/// [`hex_to_rgb`] takes it.
///
/// All anchors are read before anything is coloured: an empty list and a
/// malformed anchor are refused here, the latter with the place of the first
/// one.
pub fn gradient(cols: &[&str]) -> (anchors: Result<Vec<Rgb>, GradientError>)
    ensures
        match anchors {
            Ok(list) => {
                &&& cols@.len() >= 1
                &&& list@.len() == cols@.len()
                &&& forall|k: int|
                    #![trigger cols@[k]]
                    #![trigger list@[k]]
                    0 <= k < cols@.len() ==> hex_colour(cols@[k]@) == Some(list@[k])
            },
            Err(GradientError::NoAnchors) => cols@.len() == 0,
            Err(GradientError::BadAnchor(at)) => {
                &&& at < cols@.len()
                &&& hex_colour(cols@[at as int]@) is None
                &&& forall|k: int| 0 <= k < at ==> hex_colour(#[trigger] cols@[k]@) is Some
            },
        },
{
    if cols.len() == 0 {
        return Err(GradientError::NoAnchors);
    }
    let mut list: Vec<Rgb> = Vec::new();
    let mut at: usize = 0;
    while at < cols.len()
        invariant
            at <= cols@.len(),
            list@.len() == at,
            forall|k: int| 0 <= k < at ==> hex_colour(cols@[k]@) == Some(#[trigger] list@[k]),
        decreases cols@.len() - at,
    {
        match hex_to_rgb(cols[at]) {
            Some(colour) => {
                list.push(colour);
            },
            None => {
                assert forall|k: int| 0 <= k < at implies hex_colour(#[trigger] cols@[k]@) is Some by {
                    assert(hex_colour(cols@[k]@) == Some(list@[k]));
                }
                return Err(GradientError::BadAnchor(at));
            },
        }
        at = at + 1;
    }
    Ok(list)
}

/// The colour that the three channels at `(a, b)` make.
pub open spec fn colour_at(pixels: Pixels, a: int, b: int) -> Rgb {
    Rgb {
        red: pixels.channel(a, b, 0),
        green: pixels.channel(a, b, 1),
        blue: pixels.channel(a, b, 2),
    }
}

/// Whether `cols` has the shape of `data` and holds, at the place of every
/// count, a colour that `shade` gave for that count.
pub open spec fn coloured<F: Fn(u16) -> Rgb>(data: Grid, shade: F, cols: Pixels) -> bool {
    &&& cols.dims() == (data.width(), data.height())
    &&& forall|x: int, y: int|
        data.has(x, y) ==> call_ensures(shade, (data.at(x, y),), #[trigger] colour_at(cols, x, y))
}

/// A shade that knows one colour only gives that colour to every cell,
/// whatever the counts are.
pub proof fn lemma_one_colour<F: Fn(u16) -> Rgb>(data: Grid, shade: F, cols: Pixels, colour: Rgb)
    requires
        coloured(data, shade, cols),
        forall|count: u16, shaded: Rgb| call_ensures(shade, (count,), shaded) ==> shaded == colour,
    ensures
        forall|x: int, y: int| cols.has(x, y) ==> #[trigger] colour_at(cols, x, y) == colour,
{
    assert forall|x: int, y: int| cols.has(x, y) implies #[trigger] colour_at(cols, x, y)
        == colour by {
        assert(data.has(x, y));
        assert(call_ensures(shade, (data.at(x, y),), colour_at(cols, x, y)));
    }
}

/// Colours every cell of a grid.
///
/// `shade` is asked for the colour of each count, and the colour is stored
/// at the place of the count: the planes have the shape of the grid and are
/// addressed as it is.
pub fn image<F: Fn(u16) -> Rgb>(data: &Grid, shade: F) -> (cols: Pixels)
    requires
        3 * data.width() * data.height() <= isize::MAX,
        forall|x: int, y: int| data.has(x, y) ==> call_requires(shade, (data.at(x, y),)),
    ensures
        coloured(*data, shade, cols),
{
    let (width, height) = data.dim();
    let mut cols = Pixels::zeros(width, height);
    let mut yi: usize = 0;
    while yi < height
        invariant
            yi <= height,
            grid_shape(*data) == (width as nat, height as nat),
            pixels_shape(cols) == (width as nat, height as nat, 3nat),
            forall|x: int, y: int| data.has(x, y) ==> call_requires(shade, (data.at(x, y),)),
            forall|x: int, y: int|
                0 <= x < width && 0 <= y < yi ==> call_ensures(
                    shade,
                    (data.at(x, y),),
                    #[trigger] colour_at(cols, x, y),
                ),
        decreases height - yi,
    {
        let mut xi: usize = 0;
        while xi < width
            invariant
                yi < height,
                xi <= width,
                grid_shape(*data) == (width as nat, height as nat),
                pixels_shape(cols) == (width as nat, height as nat, 3nat),
                forall|x: int, y: int| data.has(x, y) ==> call_requires(shade, (data.at(x, y),)),
                forall|x: int, y: int|
                    0 <= x < width && 0 <= y < yi ==> call_ensures(
                        shade,
                        (data.at(x, y),),
                        #[trigger] colour_at(cols, x, y),
                    ),
                forall|x: int|
                    0 <= x < xi ==> call_ensures(
                        shade,
                        (data.at(x, yi as int),),
                        #[trigger] colour_at(cols, x, yi as int),
                    ),
            decreases width - xi,
        {
            assert(data.has(xi as int, yi as int));
            let colour: Rgb = shade(data.fetch(xi, yi));
            let ghost before = cols;
            cols.store(xi, yi, 0, colour.red);
            cols.store(xi, yi, 1, colour.green);
            cols.store(xi, yi, 2, colour.blue);
            proof {
                assert(colour_at(cols, xi as int, yi as int) == colour);
                assert forall|x: int, y: int| 0 <= x < width && 0 <= y < yi implies call_ensures(
                    shade,
                    (data.at(x, y),),
                    #[trigger] colour_at(cols, x, y),
                ) by {
                    assert(colour_at(cols, x, y) == colour_at(before, x, y));
                }
                assert forall|x: int| 0 <= x < xi + 1 implies call_ensures(
                    shade,
                    (data.at(x, yi as int),),
                    #[trigger] colour_at(cols, x, yi as int),
                ) by {
                    if x < xi {
                        assert(colour_at(cols, x, yi as int) == colour_at(before, x, yi as int));
                    }
                }
            }
            xi = xi + 1;
        }
        yi = yi + 1;
    }
    cols
}

/// Whether the three channels of the pixel scanned at position `n` of `arr`
/// stand in `buffer` with the two position axes exchanged.
pub open spec fn pixel_moved(arr: Pixels, buffer: Pixels, n: int) -> bool {
    let (x, y) = scan(n, arr.dims().0 as int);
    colour_at(buffer, y, x) == colour_at(arr, x, y)
}

/// Whether `buffer` is `arr` with the two position axes exchanged: the
/// lengths of the axes change places, and what `arr` holds at `(x, y)`
/// stands at `(y, x)` of `buffer`.
pub open spec fn transposed(arr: Pixels, buffer: Pixels) -> bool {
    &&& buffer.dims() == (arr.dims().1, arr.dims().0)
    &&& forall|x: int, y: int, c: int|
        arr.has(x, y) && 0 <= c < 3 ==> #[trigger] buffer.channel(y, x, c) == arr.channel(x, y, c)
}

/// Exchanging the axes twice gives back planes of the first shape that
/// hold what the first held, place by place.
pub proof fn lemma_transposed_twice(arr: Pixels, once: Pixels, twice: Pixels)
    requires
        transposed(arr, once),
        transposed(once, twice),
    ensures
        twice.dims() == arr.dims(),
        forall|x: int, y: int, c: int|
            arr.has(x, y) && 0 <= c < 3 ==> #[trigger] twice.channel(x, y, c) == arr.channel(
                x,
                y,
                c,
            ),
{
    assert forall|x: int, y: int, c: int| arr.has(x, y) && 0 <= c < 3 implies #[trigger] twice.channel(
        x,
        y,
        c,
    ) == arr.channel(x, y, c) by {
        assert(once.channel(y, x, c) == arr.channel(x, y, c));
        assert(once.has(y, x));
    }
}

/// Exchanges the two position axes of colour planes.
///
/// Planes addressed `(x, y)` become planes addressed `(row, column)`, with
/// the row being `y` and the column `x`: what stood at `(x, y)` stands at
/// `(y, x)` of the result.
pub fn transpose(arr: &Pixels) -> (buffer: Pixels)
    ensures
        transposed(*arr, buffer),
{
    proof {
        use_type_invariant(arr);
    }
    let (width, height, _) = arr.shape();
    assert(3 * height * width == 3 * width * height && width * height <= 3 * width * height)
        by (nonlinear_arith)
        requires
            0 <= width,
            0 <= height,
    ;
    let mut buffer = Pixels::zeros(height, width);
    let total_pixels: usize = width * height;
    let mut n: usize = 0;
    while n < total_pixels
        invariant
            n <= total_pixels == width * height,
            1 <= width,
            pixels_shape(*arr) == (width as nat, height as nat, 3nat),
            pixels_shape(buffer) == (height as nat, width as nat, 3nat),
            forall|m: int| 0 <= m < n ==> #[trigger] pixel_moved(*arr, buffer, m),
        decreases total_pixels - n,
    {
        proof {
            lemma_scan_inside(n as int, width as int, height as int);
        }
        let xi: usize = n % width;
        let yi: usize = n / width;
        let red: u8 = arr.fetch(xi, yi, 0);
        let green: u8 = arr.fetch(xi, yi, 1);
        let blue: u8 = arr.fetch(xi, yi, 2);
        let ghost before = buffer;
        buffer.store(yi, xi, 0, red);
        buffer.store(yi, xi, 1, green);
        buffer.store(yi, xi, 2, blue);
        proof {
            assert forall|m: int| 0 <= m < n + 1 implies #[trigger] pixel_moved(
                *arr,
                buffer,
                m,
            ) by {
                lemma_scan_inside(m, width as int, height as int);
                if m < n {
                    assert(pixel_moved(*arr, before, m));
                    assert(scan(m, width as int) != scan(n as int, width as int));
                }
            }
        }
        n = n + 1;
    }
    proof {
        assert forall|x: int, y: int, c: int| arr.has(x, y) && 0 <= c < 3 implies #[trigger] buffer.channel(
            y,
            x,
            c,
        ) == arr.channel(x, y, c) by {
            lemma_scan_reaches(x, y, width as int, height as int);
            assert(pixel_moved(*arr, buffer, y * width + x));
        }
    }
    buffer
}

/// Lays colour planes addressed `(x, y)` out as the bytes of a picture.
///
/// The planes are transposed, so that rows come first, and their channels
/// are listed in that order: the pixel in column `x` of row `y` has the
/// colour that the planes hold at `(x, y)`.
pub fn encode(arr: &Pixels) -> (img: Raster)
    requires
        arr.dims().0 <= u32::MAX,
        arr.dims().1 <= u32::MAX,
    ensures
        img.complete(),
        img.width == arr.dims().0,
        img.height == arr.dims().1,
        forall|x: int, y: int, c: int|
            arr.has(x, y) && 0 <= c < 3 ==> #[trigger] img.channel(x, y, c) == arr.channel(
                x,
                y,
                c,
            ),
{
    let rows_first = transpose(arr);
    proof {
        use_type_invariant(&rows_first);
    }
    let (rows, columns, _) = rows_first.shape();
    match rows_first.to_vec() {
        Some(bytes) => {
            proof {
                assert(3 * columns * rows == bytes@.len()) by (nonlinear_arith)
                    requires
                        bytes@.len() == rows * columns * 3,
                ;
                assert forall|x: int, y: int, c: int| arr.has(x, y) && 0 <= c < 3 implies bytes@[(y
                    * columns + x) * 3 + c] == arr.channel(x, y, c) by {
                    assert(flat_index(pixels_shape(rows_first), y, x, c) == (y * columns + x) * 3
                        + c);
                    assert(rows_first.channel(y, x, c) == arr.channel(x, y, c));
                }
            }
            Raster { width: columns as u32, height: rows as u32, bytes }
        },
        None => vstd::pervasive::unreached(),
    }
}

} // verus!
