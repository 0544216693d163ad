//! The PPM image format: an ASCII header, followed by the pixels row by row,
//! as decimal text (P3) or as raw bytes (P6).

use vstd::prelude::*;
use vstd::utf8::encode_utf8;
use crate::ascii::{
    decimal, find_byte, is_digit, is_space, lemma_decimal_is_digits, lemma_decimal_reads_back,
    lemma_find_byte_finds, lemma_find_byte_is, parse_number, position, read_number,
};
use crate::canvas::Canvas;
use crate::color::Color;
use crate::error::{Failure, ImageError};
use crate::image::Image;

verus! {

/// The byte that follows `P` in the magic constant of the plain format, `3`.
pub const PLAIN: u8 = 51;

/// The byte that follows `P` in the magic constant of the binary format, `6`.
pub const BINARY: u8 = 54;

/// The largest value of a color channel, written into every header.
pub const MAX_VALUE: u8 = 255;

/// The header of a PPM file: the magic constant `P3` or `P6`, the width and
/// the height separated by a space, and the largest channel value, each on a
/// line of its own.
pub open spec fn header(kind: u8, width: nat, height: nat) -> Seq<u8> {
    seq![80u8, kind, 10u8] + decimal(width) + seq![32u8] + decimal(height) + seq![10u8] + decimal(
        MAX_VALUE as nat,
    ) + seq![10u8]
}

/// A pixel in binary form: its red, green and blue byte.
pub open spec fn pixel_bytes(color: Color) -> Seq<u8> {
    seq![color.r, color.g, color.b]
}

/// A row of pixels in binary form: its pixels from left to right, with
/// nothing between them.
pub open spec fn row_bytes(row: Seq<Color>) -> Seq<u8>
    decreases row.len(),
{
    if row.len() == 0 {
        seq![]
    } else {
        row_bytes(row.drop_last()) + pixel_bytes(row.last())
    }
}

/// The rows of an image in binary form, from top to bottom.
pub open spec fn body_bytes(rows: Seq<Seq<Color>>) -> Seq<u8>
    decreases rows.len(),
{
    if rows.len() == 0 {
        seq![]
    } else {
        body_bytes(rows.drop_last()) + row_bytes(rows.last())
    }
}

/// An image in the binary format (P6).
pub open spec fn encode_p6(canvas: Canvas) -> Seq<u8> {
    header(BINARY, canvas.width, canvas.height) + body_bytes(canvas.pixels)
}

/// A pixel in plain form: red, green and blue in decimal, separated by
/// spaces.
pub open spec fn pixel_text(color: Color) -> Seq<u8> {
    decimal(color.r as nat) + seq![32u8] + decimal(color.g as nat) + seq![32u8] + decimal(
        color.b as nat,
    )
}

/// A row of pixels in plain form: each pixel followed by a space.
pub open spec fn row_text(row: Seq<Color>) -> Seq<u8>
    decreases row.len(),
{
    if row.len() == 0 {
        seq![]
    } else {
        row_text(row.drop_last()) + pixel_text(row.last()) + seq![32u8]
    }
}

/// The rows of an image in plain form, from top to bottom, each ended by a
/// line feed.
pub open spec fn body_text(rows: Seq<Seq<Color>>) -> Seq<u8>
    decreases rows.len(),
{
    if rows.len() == 0 {
        seq![]
    } else {
        body_text(rows.drop_last()) + row_text(rows.last()) + seq![10u8]
    }
}

/// An image in the plain format (P3).
pub open spec fn encode_p3(canvas: Canvas) -> Seq<u8> {
    header(PLAIN, canvas.width, canvas.height) + body_text(canvas.pixels)
}

/// Trait for transforming any values into their PNM representation.
pub trait PNM {
    /// The bytes of the value in the plain format.
    spec fn pnm_p3(&self) -> Seq<u8>;

    /// The bytes of the value in the binary format.
    spec fn pnm_p6(&self) -> Seq<u8>;

    /// Convert a value into its P3 representation: the text that consists of
    /// the bytes of the plain format.
    fn to_pnm_p3(&self) -> (text: String)
        ensures
            encode_utf8(text@) == self.pnm_p3(),
    ;

    /// Convert a value into its P6 representation.
    fn to_pnm_p6(&self) -> (bytes: Vec<u8>)
        ensures
            bytes@ == self.pnm_p6(),
    ;
}

/// Appends the header of a PPM file.
pub(crate) fn push_header(out: &mut Vec<u8>, kind: u8, width: usize, height: usize)
    ensures
        final(out)@ == old(out)@ + header(kind, width as nat, height as nat),
{
    out.push(80);
    out.push(kind);
    out.push(10);
    let ghost magic = out@;
    crate::ascii::push_decimal(out, width);
    out.push(32);
    crate::ascii::push_decimal(out, height);
    out.push(10);
    crate::ascii::push_decimal(out, MAX_VALUE as usize);
    out.push(10);
    proof {
        assert(magic =~= old(out)@ + seq![80u8, kind, 10u8]);
        assert(out@ =~= old(out)@ + header(kind, width as nat, height as nat));
    }
}

/// Appends a pixel in plain form.
pub(crate) fn push_pixel_text(out: &mut Vec<u8>, color: &Color)
    ensures
        final(out)@ == old(out)@ + pixel_text(*color),
{
    crate::ascii::push_decimal(out, color.r as usize);
    out.push(32);
    crate::ascii::push_decimal(out, color.g as usize);
    out.push(32);
    crate::ascii::push_decimal(out, color.b as usize);
    proof {
        assert(out@ =~= old(out)@ + pixel_text(*color));
    }
}

/// The header is ASCII text.
pub proof fn lemma_header_is_ascii(kind: u8, width: nat, height: nat)
    requires
        kind < 128,
    ensures
        crate::ascii::is_ascii_text(header(kind, width, height)),
{
    crate::ascii::lemma_decimal_is_digits(width);
    crate::ascii::lemma_decimal_is_digits(height);
    crate::ascii::lemma_decimal_is_digits(MAX_VALUE as nat);
}

/// A pixel in plain form is ASCII text.
pub proof fn lemma_pixel_text_is_ascii(color: Color)
    ensures
        crate::ascii::is_ascii_text(pixel_text(color)),
{
    crate::ascii::lemma_decimal_is_digits(color.r as nat);
    crate::ascii::lemma_decimal_is_digits(color.g as nat);
    crate::ascii::lemma_decimal_is_digits(color.b as nat);
}

/// The text without the white space at its start.
pub open spec fn trim_start(text: Seq<u8>) -> Seq<u8>
    decreases text.len(),
{
    if text.len() > 0 && is_space(text[0]) {
        trim_start(text.skip(1))
    } else {
        text
    }
}

/// The text without the white space at its end.
pub open spec fn trim_end(text: Seq<u8>) -> Seq<u8>
    decreases text.len(),
{
    if text.len() > 0 && is_space(text.last()) {
        trim_end(text.drop_last())
    } else {
        text
    }
}

/// The width and height that the second line of a header gives: after white
/// space at both ends is dropped, a number, a single space, and a number.
pub open spec fn parse_dimensions(line: Seq<u8>) -> Option<(usize, usize)> {
    let text = trim_end(trim_start(line));
    let gap = find_byte(text, 32, 0);
    if gap >= text.len() {
        None
    } else {
        match (parse_number(text.take(gap)), parse_number(text.skip(gap + 1))) {
            (Some(width), Some(height)) => Some((width, height)),
            _ => None,
        }
    }
}

/// The pixel in column `x` of row `y` in a binary body of rows `width` wide.
pub open spec fn pixel_at(body: Seq<u8>, width: int, x: int, y: int) -> Color {
    let at = 3 * (y * width + x);
    Color { r: body[at], g: body[at + 1], b: body[at + 2] }
}

/// The image that a binary body holds, row by row from the top, three bytes
/// to a pixel.
pub open spec fn canvas_of(body: Seq<u8>, width: nat, height: nat) -> Canvas {
    Canvas {
        width,
        height,
        pixels: Seq::new(
            height,
            |y: int| Seq::new(width, |x: int| pixel_at(body, width as int, x, y)),
        ),
    }
}

/// The image that the bytes of a binary PPM file hold, or why they hold
/// none.
///
/// The file has three header lines, each ended by a line feed: the magic
/// constant `P6`, the width and height, and the largest channel value, which
/// has to be a number and is not looked at further. Exactly three bytes for
/// each pixel follow.
pub open spec fn decode_p6(bytes: Seq<u8>) -> Result<Canvas, Failure> {
    let magic_end = find_byte(bytes, 10, 0);
    let size_end = find_byte(bytes, 10, magic_end + 1);
    let max_end = find_byte(bytes, 10, size_end + 1);
    if bytes.take(magic_end) != seq![80u8, BINARY] {
        Err(Failure::UnsupportedFormat { magic: bytes.take(magic_end) })
    } else if magic_end >= bytes.len() || size_end >= bytes.len() || max_end >= bytes.len() {
        Err(Failure::MalformedHeader)
    } else {
        match (
            parse_dimensions(bytes.subrange(magic_end + 1, size_end)),
            parse_number(bytes.subrange(size_end + 1, max_end)),
        ) {
            (Some((width, height)), Some(_)) => {
                let body = bytes.skip(max_end + 1);
                if body.len() == 3 * width * height {
                    Ok(canvas_of(body, width as nat, height as nat))
                } else {
                    Err(
                        Failure::TruncatedOrPaddedData {
                            expected: if 3 * width * height <= usize::MAX {
                                Some((3 * width * height) as usize)
                            } else {
                                None
                            },
                            actual: body.len() as usize,
                        },
                    )
                }
            },
            _ => Err(Failure::MalformedHeader),
        }
    }
}

/// Reads the width and height from the bytes of `line` between `start` and
/// `end`.
fn read_dimensions(bytes: &[u8], start: usize, end: usize) -> (size: Option<(usize, usize)>)
    requires
        start <= end <= bytes@.len(),
    ensures
        size == parse_dimensions(bytes@.subrange(start as int, end as int)),
{
    let ghost line = bytes@.subrange(start as int, end as int);
    let mut first = start;
    while first < end && is_space_byte(bytes[first])
        invariant
            start <= first <= end <= bytes@.len(),
            trim_start(line) == trim_start(bytes@.subrange(first as int, end as int)),
            line == bytes@.subrange(start as int, end as int),
        decreases end - first,
    {
        proof {
            assert(bytes@.subrange(first as int, end as int).skip(1) =~= bytes@.subrange(
                first + 1,
                end as int,
            ));
        }
        first += 1;
    }
    let mut last = end;
    while first < last && is_space_byte(bytes[last - 1])
        invariant
            first <= last <= end <= bytes@.len(),
            trim_end(trim_start(line)) == trim_end(bytes@.subrange(first as int, last as int)),
        decreases last - first,
    {
        proof {
            assert(bytes@.subrange(first as int, last as int).drop_last() =~= bytes@.subrange(
                first as int,
                last - 1,
            ));
        }
        last -= 1;
    }
    let ghost text = bytes@.subrange(first as int, last as int);
    assert(trim_end(trim_start(line)) == text);
    let gap = position(bytes, 32, first);
    proof {
        lemma_find_in_range(bytes@, 32, first as int, last as int);
    }
    if gap >= last {
        return None;
    }
    proof {
        assert(text.take(gap - first) =~= bytes@.subrange(first as int, gap as int));
        assert(text.skip(gap - first + 1) =~= bytes@.subrange(gap + 1, last as int));
    }
    let width = read_number(bytes, first, gap);
    let height = read_number(bytes, gap + 1, last);
    match (width, height) {
        (Some(width), Some(height)) => Some((width, height)),
        _ => None,
    }
}

/// Builds the image of the given size from the binary body that starts at
/// `start` and runs to the end of the bytes.
fn read_body(bytes: &[u8], start: usize, width: usize, height: usize) -> (image: Image)
    requires
        start <= bytes@.len(),
        bytes@.len() - start == 3 * width * height,
    ensures
        image.wf(),
        image@ == canvas_of(bytes@.skip(start as int), width as nat, height as nat),
{
    let ghost body = bytes@.skip(start as int);
    let mut image = Image::new(width, height);
    let mut at: usize = start;
    let mut y: usize = 0;
    while y < height
        invariant
            y <= height,
            image.wf(),
            image@.width == width,
            image@.height == height,
            start <= bytes@.len(),
            bytes@.len() - start == 3 * width * height,
            body == bytes@.skip(start as int),
            at == start + 3 * (y * width),
            forall|i: int, j: int|
                0 <= i < width && 0 <= j < y ==> #[trigger] image@.pixels[j][i] == pixel_at(
                    body,
                    width as int,
                    i,
                    j,
                ),
        decreases height - y,
    {
        let mut x: usize = 0;
        while x < width
            invariant
                x <= width,
                y < height,
                image.wf(),
                image@.width == width,
                image@.height == height,
                start <= bytes@.len(),
                bytes@.len() - start == 3 * width * height,
                body == bytes@.skip(start as int),
                at == start + 3 * (y * width + x),
                forall|i: int, j: int|
                    0 <= i < width && 0 <= j < y ==> #[trigger] image@.pixels[j][i] == pixel_at(
                        body,
                        width as int,
                        i,
                        j,
                    ),
                forall|i: int|
                    0 <= i < x ==> #[trigger] image@.pixels[y as int][i] == pixel_at(
                        body,
                        width as int,
                        i,
                        y as int,
                    ),
            decreases width - x,
        {
            proof {
                assert(3 * (y * width + x) + 3 <= 3 * width * height) by (nonlinear_arith)
                    requires
                        0 <= x < width,
                        0 <= y < height,
                ;
            }
            let color = Color::new(bytes[at], bytes[at + 1], bytes[at + 2]);
            let ghost before = image@;
            image.set(x, y, &color);
            proof {
                assert(color == pixel_at(body, width as int, x as int, y as int));
                assert(before.in_bounds(x as int, y as int));
                assert forall|i: int, j: int| 0 <= i < width && 0 <= j < y implies #[trigger] image@.pixels[j][i]
                    == pixel_at(body, width as int, i, j) by {
                    assert(image@.pixels[j] == before.pixels[j]);
                }
                assert forall|i: int| 0 <= i < x + 1 implies #[trigger] image@.pixels[y as int][i]
                    == pixel_at(body, width as int, i, y as int) by {
                    if i < x {
                        assert(image@.pixels[y as int][i] == before.pixels[y as int][i]);
                    }
                }
            }
            at += 3;
            x += 1;
        }
        proof {
            assert(3 * (y * width + width) == 3 * ((y + 1) * width)) by (nonlinear_arith);
        }
        y += 1;
    }
    proof {
        let decoded = canvas_of(body, width as nat, height as nat);
        assert forall|j: int| 0 <= j < height implies image@.pixels[j] =~= decoded.pixels[j] by {
            assert forall|i: int| 0 <= i < width implies image@.pixels[j][i]
                == decoded.pixels[j][i] by {}
        }
        assert(image@.pixels =~= decoded.pixels);
    }
    image
}

/// Parse a vector of u8 into a valid PPM6 image, or tell why the bytes are
/// not one.
pub fn parse_ppm6(inp: Vec<u8>) -> (result: Result<Image, ImageError>)
    ensures
        match result {
            Ok(image) => image.wf() && decode_p6(inp@) == Ok::<Canvas, Failure>(image@),
            Err(error) => decode_p6(inp@) == Err::<Canvas, Failure>(error@),
        },
{
    let bytes = inp.as_slice();
    let first_line_break = position(bytes, 10, 0);
    proof {
        assert(bytes@.take(first_line_break as int) =~= bytes@.subrange(
            0,
            first_line_break as int,
        ));
    }
    let magic = vstd::slice::slice_subrange(bytes, 0, first_line_break);
    if !(magic.len() == 2 && magic[0] == 80 && magic[1] == BINARY) {
        return Err(ImageError::UnsupportedFormat { magic: vstd::slice::slice_to_vec(magic) });
    }
    assert(magic@ =~= seq![80u8, BINARY]);
    if first_line_break >= bytes.len() {
        return Err(ImageError::MalformedHeader);
    }
    let second_line_break = position(bytes, 10, first_line_break + 1);
    if second_line_break >= bytes.len() {
        return Err(ImageError::MalformedHeader);
    }
    let (width, height) = match read_dimensions(bytes, first_line_break + 1, second_line_break) {
        Some(size) => size,
        None => { return Err(ImageError::MalformedHeader); },
    };
    let third_line_break = position(bytes, 10, second_line_break + 1);
    if third_line_break >= bytes.len() {
        return Err(ImageError::MalformedHeader);
    }
    if read_number(bytes, second_line_break + 1, third_line_break).is_none() {
        return Err(ImageError::MalformedHeader);
    }
    let after_third_line_break = third_line_break + 1;
    let actual = bytes.len() - after_third_line_break;
    let expected = match width.checked_mul(height) {
        Some(pixels) => pixels.checked_mul(3),
        None => None,
    };
    proof {
        assert(3 * width * height == (width * height) * 3) by (nonlinear_arith);
        assert(width * height > usize::MAX ==> 3 * width * height > usize::MAX)
            by (nonlinear_arith)
            requires
                width >= 0,
                height >= 0,
        ;
    }
    if expected != Some(actual) {
        return Err(ImageError::TruncatedOrPaddedData { expected, actual });
    }
    Ok(read_body(bytes, after_third_line_break, width, height))
}

/// Whether the byte is ASCII white space.
fn is_space_byte(byte: u8) -> (space: bool)
    ensures
        space == is_space(byte),
{
    byte == 32 || (9 <= byte && byte <= 13)
}

/// Searching a part of the bytes finds what searching all of them finds,
/// as far as the part reaches.
proof fn lemma_find_in_range(bytes: Seq<u8>, byte: u8, from: int, to: int)
    requires
        0 <= from <= to <= bytes.len(),
    ensures
        find_byte(bytes.subrange(from, to), byte, 0) == if find_byte(bytes, byte, from) < to {
            find_byte(bytes, byte, from) - from
        } else {
            to - from
        },
{
    let part = bytes.subrange(from, to);
    let found = find_byte(bytes, byte, from);
    lemma_find_byte_finds(bytes, byte, from);
    if found < to {
        lemma_find_byte_is(part, byte, 0, found - from);
    } else {
        lemma_find_byte_is(part, byte, 0, to - from);
    }
}

/// A row in binary form has three bytes for each pixel.
proof fn lemma_row_bytes_len(row: Seq<Color>)
    ensures
        row_bytes(row).len() == 3 * row.len(),
    decreases row.len(),
{
    if row.len() > 0 {
        lemma_row_bytes_len(row.drop_last());
    }
}

/// Pixel `x` of a row in binary form stands at byte `3 * x`.
proof fn lemma_row_pixel(row: Seq<Color>, x: int)
    requires
        0 <= x < row.len(),
    ensures
        row_bytes(row).len() == 3 * row.len(),
        row_bytes(row)[3 * x] == row[x].r,
        row_bytes(row)[3 * x + 1] == row[x].g,
        row_bytes(row)[3 * x + 2] == row[x].b,
    decreases row.len(),
{
    lemma_row_bytes_len(row);
    lemma_row_bytes_len(row.drop_last());
    if x < row.len() - 1 {
        lemma_row_pixel(row.drop_last(), x);
    }
}

/// A body in binary form has three bytes for each pixel of each row.
proof fn lemma_body_bytes_len(rows: Seq<Seq<Color>>, width: nat)
    requires
        forall|y: int| 0 <= y < rows.len() ==> (#[trigger] rows[y]).len() == width,
    ensures
        body_bytes(rows).len() == 3 * width * rows.len(),
    decreases rows.len(),
{
    if rows.len() > 0 {
        lemma_body_bytes_len(rows.drop_last(), width);
        lemma_row_bytes_len(rows.last());
        assert(3 * width * (rows.len() - 1) + 3 * width == 3 * width * rows.len())
            by (nonlinear_arith);
    }
}

/// Reading pixel `(x, y)` from a body in binary form yields the pixel that
/// was written there.
proof fn lemma_body_pixel(rows: Seq<Seq<Color>>, width: nat, x: int, y: int)
    requires
        forall|j: int| 0 <= j < rows.len() ==> (#[trigger] rows[j]).len() == width,
        0 <= x < width,
        0 <= y < rows.len(),
    ensures
        pixel_at(body_bytes(rows), width as int, x, y) == rows[y][x],
    decreases rows.len(),
{
    let front = rows.drop_last();
    lemma_body_bytes_len(front, width);
    lemma_row_bytes_len(rows.last());
    assert(3 * (y * width + x) == 3 * width * y + 3 * x) by (nonlinear_arith);
    if y < rows.len() - 1 {
        lemma_body_pixel(front, width, x, y);
        assert(3 * width * y + 3 * x + 3 <= 3 * width * (rows.len() - 1)) by (nonlinear_arith)
            requires
                0 <= x < width,
                0 <= y < rows.len() - 1,
        ;
    } else {
        lemma_row_pixel(rows.last(), x);
        assert(3 * width * y == 3 * width * (rows.len() - 1));
    }
}

/// A number written in base 10 reads back as that number.
proof fn lemma_decimal_parses(n: nat)
    requires
        n <= usize::MAX,
    ensures
        parse_number(decimal(n)) == Some(n as usize),
{
    lemma_decimal_is_digits(n);
    lemma_decimal_reads_back(n);
    assert(is_digit(decimal(n)[0]));
}

/// The line `width height`, as the encoder writes it, reads back as that
/// width and height.
proof fn lemma_dimensions_parse(width: nat, height: nat)
    requires
        width <= usize::MAX,
        height <= usize::MAX,
    ensures
        parse_dimensions(decimal(width) + seq![32u8] + decimal(height)) == Some(
            (width as usize, height as usize),
        ),
{
    let first = decimal(width);
    let second = decimal(height);
    let line = first + seq![32u8] + second;
    lemma_decimal_is_digits(width);
    lemma_decimal_is_digits(height);
    lemma_decimal_parses(width);
    lemma_decimal_parses(height);
    assert(is_digit(first[0]) && is_digit(second[second.len() - 1]));
    assert(line[0] == first[0]);
    assert(line.last() == second[second.len() - 1]);
    assert(trim_start(line) == line);
    assert(trim_end(line) == line);
    assert forall|i: int| 0 <= i < first.len() implies line[i] != 32 by {
        assert(is_digit(first[i]));
    }
    lemma_find_byte_is(line, 32, 0, first.len() as int);
    assert(line.take(first.len() as int) =~= first);
    assert(line.skip(first.len() as int + 1) =~= second);
}

/// Round trip: decoding the binary form of an image yields the image, pixel
/// for pixel.
pub proof fn lemma_p6_round_trip(canvas: Canvas)
    requires
        canvas.wf(),
        canvas.width <= usize::MAX,
        canvas.height <= usize::MAX,
    ensures
        decode_p6(encode_p6(canvas)) == Ok::<Canvas, Failure>(canvas),
{
    let width = canvas.width;
    let height = canvas.height;
    let first = decimal(width);
    let second = decimal(height);
    let third = decimal(MAX_VALUE as nat);
    let body = body_bytes(canvas.pixels);
    let bytes = encode_p6(canvas);
    let size_end: int = 3 + first.len() as int + 1 + second.len() as int;
    let max_end: int = size_end + 1 + third.len() as int;
    lemma_decimal_is_digits(width);
    lemma_decimal_is_digits(height);
    lemma_decimal_is_digits(MAX_VALUE as nat);
    assert(bytes.len() == max_end + 1 + body.len());
    assert(bytes[0] == 80 && bytes[1] == BINARY && bytes[2] == 10);
    lemma_find_byte_is(bytes, 10, 0, 2);
    assert(bytes.take(2) =~= seq![80u8, BINARY]);
    assert forall|i: int| 3 <= i < size_end implies bytes[i] != 10 by {
        if i < 3 + first.len() {
            assert(bytes[i] == first[i - 3]);
            assert(is_digit(first[i - 3]));
        } else if i == 3 + first.len() {
            assert(bytes[i] == 32);
        } else {
            assert(bytes[i] == second[i - 4 - first.len()]);
            assert(is_digit(second[i - 4 - first.len()]));
        }
    }
    assert(bytes[size_end] == 10);
    lemma_find_byte_is(bytes, 10, 3, size_end);
    assert forall|i: int| size_end + 1 <= i < max_end implies bytes[i] != 10 by {
        assert(bytes[i] == third[i - size_end - 1]);
        assert(is_digit(third[i - size_end - 1]));
    }
    assert(bytes[max_end] == 10);
    lemma_find_byte_is(bytes, 10, size_end + 1, max_end);
    assert(bytes.subrange(3, size_end) =~= first + seq![32u8] + second);
    lemma_dimensions_parse(width, height);
    assert(bytes.subrange(size_end + 1, max_end) =~= third);
    lemma_decimal_parses(MAX_VALUE as nat);
    assert(bytes.skip(max_end + 1) =~= body);
    lemma_body_bytes_len(canvas.pixels, width);
    let decoded = canvas_of(body, width, height);
    assert forall|y: int| 0 <= y < height implies decoded.pixels[y] =~= canvas.pixels[y] by {
        assert forall|x: int| 0 <= x < width implies decoded.pixels[y][x]
            == canvas.pixels[y][x] by {
            lemma_body_pixel(canvas.pixels, width, x, y);
        }
    }
    assert(decoded.pixels =~= canvas.pixels);
}

} // verus!
