//! The text format a finished image is written in: a three-line header, then
//! one line per pixel with its three channels in decimal.

use crate::decimal::{decimal, push_decimal};
use crate::image::{is_grid, rows_of, Image};
use vstd::prelude::*;

verus! {

/// A pixel with eight bits per channel.
#[derive(Clone, Copy, Debug, PartialEq, Eq, Structural)]
pub struct Rgb8 {
    pub red: u8,
    pub green: u8,
    pub blue: u8,
}

/// The largest value of a channel, as the header announces it.
pub const CHANNEL_MAX: u8 = 255;

/// ASCII `P`.
pub const LETTER_P: u8 = 80;

/// ASCII `3`.
pub const DIGIT_THREE: u8 = 51;

/// ASCII space.
pub const SPACE: u8 = 32;

/// ASCII line feed.
pub const NEWLINE: u8 = 10;

/// A number in decimal, followed by one separator byte.
pub open spec fn field_text(n: nat, separator: u8) -> Seq<u8> {
    decimal(n).push(separator)
}

/// The header of an image of the given size: the format's name, a line with
/// the two dimensions, and a line with the largest channel value.
pub open spec fn header_text(width: nat, height: nat) -> Seq<u8> {
    seq![LETTER_P, DIGIT_THREE, NEWLINE] + field_text(width, SPACE) + field_text(height, NEWLINE)
        + field_text(CHANNEL_MAX as nat, NEWLINE)
}

/// One pixel's line: red, green and blue, separated by single spaces.
pub open spec fn pixel_text(pixel: Rgb8) -> Seq<u8> {
    field_text(pixel.red as nat, SPACE) + field_text(pixel.green as nat, SPACE) + field_text(
        pixel.blue as nat,
        NEWLINE,
    )
}

/// The lines of the pixels of one row, from column 0 on.
pub open spec fn row_text(row: Seq<Rgb8>) -> Seq<u8>
    decreases row.len(),
{
    if row.len() == 0 {
        Seq::empty()
    } else {
        row_text(row.drop_last()) + pixel_text(row.last())
    }
}

/// The lines of the pixels of several rows, row after row in the order given.
pub open spec fn lines_text(rows: Seq<Seq<Rgb8>>) -> Seq<u8>
    decreases rows.len(),
{
    if rows.len() == 0 {
        Seq::empty()
    } else {
        lines_text(rows.drop_last()) + row_text(rows.last())
    }
}

/// `rows` is a grid with at least one pixel.
pub open spec fn is_image(rows: Seq<Seq<Rgb8>>) -> bool {
    rows.len() > 0 && is_grid(rows, rows[0].len(), rows.len())
}

/// The whole text of an image: the header with the width of row 0 and the
/// number of rows, then the rows from the one stored last to the one stored
/// first.
pub open spec fn image_text(rows: Seq<Seq<Rgb8>>) -> Seq<u8> {
    header_text(rows[0].len(), rows.len()) + lines_text(rows.reverse())
}

/// Appends `n` in decimal and then `separator` to `out`.
fn push_field(out: &mut Vec<u8>, n: usize, separator: u8)
    ensures
        final(out)@ == old(out)@ + field_text(n as nat, separator),
{
    push_decimal(out, n);
    out.push(separator);
}

/// Appends the line of `pixel` to `out`.
pub fn push_pixel(out: &mut Vec<u8>, pixel: Rgb8)
    ensures
        final(out)@ == old(out)@ + pixel_text(pixel),
{
    push_field(out, pixel.red as usize, SPACE);
    push_field(out, pixel.green as usize, SPACE);
    push_field(out, pixel.blue as usize, NEWLINE);
}

/// Appends the header of an image of the given size to `out`.
pub fn push_header(out: &mut Vec<u8>, width: usize, height: usize)
    ensures
        final(out)@ == old(out)@ + header_text(width as nat, height as nat),
{
    out.push(LETTER_P);
    out.push(DIGIT_THREE);
    out.push(NEWLINE);
    push_field(out, width, SPACE);
    push_field(out, height, NEWLINE);
    push_field(out, CHANNEL_MAX as usize, NEWLINE);
}

/// The text of `image`.
pub fn encode(image: &Image<Rgb8>) -> (text: Vec<u8>)
    ensures
        text@ == image_text(image@),
{
    let lines = image.lines();
    let width = image.width();
    let height = image.height();
    let mut text: Vec<u8> = Vec::new();
    push_header(&mut text, width, height);
    let ghost rows = image@;
    let ghost head = text@;
    let mut y: usize = height;
    while y > 0
        invariant
            y <= height,
            height == rows.len(),
            rows == rows_of(lines@),
            is_grid(rows, width as nat, height as nat),
            text@ == head + lines_text(rows.reverse().take(height - y)),
        decreases y,
    {
        y -= 1;
        let line = &lines[y];
        let ghost before = text@;
        let ghost row = rows[y as int];
        let mut x: usize = 0;
        while x < width
            invariant
                x <= width,
                line@.len() == width,
                row == line@,
                text@ == before + row_text(row.take(x as int)),
            decreases width - x,
        {
            push_pixel(&mut text, line[x]);
            proof {
                let upto = row.take(x + 1);
                assert(upto.drop_last() == row.take(x as int));
                assert(upto.last() == row[x as int]);
            }
            x += 1;
        }
        proof {
            assert(row.take(width as int) == row);
            let emitted = rows.reverse().take(height - y);
            assert(emitted.drop_last() == rows.reverse().take(height - y - 1));
            assert(emitted.last() == row);
        }
    }
    proof {
        assert(rows.reverse().take(height as int) == rows.reverse());
    }
    text
}

} // verus!
