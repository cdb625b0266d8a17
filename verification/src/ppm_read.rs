//! Reading an image back from its text.

use crate::decimal::{
    decimal, is_digit, lemma_number_at_decimal, lemma_number_at_sound, number_at, read_decimal,
};
use crate::image::{is_grid, rows_of, Image};
use crate::ppm::{
    field_text, header_text, image_text, is_image, lines_text, pixel_text, row_text, Rgb8,
    CHANNEL_MAX, DIGIT_THREE, LETTER_P, NEWLINE, SPACE,
};
use vstd::prelude::*;

verus! {

/// `s` holds `t` from index `pos` on.
spec fn has_at(s: Seq<u8>, pos: int, t: Seq<u8>) -> bool {
    &&& 0 <= pos
    &&& pos + t.len() <= s.len()
    &&& s.subrange(pos, pos + t.len()) == t
}

/// The number of at most `limit` written at `pos` and followed by
/// `separator`, with the index just behind the separator.
spec fn field_at(s: Seq<u8>, pos: int, limit: nat, separator: u8) -> Option<(nat, int)> {
    match number_at(s, pos, limit) {
        Some((n, end)) => if end < s.len() && s[end] == separator {
            Some((n, end + 1))
        } else {
            None
        },
        None => None,
    }
}

/// The pixel whose line starts at `pos`, with the index just behind the line.
spec fn pixel_at(s: Seq<u8>, pos: int) -> Option<(Rgb8, int)> {
    match field_at(s, pos, CHANNEL_MAX as nat, SPACE) {
        Some((red, second)) => match field_at(s, second, CHANNEL_MAX as nat, SPACE) {
            Some((green, third)) => match field_at(s, third, CHANNEL_MAX as nat, NEWLINE) {
                Some((blue, behind)) => Some(
                    (Rgb8 { red: red as u8, green: green as u8, blue: blue as u8 }, behind),
                ),
                None => None,
            },
            None => None,
        },
        None => None,
    }
}

/// The `width` pixels whose lines start at `pos`, with the index just behind
/// the last of them.
spec fn row_at(s: Seq<u8>, pos: int, width: nat) -> Option<(Seq<Rgb8>, int)>
    decreases width,
{
    if width == 0 {
        Some((Seq::empty(), pos))
    } else {
        match row_at(s, pos, (width - 1) as nat) {
            Some((row, p)) => match pixel_at(s, p) {
                Some((pixel, q)) => Some((row.push(pixel), q)),
                None => None,
            },
            None => None,
        }
    }
}

/// The `count` rows of `width` pixels whose lines start at `pos`, in the order
/// of the text, with the index just behind the last of them.
spec fn lines_at(s: Seq<u8>, pos: int, width: nat, count: nat) -> Option<(Seq<Seq<Rgb8>>, int)>
    decreases count,
{
    if count == 0 {
        Some((Seq::empty(), pos))
    } else {
        match lines_at(s, pos, width, (count - 1) as nat) {
            Some((rows, p)) => match row_at(s, p, width) {
                Some((row, q)) => Some((rows.push(row), q)),
                None => None,
            },
            None => None,
        }
    }
}

/// The width and height that the header at the start of `s` gives, with the
/// index just behind the header.
spec fn header_at(s: Seq<u8>) -> Option<(nat, nat, int)> {
    if s.len() >= 3 && s[0] == LETTER_P && s[1] == DIGIT_THREE && s[2] == NEWLINE {
        match field_at(s, 3, s.len(), SPACE) {
            Some((width, second)) => match field_at(s, second, s.len(), NEWLINE) {
                Some((height, third)) => match field_at(s, third, CHANNEL_MAX as nat, NEWLINE) {
                    Some((most, behind)) => if most == CHANNEL_MAX {
                        Some((width, height, behind))
                    } else {
                        None
                    },
                    None => None,
                },
                None => None,
            },
            None => None,
        }
    } else {
        None
    }
}

/// The image that `s` is the text of, if it is the text of one.
spec fn parsed(s: Seq<u8>) -> Option<Seq<Seq<Rgb8>>> {
    match header_at(s) {
        Some((width, height, p)) => if width > 0 && height > 0 {
            match lines_at(s, p, width, height) {
                Some((rows, end)) => if end == s.len() {
                    Some(rows.reverse())
                } else {
                    None
                },
                None => None,
            }
        } else {
            None
        },
        None => None,
    }
}

/// A text that holds two pieces in a row holds each of them in its place.
proof fn lemma_has_at_split(s: Seq<u8>, pos: int, a: Seq<u8>, b: Seq<u8>)
    requires
        has_at(s, pos, a + b),
    ensures
        has_at(s, pos, a),
        has_at(s, pos + a.len(), b),
{
    let whole = s.subrange(pos, pos + (a + b).len());
    assert(s.subrange(pos, pos + a.len()) =~= whole.subrange(0, a.len() as int));
    assert(whole.subrange(0, a.len() as int) =~= a);
    assert(s.subrange(pos + a.len(), pos + a.len() + b.len()) =~= whole.subrange(
        a.len() as int,
        (a + b).len() as int,
    ));
    assert(whole.subrange(a.len() as int, (a + b).len() as int) =~= b);
}

/// What is read as a field is the text of that field.
proof fn lemma_field_at_sound(s: Seq<u8>, pos: int, limit: nat, separator: u8)
    requires
        field_at(s, pos, limit, separator) is Some,
    ensures
        ({
            let (n, end) = field_at(s, pos, limit, separator).unwrap();
            &&& 0 <= pos < end <= s.len()
            &&& s.subrange(pos, end) == field_text(n, separator)
            &&& n <= limit
        }),
{
    lemma_number_at_sound(s, pos, limit);
    let (n, end) = field_at(s, pos, limit, separator).unwrap();
    assert(s.subrange(pos, end) =~= s.subrange(pos, end - 1).push(separator));
}

/// The text of a field, with a separator that is no digit, is read as that
/// field.
proof fn lemma_field_at_text(s: Seq<u8>, pos: int, n: nat, limit: nat, separator: u8)
    requires
        has_at(s, pos, field_text(n, separator)),
        !is_digit(separator),
        n <= limit,
    ensures
        field_at(s, pos, limit, separator) == Some((n, pos + field_text(n, separator).len())),
{
    let len = decimal(n).len() as int;
    let whole = s.subrange(pos, pos + len + 1);
    assert(whole[len] == separator);
    assert(s[pos + len] == whole[len]);
    assert(s.subrange(pos, pos + len) =~= whole.subrange(0, len));
    assert(whole.subrange(0, len) =~= decimal(n));
    lemma_number_at_decimal(s, pos, n, limit);
}

/// What is read as a pixel is the line of that pixel.
proof fn lemma_pixel_at_sound(s: Seq<u8>, pos: int)
    requires
        pixel_at(s, pos) is Some,
    ensures
        ({
            let (pixel, end) = pixel_at(s, pos).unwrap();
            &&& 0 <= pos < end <= s.len()
            &&& s.subrange(pos, end) == pixel_text(pixel)
        }),
{
    let most = CHANNEL_MAX as nat;
    lemma_field_at_sound(s, pos, most, SPACE);
    let (red, second) = field_at(s, pos, most, SPACE).unwrap();
    lemma_field_at_sound(s, second, most, SPACE);
    let (green, third) = field_at(s, second, most, SPACE).unwrap();
    lemma_field_at_sound(s, third, most, NEWLINE);
    let (blue, behind) = field_at(s, third, most, NEWLINE).unwrap();
    assert(s.subrange(pos, behind) =~= s.subrange(pos, second) + s.subrange(second, third) + s.subrange(third, behind));
}

/// The line of a pixel is read as that pixel.
proof fn lemma_pixel_at_text(s: Seq<u8>, pos: int, pixel: Rgb8)
    requires
        has_at(s, pos, pixel_text(pixel)),
    ensures
        pixel_at(s, pos) == Some((pixel, pos + pixel_text(pixel).len())),
{
    let most = CHANNEL_MAX as nat;
    let red = field_text(pixel.red as nat, SPACE);
    let green = field_text(pixel.green as nat, SPACE);
    let blue = field_text(pixel.blue as nat, NEWLINE);
    lemma_has_at_split(s, pos, red + green, blue);
    lemma_has_at_split(s, pos, red, green);
    lemma_field_at_text(s, pos, pixel.red as nat, most, SPACE);
    lemma_field_at_text(s, pos + red.len(), pixel.green as nat, most, SPACE);
    lemma_field_at_text(s, pos + red.len() + green.len(), pixel.blue as nat, most, NEWLINE);
}

/// What is read as a row is the text of that row, and the row has the width
/// asked for.
proof fn lemma_row_at_sound(s: Seq<u8>, pos: int, width: nat)
    requires
        0 <= pos <= s.len(),
        row_at(s, pos, width) is Some,
    ensures
        ({
            let (row, end) = row_at(s, pos, width).unwrap();
            &&& row.len() == width
            &&& pos <= end <= s.len()
            &&& width > 0 ==> pos < end
            &&& s.subrange(pos, end) == row_text(row)
        }),
    decreases width,
{
    if width == 0 {
        assert(s.subrange(pos, pos) =~= Seq::<u8>::empty());
    } else {
        lemma_row_at_sound(s, pos, (width - 1) as nat);
        let (head, p) = row_at(s, pos, (width - 1) as nat).unwrap();
        lemma_pixel_at_sound(s, p);
        let (pixel, q) = pixel_at(s, p).unwrap();
        let row = head.push(pixel);
        assert(row.drop_last() =~= head);
        assert(s.subrange(pos, q) =~= s.subrange(pos, p) + s.subrange(p, q));
    }
}

/// The text of a row is read as that row.
proof fn lemma_row_at_text(s: Seq<u8>, pos: int, row: Seq<Rgb8>)
    requires
        has_at(s, pos, row_text(row)),
    ensures
        row_at(s, pos, row.len()) == Some((row, pos + row_text(row).len())),
    decreases row.len(),
{
    if row.len() > 0 {
        let head = row.drop_last();
        lemma_has_at_split(s, pos, row_text(head), pixel_text(row.last()));
        lemma_row_at_text(s, pos, head);
        lemma_pixel_at_text(s, pos + row_text(head).len(), row.last());
        assert(head.push(row.last()) =~= row);
    } else {
        assert(row =~= Seq::<Rgb8>::empty());
    }
}

/// What is read as rows is the text of those rows, and there are as many, of
/// such a width, as were asked for.
proof fn lemma_lines_at_sound(s: Seq<u8>, pos: int, width: nat, count: nat)
    requires
        0 <= pos <= s.len(),
        lines_at(s, pos, width, count) is Some,
    ensures
        ({
            let (rows, end) = lines_at(s, pos, width, count).unwrap();
            &&& rows.len() == count
            &&& forall|y: int| 0 <= y < rows.len() ==> (#[trigger] rows[y]).len() == width
            &&& pos <= end <= s.len()
            &&& s.subrange(pos, end) == lines_text(rows)
        }),
    decreases count,
{
    if count == 0 {
        assert(s.subrange(pos, pos) =~= Seq::<u8>::empty());
    } else {
        lemma_lines_at_sound(s, pos, width, (count - 1) as nat);
        let (head, p) = lines_at(s, pos, width, (count - 1) as nat).unwrap();
        lemma_row_at_sound(s, p, width);
        let (row, q) = row_at(s, p, width).unwrap();
        let rows = head.push(row);
        assert(rows.drop_last() =~= head);
        assert(s.subrange(pos, q) =~= s.subrange(pos, p) + s.subrange(p, q));
    }
}

/// The text of rows of one width is read as those rows.
proof fn lemma_lines_at_text(s: Seq<u8>, pos: int, width: nat, rows: Seq<Seq<Rgb8>>)
    requires
        has_at(s, pos, lines_text(rows)),
        forall|y: int| 0 <= y < rows.len() ==> (#[trigger] rows[y]).len() == width,
    ensures
        lines_at(s, pos, width, rows.len()) == Some((rows, pos + lines_text(rows).len())),
    decreases rows.len(),
{
    if rows.len() > 0 {
        let head = rows.drop_last();
        lemma_has_at_split(s, pos, lines_text(head), row_text(rows.last()));
        lemma_lines_at_text(s, pos, width, head);
        lemma_row_at_text(s, pos + lines_text(head).len(), rows.last());
        assert(head.push(rows.last()) =~= rows);
    } else {
        assert(rows =~= Seq::<Seq<Rgb8>>::empty());
    }
}

/// The lines of a row take at least as many bytes as the row has pixels.
proof fn lemma_row_text_len(row: Seq<Rgb8>)
    ensures
        row_text(row).len() >= row.len(),
    decreases row.len(),
{
    if row.len() > 0 {
        lemma_row_text_len(row.drop_last());
    }
}

/// The lines of rows that are not empty take at least as many bytes as there
/// are rows, and at least as many as the last row has pixels.
proof fn lemma_lines_text_len(rows: Seq<Seq<Rgb8>>)
    requires
        forall|y: int| 0 <= y < rows.len() ==> (#[trigger] rows[y]).len() > 0,
    ensures
        lines_text(rows).len() >= rows.len(),
        rows.len() > 0 ==> lines_text(rows).len() >= rows.last().len(),
    decreases rows.len(),
{
    if rows.len() > 0 {
        lemma_lines_text_len(rows.drop_last());
        lemma_row_text_len(rows.last());
    }
}

/// What is read as a header is the header of the sizes read.
proof fn lemma_header_at_sound(s: Seq<u8>)
    requires
        header_at(s) is Some,
    ensures
        ({
            let (width, height, end) = header_at(s).unwrap();
            &&& 0 <= end <= s.len()
            &&& s.subrange(0, end) == header_text(width, height)
        }),
{
    let most = CHANNEL_MAX as nat;
    lemma_field_at_sound(s, 3, s.len(), SPACE);
    let (width, second) = field_at(s, 3, s.len(), SPACE).unwrap();
    lemma_field_at_sound(s, second, s.len(), NEWLINE);
    let (height, third) = field_at(s, second, s.len(), NEWLINE).unwrap();
    lemma_field_at_sound(s, third, most, NEWLINE);
    let (_, behind) = field_at(s, third, most, NEWLINE).unwrap();
    assert(s.subrange(0, 3) =~= seq![LETTER_P, DIGIT_THREE, NEWLINE]);
    assert(s.subrange(0, behind) =~= s.subrange(0, 3) + s.subrange(3, second) + s.subrange(second, third)
        + s.subrange(third, behind));
}

/// A header is read as its two sizes, where neither exceeds the length of the
/// text.
proof fn lemma_header_at_text(s: Seq<u8>, width: nat, height: nat)
    requires
        has_at(s, 0, header_text(width, height)),
        width <= s.len(),
        height <= s.len(),
    ensures
        header_at(s) == Some((width, height, header_text(width, height).len() as int)),
{
    let most = CHANNEL_MAX as nat;
    let magic = seq![LETTER_P, DIGIT_THREE, NEWLINE];
    let w = field_text(width, SPACE);
    let h = field_text(height, NEWLINE);
    let m = field_text(most, NEWLINE);
    lemma_has_at_split(s, 0, magic + w + h, m);
    lemma_has_at_split(s, 0, magic + w, h);
    lemma_has_at_split(s, 0, magic, w);
    assert(s.subrange(0, 3)[0] == s[0]);
    assert(s.subrange(0, 3)[1] == s[1]);
    assert(s.subrange(0, 3)[2] == s[2]);
    lemma_field_at_text(s, 3, width, s.len(), SPACE);
    lemma_field_at_text(s, 3 + w.len() as int, height, s.len(), NEWLINE);
    lemma_field_at_text(s, 3 + w.len() as int + h.len() as int, most, most, NEWLINE);
}

/// Whatever is read from a text is an image, and the text is that image's.
proof fn lemma_parsed_sound(s: Seq<u8>)
    requires
        parsed(s) is Some,
    ensures
        is_image(parsed(s).unwrap()),
        image_text(parsed(s).unwrap()) == s,
{
    lemma_header_at_sound(s);
    let (width, height, p) = header_at(s).unwrap();
    lemma_lines_at_sound(s, p, width, height);
    let (rows, end) = lines_at(s, p, width, height).unwrap();
    let image = rows.reverse();
    assert(image.reverse() =~= rows);
    assert(image[0] == rows[rows.len() - 1]);
    assert(s =~= s.subrange(0, p) + s.subrange(p, end));
}

/// The text of an image reads back as that image.
proof fn lemma_parsed_text(image: Seq<Seq<Rgb8>>)
    requires
        is_image(image),
    ensures
        parsed(image_text(image)) == Some(image),
{
    let s = image_text(image);
    let width = image[0].len();
    let height = image.len();
    let rows = image.reverse();
    let header = header_text(width, height);
    let start = header.len() as int;
    assert(rows.last() == image[0]);
    assert(rows.reverse() =~= image);
    assert(s == header + lines_text(rows));
    assert(has_at(s, 0, header)) by {
        assert(s.subrange(0, start) =~= header);
    }
    assert(has_at(s, start, lines_text(rows))) by {
        assert(s.subrange(start, start + lines_text(rows).len()) =~= lines_text(rows));
    }
    assert(width <= s.len() && height <= s.len()) by {
        lemma_lines_text_len(rows);
    }
    lemma_header_at_text(s, width, height);
    lemma_lines_at_text(s, start, width, rows);
    assert(header_at(s) == Some((width, height, start)));
    assert(lines_at(s, start, width, height) == Some((rows, s.len() as int)));
}

/// Two images with the same text are the same image.
pub proof fn lemma_image_text_injective(a: Seq<Seq<Rgb8>>, b: Seq<Seq<Rgb8>>)
    requires
        is_image(a),
        is_image(b),
        image_text(a) == image_text(b),
    ensures
        a == b,
{
    lemma_parsed_text(a);
    lemma_parsed_text(b);
}

/// A text that does not read as an image is the text of no image.
proof fn lemma_unparsed_is_no_text(s: Seq<u8>)
    requires
        parsed(s) is None,
    ensures
        forall|rows: Seq<Seq<Rgb8>>| #[trigger] is_image(rows) ==> image_text(rows) != s,
{
    assert forall|rows: Seq<Seq<Rgb8>>| #[trigger] is_image(rows) implies image_text(rows)
        != s by {
        if image_text(rows) == s {
            lemma_parsed_text(rows);
        }
    }
}

/// A row that cannot be read up to some width cannot be read beyond it.
proof fn lemma_row_at_fails(s: Seq<u8>, pos: int, short: nat, width: nat)
    requires
        short <= width,
        row_at(s, pos, short) is None,
    ensures
        row_at(s, pos, width) is None,
    decreases width,
{
    if short < width {
        lemma_row_at_fails(s, pos, short, (width - 1) as nat);
    }
}

/// Rows that cannot be read up to some count cannot be read beyond it.
proof fn lemma_lines_at_fails(s: Seq<u8>, pos: int, width: nat, short: nat, count: nat)
    requires
        short <= count,
        lines_at(s, pos, width, short) is None,
    ensures
        lines_at(s, pos, width, count) is None,
    decreases count,
{
    if short < count {
        lemma_lines_at_fails(s, pos, width, short, (count - 1) as nat);
    }
}

/// Reads a number of at most `limit` at `pos` and the `separator` behind it.
fn read_field(text: &[u8], pos: usize, limit: usize, separator: u8) -> (r: Option<(usize, usize)>)
    requires
        pos <= text@.len(),
    ensures
        match r {
            Some((n, end)) => end <= text@.len() && field_at(
                text@,
                pos as int,
                limit as nat,
                separator,
            ) == Some((n as nat, end as int)),
            None => field_at(text@, pos as int, limit as nat, separator) is None,
        },
{
    match read_decimal(text, pos, limit) {
        Some((n, end)) => {
            proof {
                lemma_number_at_sound(text@, pos as int, limit as nat);
            }
            if end < text.len() && text[end] == separator {
                Some((n, end + 1))
            } else {
                None
            }
        },
        None => None,
    }
}

/// Reads one pixel's line at `pos`.
fn read_pixel(text: &[u8], pos: usize) -> (r: Option<(Rgb8, usize)>)
    requires
        pos <= text@.len(),
    ensures
        match r {
            Some((pixel, end)) => end <= text@.len() && pixel_at(text@, pos as int) == Some(
                (pixel, end as int),
            ),
            None => pixel_at(text@, pos as int) is None,
        },
{
    let most = CHANNEL_MAX as usize;
    let (red, second) = match read_field(text, pos, most, SPACE) {
        Some(field) => field,
        None => { return None; },
    };
    let (green, third) = match read_field(text, second, most, SPACE) {
        Some(field) => field,
        None => { return None; },
    };
    let (blue, behind) = match read_field(text, third, most, NEWLINE) {
        Some(field) => field,
        None => { return None; },
    };
    proof {
        lemma_field_at_sound(text@, pos as int, most as nat, SPACE);
        lemma_field_at_sound(text@, second as int, most as nat, SPACE);
        lemma_field_at_sound(text@, third as int, most as nat, NEWLINE);
    }
    Some((Rgb8 { red: red as u8, green: green as u8, blue: blue as u8 }, behind))
}

/// Reads the lines of `width` pixels from `pos` on.
fn read_row(text: &[u8], pos: usize, width: usize) -> (r: Option<(Vec<Rgb8>, usize)>)
    requires
        pos <= text@.len(),
    ensures
        match r {
            Some((row, end)) => end <= text@.len() && row_at(text@, pos as int, width as nat)
                == Some((row@, end as int)),
            None => row_at(text@, pos as int, width as nat) is None,
        },
{
    let mut row: Vec<Rgb8> = Vec::new();
    let mut at: usize = pos;
    let mut x: usize = 0;
    while x < width
        invariant
            x <= width,
            at <= text@.len(),
            row_at(text@, pos as int, x as nat) == Some((row@, at as int)),
        decreases width - x,
    {
        match read_pixel(text, at) {
            Some((pixel, end)) => {
                row.push(pixel);
                at = end;
            },
            None => {
                proof {
                    lemma_row_at_fails(text@, pos as int, (x + 1) as nat, width as nat);
                }
                return None;
            },
        }
        x += 1;
    }
    Some((row, at))
}

/// Reads `count` rows of `width` pixels from `pos` on, in the order of the text.
fn read_lines(text: &[u8], pos: usize, width: usize, count: usize) -> (r: Option<
    (Vec<Vec<Rgb8>>, usize),
>)
    requires
        pos <= text@.len(),
    ensures
        match r {
            Some((lines, end)) => end <= text@.len() && lines_at(
                text@,
                pos as int,
                width as nat,
                count as nat,
            ) == Some((rows_of(lines@), end as int)),
            None => lines_at(text@, pos as int, width as nat, count as nat) is None,
        },
{
    let mut lines: Vec<Vec<Rgb8>> = Vec::new();
    let mut at: usize = pos;
    let mut y: usize = 0;
    assert(rows_of(lines@) =~= Seq::<Seq<Rgb8>>::empty());
    while y < count
        invariant
            y <= count,
            at <= text@.len(),
            lines_at(text@, pos as int, width as nat, y as nat) == Some(
                (rows_of(lines@), at as int),
            ),
        decreases count - y,
    {
        let ghost before = rows_of(lines@);
        match read_row(text, at, width) {
            Some((row, end)) => {
                lines.push(row);
                at = end;
                assert(rows_of(lines@) =~= before.push(row@));
            },
            None => {
                proof {
                    lemma_lines_at_fails(
                        text@,
                        pos as int,
                        width as nat,
                        (y + 1) as nat,
                        count as nat,
                    );
                }
                return None;
            },
        }
        y += 1;
    }
    Some((lines, at))
}

/// Reads the header at the start of `text`.
fn read_header(text: &[u8]) -> (r: Option<(usize, usize, usize)>)
    ensures
        match r {
            Some((width, height, end)) => end <= text@.len() && header_at(text@) == Some(
                (width as nat, height as nat, end as int),
            ),
            None => header_at(text@) is None,
        },
{
    let len = text.len();
    if len < 3 || text[0] != LETTER_P || text[1] != DIGIT_THREE || text[2] != NEWLINE {
        return None;
    }
    let (width, second) = match read_field(text, 3, len, SPACE) {
        Some(field) => field,
        None => { return None; },
    };
    let (height, third) = match read_field(text, second, len, NEWLINE) {
        Some(field) => field,
        None => { return None; },
    };
    let (most, behind) = match read_field(text, third, CHANNEL_MAX as usize, NEWLINE) {
        Some(field) => field,
        None => { return None; },
    };
    if most != CHANNEL_MAX as usize {
        return None;
    }
    Some((width, height, behind))
}

/// The rows of the image that `text` is the text of, in storage order.
fn read_image(text: &[u8]) -> (r: Option<Vec<Vec<Rgb8>>>)
    ensures
        match r {
            Some(lines) => parsed(text@) == Some(rows_of(lines@)),
            None => parsed(text@) is None,
        },
{
    let (width, height, start) = match read_header(text) {
        Some(header) => header,
        None => { return None; },
    };
    if width == 0 || height == 0 {
        return None;
    }
    let (mut written, end) = match read_lines(text, start, width, height) {
        Some(lines) => lines,
        None => { return None; },
    };
    if end != text.len() {
        return None;
    }
    let ghost in_text = written@;
    let mut lines: Vec<Vec<Rgb8>> = Vec::new();
    while written.len() > 0
        invariant
            written@.len() + lines@.len() == in_text.len(),
            written@ == in_text.take(written@.len() as int),
            forall|j: int|
                0 <= j < lines@.len() ==> #[trigger] lines@[j] == in_text[in_text.len() - 1 - j],
        decreases written@.len(),
    {
        match written.pop() {
            Some(line) => {
                lines.push(line);
            },
            None => {},
        }
    }
    assert(rows_of(lines@) =~= rows_of(in_text).reverse());
    Some(lines)
}

/// The header determines both dimensions.
pub proof fn lemma_header_text_injective(w1: nat, h1: nat, w2: nat, h2: nat)
    requires
        header_text(w1, h1) == header_text(w2, h2),
    ensures
        w1 == w2,
        h1 == h2,
{
    let s = header_text(w1, h1);
    let limit = w1 + w2 + h1 + h2;
    let magic = seq![LETTER_P, DIGIT_THREE, NEWLINE];
    let most = field_text(CHANNEL_MAX as nat, NEWLINE);
    assert(s.subrange(0, s.len() as int) =~= s);
    lemma_has_at_split(s, 0, magic + field_text(w1, SPACE) + field_text(h1, NEWLINE), most);
    lemma_has_at_split(s, 0, magic + field_text(w1, SPACE), field_text(h1, NEWLINE));
    lemma_has_at_split(s, 0, magic, field_text(w1, SPACE));
    lemma_has_at_split(s, 0, magic + field_text(w2, SPACE) + field_text(h2, NEWLINE), most);
    lemma_has_at_split(s, 0, magic + field_text(w2, SPACE), field_text(h2, NEWLINE));
    lemma_has_at_split(s, 0, magic, field_text(w2, SPACE));
    lemma_field_at_text(s, 3, w1, limit, SPACE);
    lemma_field_at_text(s, 3, w2, limit, SPACE);
    lemma_field_at_text(s, 3 + field_text(w1, SPACE).len() as int, h1, limit, NEWLINE);
    lemma_field_at_text(s, 3 + field_text(w2, SPACE).len() as int, h2, limit, NEWLINE);
}

/// Reads an image back from its text. The answer is `Some` exactly for the
/// texts that `encode` writes, and then holds the image that was written.
pub fn decode(text: &[u8]) -> (r: Option<Image<Rgb8>>)
    ensures
        r matches Some(image) ==> is_image(image@) && image_text(image@) == text@,
        forall|rows: Seq<Seq<Rgb8>>|
            is_image(rows) && #[trigger] image_text(rows) == text@ ==> (r matches Some(image)
                && image@ == rows),
{
    match read_image(text) {
        Some(lines) => {
            proof {
                lemma_parsed_sound(text@);
                let rows = rows_of(lines@);
                assert(is_grid(rows, rows[0].len(), rows.len()));
                assert forall|other: Seq<Seq<Rgb8>>|
                    is_image(other) && #[trigger] image_text(other) == text@ implies other
                    == rows by {
                    lemma_image_text_injective(other, rows);
                }
            }
            Image::from_rows(lines)
        },
        None => {
            proof {
                lemma_unparsed_is_no_text(text@);
            }
            None
        },
    }
}

} // verus!
