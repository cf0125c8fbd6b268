//! The font: glyph cells looked up through the character map, colored, and laid
//! out as one strip of printable ASCII, with a solid cell at the end.

use vstd::prelude::*;
use crate::game::data::Image;
use crate::text;
use crate::text::{chars_of, parse_number, split, split_lines, split_once, trim, Text};
use crate::worldgen::graphics::Indexed;

verus! {

/// The cells of the strip: 95 characters and the solid one.
pub const CELLS: usize = 96;

/// A character and its code.
#[derive(Clone, Copy)]
pub struct Code {
    pub ch: char,
    pub code: usize,
}

/// The entry of a line such as `'A' = BB`, without its comment: one character
/// in single quotes, and a code of two hexadecimal digits.
pub open spec fn entry_of(line: Seq<char>) -> Option<Code> {
    match text::cut_once(text::trimmed(text::cut(line, "@"@)[0]), "="@) {
        None => None,
        Some((l, r)) => {
            let (lhs, rhs) = (text::trimmed(l), text::trimmed(r));
            if lhs.len() == 3 && lhs[0] == '\'' && lhs[2] == '\'' && rhs.len() == 2 {
                match text::number(rhs, 16, usize::MAX as int) {
                    Some(v) => Some(Code { ch: lhs[1], code: v as usize }),
                    None => None,
                }
            } else {
                None
            }
        },
    }
}

/// The entries of the first `n` lines.
pub open spec fn entries_of(ls: Seq<Seq<char>>, n: int) -> Seq<Code>
    decreases n,
{
    if n <= 0 {
        seq![]
    } else {
        match entry_of(ls[n - 1]) {
            Some(c) => entries_of(ls, n - 1).push(c),
            None => entries_of(ls, n - 1),
        }
    }
}

/// The entries of a character map.
pub open spec fn charmap(s: Seq<char>) -> Seq<Code> {
    entries_of(text::lines(s), text::lines(s).len() as int)
}

/// The first code of a character, from `from` on.
pub open spec fn first_code(codes: Seq<Code>, ch: char, from: int) -> Option<usize>
    decreases codes.len() - from,
{
    if from < 0 || from >= codes.len() {
        None
    } else if codes[from].ch == ch {
        Some(codes[from].code)
    } else {
        first_code(codes, ch, from + 1)
    }
}

/// The code of a character: a blank is 0, others are looked up.
pub open spec fn code_for(codes: Seq<Code>, ch: char) -> Option<usize> {
    if ch == ' ' {
        Some(0)
    } else {
        first_code(codes, ch, 0)
    }
}

/// The bytes among the first `n` pieces.
pub open spec fn bytes_among(parts: Seq<Seq<char>>, n: int) -> Seq<u8>
    decreases n,
{
    if n <= 0 {
        seq![]
    } else {
        match text::number(text::trimmed(parts[n - 1]), 10, 255) {
            Some(v) => bytes_among(parts, n - 1).push(v as u8),
            None => bytes_among(parts, n - 1),
        }
    }
}

/// The table of advance widths in a source file.
pub open spec fn width_table(source: Seq<char>) -> Option<Seq<u8>> {
    match text::cut_once(source, "gFontNormalLatinGlyphWidths[] = {"@) {
        None => None,
        Some((_, after)) => match text::cut_once(after, "};"@) {
            None => None,
            Some((table, _)) => Some(
                bytes_among(text::cut(table, ","@), text::cut(table, ","@).len() as int),
            ),
        },
    }
}

/// The advance width of a code: at least 3, and 6 where the table ends.
pub open spec fn advance(widths: Seq<u8>, code: usize) -> u8 {
    if code >= widths.len() {
        6
    } else if widths[code as int] < 3 {
        3
    } else {
        widths[code as int]
    }
}

/// The character of a cell.
pub open spec fn cell_char(slot: int) -> char {
    (slot + 32) as u32 as char
}

/// The colors of the sheet: nothing, text, shadow.
pub open spec fn ink(v: u8, channel: int) -> u8 {
    if v == 1 {
        if channel == 0 || channel == 1 {
            96
        } else if channel == 2 {
            104
        } else {
            255
        }
    } else if v == 2 {
        if channel == 0 || channel == 1 {
            208
        } else if channel == 2 {
            216
        } else {
            255
        }
    } else {
        0
    }
}

/// Where a pixel of a code's glyph lies in the sheet: cells of 16 by 16 pixels.
pub open spec fn glyph_place(sheet_w: int, code: int, x: int, y: int) -> int {
    let cols = sheet_w / 16;
    (code / cols * 16 + y) * sheet_w + code % cols * 16 + x
}

/// Whether the sheet holds a pixel of a cell, where it has a glyph.
pub open spec fn is_held(
    codes: Seq<Code>,
    sheet: Seq<u8>,
    sheet_w: int,
    slot: int,
    x: int,
    y: int,
) -> bool {
    code_for(codes, cell_char(slot)) matches Some(c) ==> glyph_place(sheet_w, c as int, x, y)
        < sheet.len()
}

/// Whether the sheet holds the glyph of every character of the strip.
pub open spec fn is_complete(codes: Seq<Code>, sheet: Seq<u8>, sheet_w: int) -> bool {
    &&& sheet_w >= 16
    &&& forall|slot: int, x: int, y: int|
        0 <= slot < 95 && 0 <= x < 16 && 0 <= y < 16 ==> #[trigger] is_held(
            codes,
            sheet,
            sheet_w,
            slot,
            x,
            y,
        )
}

/// A byte of the strip.
pub open spec fn strip_byte(codes: Seq<Code>, sheet: Seq<u8>, sheet_w: int, i: int) -> u8 {
    let y = i / 6144;
    let slot = i / 64 % 96;
    let x = i / 4 % 16;
    if slot == 95 {
        255
    } else {
        match code_for(codes, cell_char(slot)) {
            None => 0,
            Some(c) => ink(sheet[glyph_place(sheet_w, c as int, x, y)], i % 4),
        }
    }
}

/// The strip: 96 cells of 16 by 16 pixels in a row.
pub open spec fn strip(codes: Seq<Code>, sheet: Seq<u8>, sheet_w: int) -> Seq<u8> {
    Seq::new(98304, |i: int| strip_byte(codes, sheet, sheet_w, i))
}

/// The advance width of each cell.
pub open spec fn strip_widths(codes: Seq<Code>, widths: Seq<u8>) -> Seq<u8> {
    Seq::new(
        96,
        |slot: int|
            if slot == 95 {
                16
            } else {
                match code_for(codes, cell_char(slot)) {
                    None => 0,
                    Some(c) => advance(widths, c),
                }
            },
    )
}

fn line_entry(line: &Text) -> (r: Option<Code>)
    ensures
        r == entry_of(line@),
{
    proof {
        reveal_strlit("@");
    }
    let parts = split(line, "@");
    assert(parts@[0]@ == text::texts(parts@)[0]);
    let l = trim(&parts[0]);
    match split_once(&l, "=") {
        None => None,
        Some((a, b)) => {
            let (lhs, rhs): (Text, Text) = (trim(&a), trim(&b));
            if lhs.len() == 3 && lhs[0] == '\'' && lhs[2] == '\'' && rhs.len() == 2 {
                match parse_number(&rhs, 16, usize::MAX as u64) {
                    Some(v) => Some(Code { ch: lhs[1], code: v as usize }),
                    None => None,
                }
            } else {
                None
            }
        },
    }
}

/// The entries of a character map.
pub fn parse_charmap(s: &str) -> (out: Vec<Code>)
    ensures
        out@ == charmap(s@),
{
    let ls = split_lines(&chars_of(s));
    let ghost all = text::lines(s@);
    let mut out: Vec<Code> = Vec::new();
    let mut i: usize = 0;
    while i < ls.len()
        invariant
            i <= ls@.len(),
            text::texts(ls@) == all,
            out@ == entries_of(all, i as int),
        decreases ls.len() - i,
    {
        assert(all[i as int] == ls@[i as int]@);
        if let Some(c) = line_entry(&ls[i]) {
            out.push(c);
        }
        i += 1;
    }
    assert(all.len() == ls@.len());
    out
}

/// The advance widths of a source file, where it has their table.
pub fn parse_widths(source: &str) -> (r: Option<Vec<u8>>)
    ensures
        match width_table(source@) {
            Some(w) => r is Some && r->0@ == w,
            None => r is None,
        },
{
    let after = match split_once(&chars_of(source), "gFontNormalLatinGlyphWidths[] = {") {
        Some((_, b)) => b,
        None => return None,
    };
    let table = match split_once(&after, "};") {
        Some((a, _)) => a,
        None => return None,
    };
    proof {
        reveal_strlit(",");
    }
    let parts = split(&table, ",");
    let ghost all = text::cut(table@, ","@);
    let mut out: Vec<u8> = Vec::new();
    let mut i: usize = 0;
    while i < parts.len()
        invariant
            i <= parts@.len(),
            text::texts(parts@) == all,
            out@ == bytes_among(all, i as int),
        decreases parts.len() - i,
    {
        assert(all[i as int] == parts@[i as int]@);
        if let Some(v) = parse_number(&trim(&parts[i]), 10, 255) {
            out.push(v as u8);
        }
        i += 1;
    }
    assert(all.len() == parts@.len());
    Some(out)
}

fn find_code(codes: &Vec<Code>, ch: char) -> (r: Option<usize>)
    ensures
        r == code_for(codes@, ch),
{
    if ch == ' ' {
        return Some(0);
    }
    let mut i: usize = 0;
    while i < codes.len()
        invariant
            i <= codes@.len(),
            ch != ' ',
            first_code(codes@, ch, 0) == first_code(codes@, ch, i as int),
        decreases codes.len() - i,
    {
        if codes[i].ch == ch {
            return Some(codes[i].code);
        }
        i += 1;
    }
    None
}

fn glyph_at(sheet_w: u32, code: usize, x: usize, y: usize) -> (at: u128)
    requires
        sheet_w >= 16,
        x < 16,
        y < 16,
    ensures
        at == glyph_place(sheet_w as int, code as int, x as int, y as int),
{
    let cols: usize = (sheet_w / 16) as usize;
    proof {
        let (c, k) = (code as int, cols as int);
        assert(0 <= c / k <= c) by (nonlinear_arith)
            requires
                c >= 0,
                k > 0,
        ;
        assert(0 <= c % k < k) by (nonlinear_arith)
            requires
                k > 0,
        ;
        let row = c / k * 16 + y;
        let w = sheet_w as int;
        assert(0 <= row * w <= 0x10_0000_0000_0000_0010 * 0xffff_ffff) by (nonlinear_arith)
            requires
                0 <= row <= 0x10_0000_0000_0000_0010,
                0 <= w <= 0xffff_ffff,
        ;
    }
    ((code / cols) as u128 * 16 + y as u128) * sheet_w as u128 + (code % cols) as u128 * 16
        + x as u128
}

/// The codes of the strip's characters.
fn strip_codes(codes: &Vec<Code>) -> (out: Vec<Option<usize>>)
    ensures
        out@.len() == 95,
        forall|slot: int| 0 <= slot < 95 ==> #[trigger] out@[slot] == code_for(
            codes@,
            cell_char(slot),
        ),
{
    let mut out: Vec<Option<usize>> = Vec::new();
    let mut slot: u8 = 0;
    while slot < 95
        invariant
            slot <= 95,
            out@.len() == slot,
            forall|k: int| 0 <= k < slot ==> #[trigger] out@[k] == code_for(codes@, cell_char(k)),
        decreases 95 - slot,
    {
        let ch: char = (slot + 32) as char;
        assert(ch == cell_char(slot as int));
        out.push(find_code(codes, ch));
        slot += 1;
    }
    out
}

fn ink_of(v: u8, channel: usize) -> (r: u8)
    ensures
        r == ink(v, channel as int),
{
    if v == 1 {
        if channel == 0 || channel == 1 {
            96
        } else if channel == 2 {
            104
        } else {
            255
        }
    } else if v == 2 {
        if channel == 0 || channel == 1 {
            208
        } else if channel == 2 {
            216
        } else {
            255
        }
    } else {
        0
    }
}

/// Bake the strip, where the sheet holds every glyph of it.
pub fn bake_font(codes: &Vec<Code>, widths: &Vec<u8>, sheet: &Indexed) -> (r: Option<
    (Image, Vec<u8>),
>)
    ensures
        match r {
            Some((image, advances)) => is_complete(codes@, sheet.pixels@, sheet.w as int)
                && image.rgba@ == strip(codes@, sheet.pixels@, sheet.w as int) && image.w == 1536
                && image.h == 16 && advances@ == strip_widths(codes@, widths@),
            None => !is_complete(codes@, sheet.pixels@, sheet.w as int),
        },
{
    if sheet.w < 16 {
        return None;
    }
    let wanted = strip_codes(codes);
    let len: usize = sheet.pixels.len();
    let mut rgba: Vec<u8> = Vec::new();
    let mut p: usize = 0;
    while p < 24576
        invariant
            p <= 24576,
            sheet.w >= 16,
            len == sheet.pixels@.len(),
            wanted@.len() == 95,
            forall|slot: int| 0 <= slot < 95 ==> #[trigger] wanted@[slot] == code_for(
                codes@,
                cell_char(slot),
            ),
            rgba@ == strip(codes@, sheet.pixels@, sheet.w as int).take(4 * p),
            forall|k: int| 0 <= k < p ==> #[trigger] pixel_held(
                codes@,
                sheet.pixels@,
                sheet.w as int,
                k,
            ),
        decreases 24576 - p,
    {
        let (y, slot, x): (usize, usize, usize) = (p / 1536, p / 16 % 96, p % 16);
        let ghost before = rgba@;
        if slot == 95 {
            rgba.push(255);
            rgba.push(255);
            rgba.push(255);
            rgba.push(255);
        } else if let Some(code) = wanted[slot] {
            let at: u128 = glyph_at(sheet.w, code, x, y);
            if at >= len as u128 {
                assert(!is_held(
                    codes@,
                    sheet.pixels@,
                    sheet.w as int,
                    slot as int,
                    x as int,
                    y as int,
                ));
                return None;
            }
            let v: u8 = sheet.pixels[at as usize];
            rgba.push(ink_of(v, 0));
            rgba.push(ink_of(v, 1));
            rgba.push(ink_of(v, 2));
            rgba.push(ink_of(v, 3));
        } else {
            rgba.push(0);
            rgba.push(0);
            rgba.push(0);
            rgba.push(0);
        }
        assert(pixel_held(codes@, sheet.pixels@, sheet.w as int, p as int));
        let ghost whole = strip(codes@, sheet.pixels@, sheet.w as int);
        assert forall|i: int| 0 <= i < 4 * (p + 1) implies #[trigger] rgba@[i] == whole[i] by {
            if i < 4 * p {
                assert(rgba@[i] == before[i]);
                assert(before[i] == whole.take(4 * p)[i]);
            } else {
                assert(i / 6144 == y && i / 64 % 96 == slot && i / 4 % 16 == x);
            }
        }
        assert(rgba@ =~= whole.take(4 * (p + 1)));
        p += 1;
    }
    assert(rgba@ =~= strip(codes@, sheet.pixels@, sheet.w as int));
    assert(is_complete(codes@, sheet.pixels@, sheet.w as int)) by {
        assert forall|slot: int, x: int, y: int|
            0 <= slot < 95 && 0 <= x < 16 && 0 <= y < 16 implies #[trigger] is_held(
            codes@,
            sheet.pixels@,
            sheet.w as int,
            slot,
            x,
            y,
        ) by {
            let k = y * 1536 + slot * 16 + x;
            assert(k / 1536 == y && k / 16 % 96 == slot && k % 16 == x);
            assert(pixel_held(codes@, sheet.pixels@, sheet.w as int, k));
        }
    }
    let mut advances: Vec<u8> = Vec::new();
    let mut s: usize = 0;
    while s < 95
        invariant
            s <= 95,
            wanted@.len() == 95,
            forall|slot: int| 0 <= slot < 95 ==> #[trigger] wanted@[slot] == code_for(
                codes@,
                cell_char(slot),
            ),
            advances@ == strip_widths(codes@, widths@).take(s as int),
        decreases 95 - s,
    {
        let w: u8 = match wanted[s] {
            None => 0,
            Some(code) => if code >= widths.len() {
                6
            } else if widths[code] < 3 {
                3
            } else {
                widths[code]
            },
        };
        advances.push(w);
        assert(advances@ =~= strip_widths(codes@, widths@).take(s + 1));
        s += 1;
    }
    advances.push(16);
    assert(advances@ =~= strip_widths(codes@, widths@));
    Some((Image { rgba, w: CELLS as u32 * 16, h: 16 }, advances))
}

/// Whether the sheet holds a pixel of the strip.
spec fn pixel_held(codes: Seq<Code>, sheet: Seq<u8>, sheet_w: int, k: int) -> bool {
    let (y, slot, x) = (k / 1536, k / 16 % 96, k % 16);
    slot < 95 ==> is_held(codes, sheet, sheet_w, slot, x, y)
}

} // verus!
