//! The start menu, laid out in logical pixels from the left edge of its window:
//! glyphs of the font strip and solid fills from the strip's extra white cell.

use vstd::prelude::*;
use crate::types::{Rgba, TextureId};

verus! {

/// Slot of the solid-white 16x16 cell behind the glyphs of the font strip.
pub const SOLID: u8 = 95;

pub const LAYER_UI: i16 = 100;

/// The height of a row of the menu.
pub const ROW: u32 = 16;

/// Where the text of a row starts.
pub const TEXT_X: u32 = 10;

/// A row of the menu: its label in ASCII, and whether it can be chosen.
pub struct Item {
    pub label: Vec<u8>,
    pub enabled: bool,
}

/// Something to draw, at a place in the menu's window.
#[derive(Clone, Copy, Debug, PartialEq, Eq)]
pub enum Piece {
    Glyph { slot: u8, x: i32, y: i32, tint: Rgba },
    Solid { x: i32, y: i32, w: u32, h: u32, tint: Rgba },
}

pub open spec fn white() -> Rgba {
    Rgba { r: 255, g: 255, b: 255, a: 255 }
}

pub open spec fn dimmed() -> Rgba {
    Rgba { r: 255, g: 255, b: 255, a: 96 }
}

pub open spec fn border() -> Rgba {
    Rgba { r: 88, g: 96, b: 120, a: 255 }
}

pub open spec fn pointer() -> Rgba {
    Rgba { r: 96, g: 96, b: 104, a: 255 }
}

/// How far a character moves the pen: its glyph's width, at least 3, and 6
/// where the font has none.
pub open spec fn advance_of(widths: Seq<u8>, ch: u8) -> int {
    if ch < 32 || ch - 32 >= widths.len() {
        6
    } else if widths[ch - 32] < 3 {
        3
    } else {
        widths[ch - 32] as int
    }
}

/// The width of a text.
pub open spec fn width_of(widths: Seq<u8>, s: Seq<u8>) -> int
    decreases s.len(),
{
    if s.len() == 0 {
        0
    } else {
        width_of(widths, s.drop_last()) + advance_of(widths, s.last())
    }
}

/// Whether a character has a glyph to draw.
pub open spec fn is_drawn(ch: u8) -> bool {
    32 < ch < 32 + SOLID
}

/// The glyphs of a text.
pub open spec fn text_pieces(widths: Seq<u8>, s: Seq<u8>, x: int, y: int, tint: Rgba) -> Seq<Piece>
    decreases s.len(),
{
    if s.len() == 0 {
        seq![]
    } else {
        let before = text_pieces(widths, s.drop_last(), x, y, tint);
        if is_drawn(s.last()) {
            before.push(
                Piece::Glyph {
                    slot: (s.last() - 32) as u8,
                    x: (x + width_of(widths, s.drop_last())) as i32,
                    y: y as i32,
                    tint,
                },
            )
        } else {
            before
        }
    }
}

/// The right-pointing cursor: five columns, each two pixels shorter.
pub open spec fn cursor_pieces(x: int, y: int) -> Seq<Piece> {
    Seq::new(
        5,
        |i: int|
            Piece::Solid {
                x: (x + i) as i32,
                y: (y + i) as i32,
                w: 1,
                h: (9 - 2 * i) as u32,
                tint: pointer(),
            },
    )
}

/// The widest of the first `n` labels.
pub open spec fn widest(widths: Seq<u8>, items: Seq<Item>, n: int) -> int
    decreases n,
{
    if n <= 0 {
        0
    } else {
        let before = widest(widths, items, n - 1);
        let w = width_of(widths, items[n - 1].label@);
        if w > before {
            w
        } else {
            before
        }
    }
}

pub open spec fn menu_width(widths: Seq<u8>, items: Seq<Item>) -> int {
    TEXT_X + widest(widths, items, items.len() as int) + 6
}

pub open spec fn menu_height(items: Seq<Item>) -> int {
    items.len() * ROW + 6
}

/// The first `n` rows, each with the cursor where it is selected.
pub open spec fn row_pieces(widths: Seq<u8>, items: Seq<Item>, selected: u8, n: int) -> Seq<Piece>
    decreases n,
{
    if n <= 0 {
        seq![]
    } else {
        let y = 3 + (n - 1) * ROW;
        let tint = if items[n - 1].enabled {
            white()
        } else {
            dimmed()
        };
        row_pieces(widths, items, selected, n - 1) + text_pieces(
            widths,
            items[n - 1].label@,
            TEXT_X as int,
            y,
            tint,
        ) + if n - 1 == selected {
            cursor_pieces(3, y + 3)
        } else {
            seq![]
        }
    }
}

/// A window: a white body with a thin dark border.
pub open spec fn window_pieces(w: int, h: int) -> Seq<Piece> {
    seq![
        Piece::Solid { x: -1i32, y: -1i32, w: (w + 2) as u32, h: (h + 2) as u32, tint: border() },
        Piece::Solid { x: 0i32, y: 0i32, w: w as u32, h: h as u32, tint: white() },
    ]
}

/// The whole menu.
pub open spec fn menu_pieces(widths: Seq<u8>, items: Seq<Item>, selected: u8) -> Seq<Piece> {
    window_pieces(menu_width(widths, items), menu_height(items)) + row_pieces(
        widths,
        items,
        selected,
        items.len() as int,
    )
}

/// A text is at least as wide as its front.
proof fn lemma_width(widths: Seq<u8>, s: Seq<u8>, n: int)
    requires
        0 <= n <= s.len(),
    ensures
        0 <= width_of(widths, s.take(n)) <= width_of(widths, s),
    decreases s.len(),
{
    if n < s.len() {
        lemma_width(widths, s.drop_last(), n);
        assert(s.drop_last().take(n) =~= s.take(n));
    } else {
        assert(s.take(n) =~= s);
        if s.len() > 0 {
            lemma_width(widths, s.drop_last(), s.len() - 1);
            assert(s.drop_last().take(s.len() - 1) =~= s.drop_last());
        }
    }
}

proof fn lemma_widest(widths: Seq<u8>, items: Seq<Item>, i: int, n: int)
    requires
        0 <= i < n <= items.len(),
    ensures
        widest(widths, items, i) <= widest(widths, items, n),
        width_of(widths, items[i].label@) <= widest(widths, items, n),
    decreases n,
{
    if i < n - 1 {
        lemma_widest(widths, items, i, n - 1);
    }
}

/// Whether a menu is of a size that has coordinates.
pub open spec fn layable(widths: Seq<u8>, items: Seq<Item>) -> bool {
    &&& menu_width(widths, items) <= i32::MAX
    &&& menu_height(items) <= i32::MAX
}

/// The font and what is laid out with it.
pub struct Ui<'a> {
    pub tex: TextureId,
    pub widths: &'a [u8],
}

impl<'a> Ui<'a> {
    fn advance(&self, ch: u8) -> (w: u32)
        ensures
            w == advance_of(self.widths@, ch),
            3 <= w <= 255,
    {
        if ch < 32 || (ch - 32) as usize >= self.widths.len() {
            6
        } else {
            let w: u8 = self.widths[(ch - 32) as usize];
            if w < 3 {
                3
            } else {
                w as u32
            }
        }
    }

    /// Text width in logical pixels.
    pub fn text_width(&self, s: &[u8]) -> (w: u32)
        requires
            width_of(self.widths@, s@) <= u32::MAX,
        ensures
            w == width_of(self.widths@, s@),
    {
        let mut w: u32 = 0;
        let mut i: usize = 0;
        while i < s.len()
            invariant
                i <= s@.len(),
                width_of(self.widths@, s@) <= u32::MAX,
                w == width_of(self.widths@, s@.take(i as int)),
            decreases s.len() - i,
        {
            assert(s@.take(i + 1).drop_last() =~= s@.take(i as int));
            proof {
                lemma_width(self.widths@, s@, i + 1);
            }
            w += self.advance(s[i]);
            i += 1;
        }
        assert(s@.take(i as int) =~= s@);
        w
    }

    /// Lay out a text at (x, y); gives the x where it ends.
    pub fn text(&self, out: &mut Vec<Piece>, s: &[u8], x: u32, y: i32, tint: Rgba) -> (end: u32)
        requires
            x + width_of(self.widths@, s@) <= i32::MAX,
        ensures
            final(out)@ == old(out)@ + text_pieces(self.widths@, s@, x as int, y as int, tint),
            end == x + width_of(self.widths@, s@),
    {
        let ghost start = out@;
        let mut w: u32 = 0;
        let mut i: usize = 0;
        assert(out@ =~= start + text_pieces(self.widths@, s@.take(0), x as int, y as int, tint));
        while i < s.len()
            invariant
                i <= s@.len(),
                x + width_of(self.widths@, s@) <= i32::MAX,
                w == width_of(self.widths@, s@.take(i as int)),
                out@ == start + text_pieces(self.widths@, s@.take(i as int), x as int, y as int, tint),
            decreases s.len() - i,
        {
            assert(s@.take(i + 1).drop_last() =~= s@.take(i as int));
            proof {
                lemma_width(self.widths@, s@, i + 1);
            }
            let ch: u8 = s[i];
            if 32 < ch && ch < 32 + SOLID {
                out.push(Piece::Glyph { slot: ch - 32, x: (x + w) as i32, y, tint });
            }
            assert(out@ =~= start + text_pieces(
                self.widths@,
                s@.take(i + 1),
                x as int,
                y as int,
                tint,
            ));
            w += self.advance(ch);
            i += 1;
        }
        assert(s@.take(i as int) =~= s@);
        x + w
    }

    /// A solid rectangle.
    pub fn solid(&self, out: &mut Vec<Piece>, x: i32, y: i32, w: u32, h: u32, tint: Rgba)
        ensures
            final(out)@ == old(out)@.push(Piece::Solid { x, y, w, h, tint }),
    {
        out.push(Piece::Solid { x, y, w, h, tint });
    }

    /// The menu cursor, built from pixel columns.
    pub fn cursor(&self, out: &mut Vec<Piece>, x: i32, y: i32)
        requires
            x <= i32::MAX - 5,
            y <= i32::MAX - 5,
        ensures
            final(out)@ == old(out)@ + cursor_pieces(x as int, y as int),
    {
        let ghost start = out@;
        let mut i: i32 = 0;
        assert(out@ =~= start + cursor_pieces(x as int, y as int).take(0));
        while i < 5
            invariant
                0 <= i <= 5,
                x <= i32::MAX - 5,
                y <= i32::MAX - 5,
                out@ == start + cursor_pieces(x as int, y as int).take(i as int),
            decreases 5 - i,
        {
            let tint = Rgba { r: 96, g: 96, b: 104, a: 255 };
            self.solid(out, x + i, y + i, 1, (9 - 2 * i) as u32, tint);
            assert(out@ =~= start + cursor_pieces(x as int, y as int).take(i + 1));
            i += 1;
        }
        assert(out@ =~= start + cursor_pieces(x as int, y as int));
    }

    /// A window: white body with a thin dark border.
    pub fn window(&self, out: &mut Vec<Piece>, w: u32, h: u32)
        requires
            w <= u32::MAX - 2,
            h <= u32::MAX - 2,
        ensures
            final(out)@ == old(out)@ + window_pieces(w as int, h as int),
    {
        self.solid(out, -1, -1, w + 2, h + 2, Rgba { r: 88, g: 96, b: 120, a: 255 });
        self.solid(out, 0, 0, w, h, Rgba::white());
        assert(out@ =~= old(out)@ + window_pieces(w as int, h as int));
    }

    /// What the menu looks like, and how wide its window is. One row per item, the
    /// cursor on `selected`; items that are not enabled are dimmed.
    pub fn menu(&self, items: &Vec<Item>, selected: u8) -> (r: (Vec<Piece>, u32))
        requires
            layable(self.widths@, items@),
        ensures
            r.0@ == menu_pieces(self.widths@, items@, selected),
            r.1 == menu_width(self.widths@, items@),
    {
        let mut text_w: u32 = 0;
        let mut i: usize = 0;
        while i < items.len()
            invariant
                i <= items@.len(),
                layable(self.widths@, items@),
                text_w == widest(self.widths@, items@, i as int),
            decreases items.len() - i,
        {
            proof {
                lemma_widest(self.widths@, items@, i as int, items@.len() as int);
            }
            let w: u32 = self.text_width(items[i].label.as_slice());
            if w > text_w {
                text_w = w;
            }
            i += 1;
        }
        let w: u32 = TEXT_X + text_w + 6;
        let h: u32 = items.len() as u32 * ROW + 6;
        let mut out: Vec<Piece> = Vec::new();
        self.window(&mut out, w, h);
        let ghost frame = out@;
        let mut k: usize = 0;
        assert(out@ =~= frame + row_pieces(self.widths@, items@, selected, 0));
        while k < items.len()
            invariant
                k <= items@.len(),
                layable(self.widths@, items@),
                out@ == frame + row_pieces(self.widths@, items@, selected, k as int),
            decreases items.len() - k,
        {
            let y: i32 = (3 + k as u32 * ROW) as i32;
            let tint = if items[k].enabled {
                Rgba::white()
            } else {
                Rgba { r: 255, g: 255, b: 255, a: 96 }
            };
            assert(tint == if items@[k as int].enabled { white() } else { dimmed() });
            proof {
                lemma_widest(self.widths@, items@, k as int, items@.len() as int);
            }
            let _ = self.text(&mut out, items[k].label.as_slice(), TEXT_X, y, tint);
            if k == selected as usize {
                self.cursor(&mut out, 3, y + 3);
            }
            assert(out@ =~= frame + row_pieces(self.widths@, items@, selected, k + 1));
            k += 1;
        }
        assert(frame =~= window_pieces(w as int, h as int));
        (out, w)
    }
}

} // verus!
