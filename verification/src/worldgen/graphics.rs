//! Graphics of the sources: indexed images, palettes, and what is baked of
//! them.

use vstd::prelude::*;
use crate::game::bake;
use crate::game::data;
use crate::text;
use crate::text::{chars_of, parse_number, split_lines, split_whitespace, Text};

verus! {

// ---- indexed images ------------------------------------------------------

/// A decoded image as it lies in its rows.
pub struct Picture {
    pub color: u8,
    pub depth: u8,
    pub width: u32,
    pub height: u32,
    /// Bytes per row.
    pub line: usize,
    pub bytes: Vec<u8>,
}

/// A decoded image as a value.
#[verifier::ext_equal]
pub struct PictureModel {
    pub color: u8,
    pub depth: u8,
    pub width: u32,
    pub height: u32,
    pub line: int,
    pub bytes: Seq<u8>,
}

impl Picture {
    pub open spec fn model(&self) -> PictureModel {
        PictureModel {
            color: self.color,
            depth: self.depth,
            width: self.width,
            height: self.height,
            line: self.line as int,
            bytes: self.bytes@,
        }
    }
}

/// The code of the color type whose pixels are palette indices.
pub const INDEXED: u8 = 3;

/// The first frame of a PNG file, where it can be decoded.
pub uninterp spec fn png_frame(b: Seq<u8>) -> Option<PictureModel>;

/// A number in four bytes, highest first.
pub open spec fn be32(b: Seq<u8>, i: int) -> int {
    b[i] * 16777216 + b[i + 1] * 65536 + b[i + 2] * 256 + b[i + 3]
}

/// Whether the size that a PNG file claims at its front, at eight bytes a pixel,
/// is one that a buffer can have.
pub open spec fn is_holdable(b: Seq<u8>) -> bool {
    b.len() < 24 || 8 * (be32(b, 16) * be32(b, 20)) <= isize::MAX
}

/// `png::Decoder` without transformations, then `read_info` and `next_frame`
/// into a buffer of the size that the reader gives: a function of the bytes,
/// nothing where either fails. A row over the decoder's limit of 64 MiB is
/// refused; what is bounded besides is the size in a header at the front of the
/// file.
#[verifier::external_body]
pub(crate) fn png_picture(b: &[u8]) -> (r: Option<Picture>)
    requires
        is_holdable(b@),
    ensures
        match r {
            Some(p) => png_frame(b@) == Some(p.model()),
            None => png_frame(b@) is None,
        },
{
    let mut decoder = png::Decoder::new(b);
    decoder.set_transformations(png::Transformations::IDENTITY);
    let mut reader = decoder.read_info().ok()?;
    let mut bytes = vec![0; reader.output_buffer_size()];
    let i = reader.next_frame(&mut bytes).ok()?;
    let (color, depth) = (i.color_type as u8, i.bit_depth as u8);
    Some(Picture { color, depth, width: i.width, height: i.height, line: i.line_size, bytes })
}

/// One byte per pixel, row by row.
pub struct Indexed {
    pub pixels: Vec<u8>,
    pub w: u32,
    pub h: u32,
}

/// Whether a picture holds indices of 2, 4 or 8 bits, and all of its rows.
pub open spec fn is_indexed(p: PictureModel) -> bool {
    &&& p.color == INDEXED
    &&& p.height > 0 ==> p.depth == 2 || p.depth == 4 || p.depth == 8
    &&& p.height > 0 ==> (p.height - 1) * p.line + row_bytes(p) <= p.bytes.len()
}

/// The bytes of a row that hold pixels.
pub open spec fn row_bytes(p: PictureModel) -> int {
    if p.depth == 2 {
        (p.width + 3) / 4
    } else if p.depth == 4 {
        (p.width + 1) / 2
    } else {
        p.width as int
    }
}

/// The index at a pixel: the leftmost in the highest bits.
pub open spec fn index_at(p: PictureModel, x: int, y: int) -> u8 {
    let row = y * p.line;
    if p.depth == 2 {
        let b = p.bytes[row + x / 4];
        if x % 4 == 0 {
            b / 64
        } else if x % 4 == 1 {
            b / 16 % 4
        } else if x % 4 == 2 {
            b / 4 % 4
        } else {
            b % 4
        }
    } else if p.depth == 4 {
        let b = p.bytes[row + x / 2];
        if x % 2 == 0 {
            b / 16
        } else {
            b % 16
        }
    } else {
        p.bytes[row + x]
    }
}

/// The pixels of a picture, row by row.
pub open spec fn indices(p: PictureModel) -> Seq<u8> {
    Seq::new(
        (p.width * p.height) as nat,
        |i: int| index_at(p, i % (p.width as int), i / (p.width as int)),
    )
}

/// The indices of a picture, where it holds them.
pub fn unpack(p: &Picture) -> (r: Option<Indexed>)
    ensures
        match r {
            Some(x) => is_indexed(p.model()) && x.pixels@ == indices(p.model()) && x.w == p.width
                && x.h == p.height,
            None => !is_indexed(p.model()),
        },
{
    if p.color != INDEXED {
        return None;
    }
    let ghost m = p.model();
    let (w, h): (u64, u64) = (p.width as u64, p.height as u64);
    if h > 0 {
        if p.depth != 2 && p.depth != 4 && p.depth != 8 {
            return None;
        }
        let last: u128 = (h - 1) as u128;
        proof {
            let line = p.line as int;
            assert(0 <= last * line <= 0xffff_ffff * 0xffff_ffff_ffff_ffff) by (nonlinear_arith)
                requires
                    0 <= last <= 0xffff_ffff,
                    0 <= line <= 0xffff_ffff_ffff_ffff,
            ;
        }
        let row: u128 = if p.depth == 2 {
            (w as u128 + 3) / 4
        } else if p.depth == 4 {
            (w as u128 + 1) / 2
        } else {
            w as u128
        };
        if last * p.line as u128 + row > p.bytes.len() as u128 {
            return None;
        }
    }
    let mut pixels: Vec<u8> = Vec::new();
    let mut y: u64 = 0;
    let mut base: usize = 0;
    proof {
        assert(0 * w == 0);
        assert(0 * p.line == 0);
    }
    while y < h
        invariant
            y <= h,
            h == p.height,
            w == p.width,
            m == p.model(),
            is_indexed(m),
            y < h ==> base == y * p.line,
            pixels@.len() == y * w,
            forall|i: int|
                0 <= i < pixels@.len() ==> #[trigger] pixels@[i] == index_at(
                    m,
                    i % (w as int),
                    i / (w as int),
                ),
        decreases h - y,
    {
        proof {
            let line = p.line as int;
            assert(y * line <= (h - 1) * line) by (nonlinear_arith)
                requires
                    y <= h - 1,
                    line >= 0,
            ;
        }
        assert(base + row_bytes(m) <= p.bytes@.len());
        let bytes: usize = p.bytes.len();
        let mut x: u64 = 0;
        while x < w
            invariant
                x <= w,
                y < h,
                h == p.height,
                w == p.width,
                m == p.model(),
                is_indexed(m),
                base == y * p.line,
                bytes == p.bytes@.len(),
                base + row_bytes(m) <= bytes,
                pixels@.len() == y * w + x,
                forall|i: int|
                    0 <= i < pixels@.len() ==> #[trigger] pixels@[i] == index_at(
                        m,
                        i % (w as int),
                        i / (w as int),
                    ),
            decreases w - x,
        {
            let v: u8 = if p.depth == 2 {
                let b: u8 = p.bytes[base + (x / 4) as usize];
                let part: u64 = x % 4;
                if part == 0 {
                    b / 64
                } else if part == 1 {
                    b / 16 % 4
                } else if part == 2 {
                    b / 4 % 4
                } else {
                    b % 4
                }
            } else if p.depth == 4 {
                let b: u8 = p.bytes[base + (x / 2) as usize];
                if x % 2 == 0 {
                    b / 16
                } else {
                    b % 16
                }
            } else {
                p.bytes[base + x as usize]
            };
            proof {
                crate::game::map::lemma_row(y as int, x as int, w as int);
            }
            pixels.push(v);
            x += 1;
        }
        assert((y + 1) * w == y * w + w) by (nonlinear_arith);
        y += 1;
        if y < h {
            proof {
                let line = p.line as int;
                assert(y * line == (y - 1) * line + line) by (nonlinear_arith);
                assert(y * line <= (h - 1) * line) by (nonlinear_arith)
                    requires
                        y <= h - 1,
                        line >= 0,
                ;
            }
            base += p.line;
        }
    }
    assert(h * w == w * h) by (nonlinear_arith);
    assert(pixels@ =~= indices(m));
    Some(Indexed { pixels, w: p.width, h: p.height })
}

/// What a PNG file comes to.
pub enum Decoded {
    Pixels(Indexed),
    /// The file is no PNG file, or holds no indices.
    Unusable,
    /// The file claims more pixels than a buffer can have.
    TooLarge,
}

/// Decode an indexed PNG to one byte per pixel.
pub fn decode_indexed_png(b: &[u8]) -> (r: Decoded)
    ensures
        match r {
            Decoded::TooLarge => !is_holdable(b@),
            Decoded::Unusable => is_holdable(b@) && (png_frame(b@) matches Some(p) ==> !is_indexed(
                p,
            )),
            Decoded::Pixels(x) => is_holdable(b@) && png_frame(b@) is Some && is_indexed(
                png_frame(b@)->0,
            ) && x.pixels@ == indices(png_frame(b@)->0) && x.w == png_frame(b@)->0.width && x.h
                == png_frame(b@)->0.height,
        },
{
    if b.len() >= 24 {
        let w: u128 = big_endian(b, 16) as u128;
        let h: u128 = big_endian(b, 20) as u128;
        assert(0 <= w * h <= 0xffff_ffff * 0xffff_ffff) by (nonlinear_arith)
            requires
                0 <= w <= 0xffff_ffff,
                0 <= h <= 0xffff_ffff,
        ;
        if 8 * (w * h) > isize::MAX as u128 {
            return Decoded::TooLarge;
        }
    }
    match png_picture(b) {
        None => Decoded::Unusable,
        Some(p) => match unpack(&p) {
            None => Decoded::Unusable,
            Some(x) => Decoded::Pixels(x),
        },
    }
}

fn big_endian(b: &[u8], i: usize) -> (v: u32)
    requires
        i + 4 <= b@.len(),
    ensures
        v == be32(b@, i as int),
{
    b[i] as u32 * 16777216 + b[i + 1] as u32 * 65536 + b[i + 2] as u32 * 256 + b[i + 3] as u32
}

// ---- tiles ---------------------------------------------------------------

/// Where the left pixel of byte `k` of a run of tiles lies in an image: tiles
/// of 8 by 8 pixels, 32 bytes each, in rows of the image's width over 8.
pub open spec fn tile_source(w: int, k: int) -> int {
    let across = w / 8;
    let t = k / 32;
    (t / across * 8 + k % 32 / 4) * w + t % across * 8 + k % 4 * 2
}

/// Whether an image holds all the pixels of its tiles.
pub open spec fn is_tiled(pixels: Seq<u8>, w: int) -> bool {
    let tiles = pixels.len() as int / 64;
    tiles > 0 ==> w >= 8 && forall|k: int|
        0 <= k < tiles * 32 ==> #[trigger] tile_source(w, k) + 1 < pixels.len()
}

/// Two pixels in a byte, the left one low.
pub open spec fn pixel_pair(left: u8, right: u8) -> u8 {
    (left % 16 + right % 16 * 16) as u8
}

/// The tiles of an image in the console's order.
pub open spec fn tiles_of(pixels: Seq<u8>, w: int) -> Seq<u8> {
    Seq::new(
        (pixels.len() as int / 64 * 32) as nat,
        |k: int| pixel_pair(pixels[tile_source(w, k)], pixels[tile_source(w, k) + 1]),
    )
}

/// Repack pixel indices into 4bpp tile order, where all of them are there.
pub fn to_gba_4bpp(pixels: &Vec<u8>, w: u32) -> (r: Option<Vec<u8>>)
    ensures
        match r {
            Some(t) => is_tiled(pixels@, w as int) && t@ == tiles_of(pixels@, w as int),
            None => !is_tiled(pixels@, w as int),
        },
{
    let len: usize = pixels.len();
    let tiles: usize = len / 64;
    let mut out: Vec<u8> = Vec::new();
    if tiles == 0 {
        assert(out@ =~= tiles_of(pixels@, w as int));
        return Some(out);
    }
    if w < 8 {
        return None;
    }
    let across: usize = (w / 8) as usize;
    let end: usize = tiles * 32;
    let mut k: usize = 0;
    while k < end
        invariant
            k <= end,
            len == pixels@.len(),
            tiles == len / 64,
            tiles > 0,
            end == tiles * 32,
            w >= 8,
            across == w / 8,
            forall|j: int| 0 <= j < k ==> #[trigger] tile_source(w as int, j) + 1 < len,
            out@ == tiles_of(pixels@, w as int).take(k as int),
        decreases end - k,
    {
        let t: usize = k / 32;
        proof {
            let (tt, aa) = (t as int, across as int);
            assert(0 <= tt / aa <= tt) by (nonlinear_arith)
                requires
                    tt >= 0,
                    aa > 0,
            ;
            assert(0 <= tt % aa < aa) by (nonlinear_arith)
                requires
                    aa > 0,
            ;
            let row = tt / aa * 8 + k as int % 32 / 4;
            let ww = w as int;
            assert(0 <= row * ww <= 0x1_0000_0000_0000_0000 * 0xffff_ffff) by (nonlinear_arith)
                requires
                    0 <= row <= 0x1_0000_0000_0000_0000,
                    0 <= ww <= 0xffff_ffff,
            ;
        }
        let row: u128 = (t / across) as u128 * 8 + (k % 32 / 4) as u128;
        let at: u128 = row * w as u128 + (t % across) as u128 * 8 + (k % 4) as u128 * 2;
        assert(at == tile_source(w as int, k as int));
        if at + 1 >= len as u128 {
            return None;
        }
        let (left, right): (u8, u8) = (pixels[at as usize], pixels[at as usize + 1]);
        out.push(left % 16 + right % 16 * 16);
        assert(out@ =~= tiles_of(pixels@, w as int).take(k + 1));
        k += 1;
    }
    assert(out@ =~= tiles_of(pixels@, w as int));
    Some(out)
}

/// A packed tile holds the low four bits of each of its pixels.
pub proof fn a_packed_tile_reads_back(pixels: Seq<u8>, w: int, t: int, x: int, y: int)
    requires
        is_tiled(pixels, w),
        0 <= t < pixels.len() as int / 64,
        0 <= x < 8,
        0 <= y < 8,
    ensures
        ({
            let tile = tiles_of(pixels, w).subrange(t * 32, t * 32 + 32);
            bake::nibble(tile, x, y) == pixels[(t / (w / 8) * 8 + y) * w + t % (w / 8) * 8 + x]
                % 16
        }),
{
    let k = t * 32 + y * 4 + x / 2;
    assert(k / 32 == t && k % 32 / 4 == y && k % 4 == x / 2);
    let at = tile_source(w, k);
    assert(at == (t / (w / 8) * 8 + y) * w + t % (w / 8) * 8 + x / 2 * 2);
    let tile = tiles_of(pixels, w).subrange(t * 32, t * 32 + 32);
    assert(tile[y * 4 + x / 2] == tiles_of(pixels, w)[k]);
}

// ---- palettes ------------------------------------------------------------

#[derive(Clone, Copy, Debug, PartialEq, Eq, Structural)]
pub struct Rgb {
    pub r: u8,
    pub g: u8,
    pub b: u8,
}

/// The color of a line: its first three words as bytes.
pub open spec fn color_of(line: Seq<char>) -> Option<Rgb> {
    let w = text::words(line);
    if w.len() < 3 {
        None
    } else {
        match (text::number(w[0], 10, 255), text::number(w[1], 10, 255), text::number(
            w[2],
            10,
            255,
        )) {
            (Some(r), Some(g), Some(b)) => Some(Rgb { r: r as u8, g: g as u8, b: b as u8 }),
            _ => None,
        }
    }
}

/// The colors of the first `n` lines; a palette file has three lines of head.
pub open spec fn colors_of(ls: Seq<Seq<char>>, n: int) -> Seq<Rgb>
    decreases n,
{
    if n <= 3 {
        seq![]
    } else {
        match color_of(ls[n - 1]) {
            Some(c) => colors_of(ls, n - 1).push(c),
            None => colors_of(ls, n - 1),
        }
    }
}

/// The colors of a JASC palette file.
pub open spec fn jasc(s: Seq<char>) -> Seq<Rgb> {
    colors_of(text::lines(s), text::lines(s).len() as int)
}

fn line_color(line: &Text) -> (r: Option<Rgb>)
    ensures
        r == color_of(line@),
{
    let w = split_whitespace(line);
    let ghost ws = text::words(line@);
    assert(ws.len() == w@.len());
    if w.len() < 3 {
        return None;
    }
    assert(ws[0] == w@[0]@ && ws[1] == w@[1]@ && ws[2] == w@[2]@);
    match (parse_number(&w[0], 10, 255), parse_number(&w[1], 10, 255), parse_number(&w[2], 10, 255)) {
        (Some(r), Some(g), Some(b)) => Some(Rgb { r: r as u8, g: g as u8, b: b as u8 }),
        _ => None,
    }
}

pub fn parse_jasc(s: &str) -> (out: Vec<Rgb>)
    ensures
        out@ == jasc(s@),
{
    let ls = split_lines(&chars_of(s));
    let ghost all = text::lines(s@);
    assert(all.len() == ls@.len());
    let mut out: Vec<Rgb> = Vec::new();
    let mut i: usize = 3;
    while i < ls.len()
        invariant
            3 <= i,
            i <= ls@.len() || i == 3,
            text::texts(ls@) == all,
            all.len() == ls@.len(),
            out@ == colors_of(all, i as int),
        decreases ls.len() - i,
    {
        assert(all[i as int] == ls@[i as int]@);
        if let Some(c) = line_color(&ls[i]) {
            out.push(c);
        }
        i += 1;
    }
    assert(colors_of(all, all.len() as int) == colors_of(all, i as int));
    out
}

/// A color of a palette in four bytes; the first of a palette is transparent.
pub open spec fn shown(c: Rgb, first: bool) -> Seq<u8> {
    seq![
        c.r,
        c.g,
        c.b,
        if first {
            0
        } else {
            255
        },
    ]
}

/// 256 colors after the first `n` palettes, sixteen to a palette; a longer one
/// runs into those after it. Nothing where one runs past the last color.
pub open spec fn palettes_of(files: Seq<Option<Seq<char>>>, n: int) -> Option<Seq<Seq<u8>>>
    decreases n,
{
    if n <= 0 {
        Some(Seq::new(256, |i: int| seq![0u8, 0u8, 0u8, 0u8]))
    } else {
        match palettes_of(files, n - 1) {
            None => None,
            Some(p) => match files[n - 1] {
                None => Some(p),
                Some(f) => {
                    let c = jasc(f);
                    let at = (n - 1) * 16;
                    if at + c.len() > 256 && c.len() > 0 {
                        None
                    } else {
                        Some(
                            Seq::new(
                                256,
                                |i: int|
                                    if at <= i < at + c.len() {
                                        shown(c[i - at], i == at)
                                    } else {
                                        p[i]
                                    },
                            ),
                        )
                    }
                },
            },
        }
    }
}

pub open spec fn texts_of(files: Seq<Option<String>>) -> Seq<Option<Seq<char>>> {
    Seq::new(
        files.len(),
        |i: int|
            match files[i] {
                Some(s) => Some(s@),
                None => None,
            },
    )
}

spec fn palette_model(p: Seq<[u8; 4]>) -> Seq<Seq<u8>> {
    Seq::new(p.len(), |i: int| p[i]@)
}

proof fn lemma_palettes_stop(files: Seq<Option<Seq<char>>>, a: int, b: int)
    requires
        a <= b,
        palettes_of(files, a) is None,
    ensures
        palettes_of(files, b) is None,
    decreases b,
{
    if a < b && b > 0 {
        lemma_palettes_stop(files, a, b - 1);
    }
}

/// The palettes of a tileset out of its palette files, those that there are.
pub fn tileset_palettes(files: &Vec<Option<String>>) -> (r: Option<[[u8; 4]; 256]>)
    requires
        files@.len() <= 0xffff,
    ensures
        match palettes_of(texts_of(files@), files@.len() as int) {
            None => r is None,
            Some(p) => r is Some && forall|i: int|
                0 <= i < 256 ==> (#[trigger] r->0@[i])@ == p[i],
        },
{
    let ghost fs = texts_of(files@);
    let mut pal = [[0u8; 4]; 256];
    assert(palette_model(pal@) =~= Seq::new(256, |i: int| seq![0u8, 0u8, 0u8, 0u8])) by {
        assert forall|i: int| 0 <= i < 256 implies #[trigger] palette_model(pal@)[i] == seq![
            0u8,
            0u8,
            0u8,
            0u8,
        ] by {
            assert(pal@[i]@ =~= seq![0u8, 0u8, 0u8, 0u8]);
        }
    }
    let mut n: usize = 0;
    while n < files.len()
        invariant
            n <= files@.len(),
            files@.len() <= 0xffff,
            fs == texts_of(files@),
            palettes_of(fs, n as int) == Some(palette_model(pal@)),
        decreases files.len() - n,
    {
        let ghost before = palette_model(pal@);
        assert(fs[n as int] == match files@[n as int] {
            Some(s) => Some(s@),
            None => None,
        });
        if let Some(f) = &files[n] {
            let colors = parse_jasc(f.as_str());
            let len: usize = colors.len();
            let at: usize = n * 16;
            if len > 0 && (at > 256 || len > 256 - at) {
                proof {
                    lemma_palettes_stop(fs, n + 1, files@.len() as int);
                }
                return None;
            }
            let mut c: usize = 0;
            while c < len
                invariant
                    c <= len,
                    len == colors@.len(),
                    len > 0 ==> at + len <= 256,
                    before.len() == 256,
                    forall|i: int|
                        0 <= i < 256 ==> #[trigger] pal@[i]@ == if at <= i < at + c {
                            shown(colors@[i - at], i == at)
                        } else {
                            before[i]
                        },
                decreases len - c,
            {
                let k = colors[c];
                let color = [k.r, k.g, k.b, if c == 0 { 0u8 } else { 255u8 }];
                assert(color@ =~= shown(k, c == 0));
                pal[at + c] = color;
                c += 1;
            }
            assert(palette_model(pal@) =~= palettes_of(fs, n + 1)->0);
        }
        n += 1;
    }
    Some(pal)
}

// ---- sheets --------------------------------------------------------------

/// Whether every pixel has a color.
pub open spec fn is_colored(pixels: Seq<u8>, pal: Seq<Rgb>) -> bool {
    forall|i: int| 0 <= i < pixels.len() ==> #[trigger] pixels[i] < pal.len()
}

/// The pixels in four bytes each; index 0 is transparent.
pub open spec fn sheet_bytes(pixels: Seq<u8>, pal: Seq<Rgb>) -> Seq<u8> {
    Seq::new(
        4 * pixels.len(),
        |i: int| shown(pal[pixels[i / 4] as int], pixels[i / 4] == 0)[i % 4],
    )
}

/// Bake a sheet with a palette, where every pixel has a color.
pub fn bake_sheet(sheet: &Indexed, pal: &Vec<Rgb>) -> (r: Option<data::Image>)
    ensures
        match r {
            Some(x) => is_colored(sheet.pixels@, pal@) && x.rgba@ == sheet_bytes(
                sheet.pixels@,
                pal@,
            ) && x.w == sheet.w && x.h == sheet.h,
            None => !is_colored(sheet.pixels@, pal@),
        },
{
    let px = &sheet.pixels;
    let mut rgba: Vec<u8> = Vec::new();
    let mut i: usize = 0;
    while i < px.len()
        invariant
            i <= px@.len(),
            *px == sheet.pixels,
            forall|j: int| 0 <= j < i ==> #[trigger] px@[j] < pal@.len(),
            rgba@ == sheet_bytes(px@, pal@).take(4 * i),
        decreases px.len() - i,
    {
        let v: u8 = px[i];
        if v as usize >= pal.len() {
            return None;
        }
        let c = pal[v as usize];
        rgba.push(c.r);
        rgba.push(c.g);
        rgba.push(c.b);
        rgba.push(if v == 0 { 0 } else { 255 });
        assert(rgba@ =~= sheet_bytes(px@, pal@).take(4 * (i + 1))) by {
            assert((4 * i) / 4 == i && (4 * i + 1) / 4 == i && (4 * i + 2) / 4 == i && (4 * i + 3)
                / 4 == i);
        }
        i += 1;
    }
    assert(rgba@ =~= sheet_bytes(px@, pal@));
    Some(data::Image { rgba, w: sheet.w, h: sheet.h })
}

/// Two sheets, one above the other.
pub fn stack_sheets(above: data::Image, below: data::Image) -> (r: Option<data::Image>)
    ensures
        match r {
            Some(x) => x.rgba@ == above.rgba@ + below.rgba@ && x.w == below.w && x.h == above.h
                + below.h,
            None => above.h + below.h > u32::MAX,
        },
{
    if above.h > u32::MAX - below.h {
        return None;
    }
    let h: u32 = above.h + below.h;
    let w: u32 = below.w;
    let mut rgba = above.rgba;
    let ghost first = rgba@;
    let mut i: usize = 0;
    assert(rgba@ =~= first + below.rgba@.take(0));
    while i < below.rgba.len()
        invariant
            i <= below.rgba@.len(),
            rgba@ == first + below.rgba@.take(i as int),
        decreases below.rgba.len() - i,
    {
        rgba.push(below.rgba[i]);
        assert(rgba@ =~= first + below.rgba@.take(i + 1));
        i += 1;
    }
    assert(below.rgba@.take(i as int) =~= below.rgba@);
    Some(data::Image { rgba, w, h })
}

} // verus!
