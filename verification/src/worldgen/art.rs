//! The graphics of the world out of the source files: tilesets, the sheets of
//! the player, the font and the doors.

use vstd::prelude::*;
use crate::codec;
use crate::codec::words;
use crate::files::Files;
use crate::game::data::{DoorData, Image, ImageModel, TilesetData};
use crate::text;
use crate::text::{append, chars_of, Text};
use crate::worldgen::doors;
use crate::worldgen::doors::{bake_door, Door};
use crate::worldgen::font;
use crate::worldgen::font::{bake_font, parse_charmap, parse_widths};
use crate::worldgen::graphics;
use crate::worldgen::graphics::{
    bake_sheet, decode_indexed_png, stack_sheets, tileset_palettes, to_gba_4bpp, Decoded, Indexed,
    PictureModel, Rgb,
};
use crate::worldgen::layouts;
use crate::worldgen::tilesets;
use crate::worldgen::tilesets::{bound_path, Def, TilesetDef};

verus! {

// ---- pictures ------------------------------------------------------------

/// The picture at a path, where there is one of indices.
pub open spec fn picture_at(f: Files, path: Seq<char>) -> Option<PictureModel> {
    match f.file(path) {
        None => None,
        Some(b) => if !graphics::is_holdable(b) {
            None
        } else {
            match graphics::png_frame(b) {
                None => None,
                Some(p) => if graphics::is_indexed(p) {
                    Some(p)
                } else {
                    None
                },
            }
        },
    }
}

/// Whether pixels are those of a picture.
pub open spec fn shows(x: Indexed, p: PictureModel) -> bool {
    x.pixels@ == graphics::indices(p) && x.w == p.width && x.h == p.height
}

/// The pixels of the picture at a path.
pub fn read_picture(f: &Files, path: &Text) -> (r: Option<Indexed>)
    requires
        f.wf(),
    ensures
        match picture_at(*f, path@) {
            None => r is None,
            Some(p) => r is Some && shows(r->0, p),
        },
{
    match f.get(path) {
        None => None,
        Some(b) => match decode_indexed_png(b.as_slice()) {
            Decoded::Pixels(x) => Some(x),
            _ => None,
        },
    }
}

// ---- tilesets ------------------------------------------------------------

/// A path up to its last slash.
pub open spec fn directory(path: Seq<char>, n: int) -> Seq<char>
    decreases n,
{
    if n <= 0 {
        seq![]
    } else if path[n - 1] == '/' {
        path.take(n)
    } else {
        directory(path, n - 1)
    }
}

pub open spec fn digit(d: int) -> char {
    (48 + d) as char
}

/// Where palette `p` of a directory lies.
pub open spec fn palette_path(dir: Seq<char>, p: int) -> Seq<char> {
    dir + seq![digit(p / 10), digit(p % 10)] + ".pal"@
}

/// The sixteen palette files beside a path, those that there are.
pub open spec fn palette_texts(f: Files, path: Seq<char>) -> Seq<Option<Seq<char>>> {
    Seq::new(16, |p: int| f.text(palette_path(directory(path, path.len() as int), p)))
}

/// What the files of a tileset hold.
pub struct Art {
    pub tiles: PictureModel,
    pub palettes: Seq<Seq<u8>>,
    pub metatiles: Seq<u8>,
    pub attributes: Seq<u8>,
}

/// The files of a tileset, by the sources that bind its symbols to paths.
pub open spec fn art_of(f: Files, gfx: Seq<char>, meta: Seq<char>, d: Def) -> Option<Art> {
    match (
        tilesets::path_of(gfx, d.tiles),
        tilesets::path_of(gfx, d.palettes),
        tilesets::path_of(meta, d.metatiles),
        tilesets::path_of(meta, d.attributes),
    ) {
        (Some(t), Some(p), Some(m), Some(a)) => match (
            picture_at(f, t),
            graphics::palettes_of(palette_texts(f, p), 16),
            f.file(m),
            f.file(a),
        ) {
            (Some(tiles), Some(palettes), Some(metatiles), Some(attributes)) => if graphics::is_tiled(
                graphics::indices(tiles),
                tiles.width as int,
            ) {
                Some(Art { tiles, palettes, metatiles, attributes })
            } else {
                None
            },
            _ => None,
        },
        _ => None,
    }
}

/// Whether a tileset is what its definition and its files say.
pub open spec fn is_tileset(t: TilesetData, d: Def, a: Art) -> bool {
    &&& t.name@ == d.name
    &&& t.is_secondary == d.is_secondary
    &&& t.tiles_4bpp@ == graphics::tiles_of(graphics::indices(a.tiles), a.tiles.width as int)
    &&& forall|i: int| 0 <= i < 256 ==> (#[trigger] t.palettes@[i])@ == a.palettes[i]
    &&& t.metatiles@ == codec::words_of(a.metatiles)
    &&& t.attributes@ == codec::words_of(a.attributes)
}

/// The files of the first `n` tilesets.
pub open spec fn arts_of(
    f: Files,
    gfx: Seq<char>,
    meta: Seq<char>,
    defs: Seq<Def>,
    n: int,
) -> Option<Seq<Art>>
    decreases n,
{
    if n <= 0 {
        Some(seq![])
    } else {
        match (arts_of(f, gfx, meta, defs, n - 1), art_of(f, gfx, meta, defs[n - 1])) {
            (Some(had), Some(a)) => Some(had.push(a)),
            _ => None,
        }
    }
}

/// Whether tilesets are what their definitions and files say.
pub open spec fn are_tilesets(ts: Seq<TilesetData>, defs: Seq<Def>, arts: Seq<Art>) -> bool {
    &&& ts.len() == arts.len()
    &&& forall|i: int| 0 <= i < ts.len() ==> is_tileset(#[trigger] ts[i], defs[i], arts[i])
}

proof fn lemma_arts_stop(
    f: Files,
    gfx: Seq<char>,
    meta: Seq<char>,
    defs: Seq<Def>,
    m: int,
    n: int,
)
    requires
        0 <= m <= n,
        arts_of(f, gfx, meta, defs, m) is None,
    ensures
        arts_of(f, gfx, meta, defs, n) is None,
    decreases n,
{
    if m < n {
        lemma_arts_stop(f, gfx, meta, defs, m, n - 1);
    }
}

fn directory_of(path: &Text) -> (d: Text)
    ensures
        d@ == directory(path@, path@.len() as int),
{
    let mut n: usize = path.len();
    while n > 0
        invariant
            n <= path@.len(),
            directory(path@, path@.len() as int) == directory(path@, n as int),
        decreases n,
    {
        if path[n - 1] == '/' {
            let d = text::part(path, 0, n);
            assert(d@ =~= path@.take(n as int));
            return d;
        }
        n -= 1;
    }
    Vec::new()
}

fn digit_of(d: u8) -> (c: char)
    requires
        d < 10,
    ensures
        c == digit(d as int),
{
    (48 + d) as char
}

fn read_palettes(f: &Files, path: &Text) -> (r: Option<[[u8; 4]; 256]>)
    requires
        f.wf(),
    ensures
        match graphics::palettes_of(palette_texts(*f, path@), 16) {
            None => r is None,
            Some(p) => r is Some && forall|i: int|
                0 <= i < 256 ==> (#[trigger] r->0@[i])@ == p[i],
        },
{
    let dir = directory_of(path);
    let mut files: Vec<Option<String>> = Vec::new();
    let mut p: u8 = 0;
    while p < 16
        invariant
            p <= 16,
            f.wf(),
            dir@ == directory(path@, path@.len() as int),
            files@.len() == p,
            forall|k: int|
                0 <= k < p ==> graphics::texts_of(files@)[k] == #[trigger] palette_texts(
                    *f,
                    path@,
                )[k],
        decreases 16 - p,
    {
        let mut at = text::copy(&dir);
        at.push(digit_of(p / 10));
        at.push(digit_of(p % 10));
        append(&mut at, &chars_of(".pal"));
        assert(at@ =~= palette_path(dir@, p as int));
        let ghost had = files@;
        files.push(f.read_at(&at));
        assert(forall|k: int|
            0 <= k < p ==> graphics::texts_of(files@)[k] == graphics::texts_of(had)[k]);
        p += 1;
    }
    assert(graphics::texts_of(files@) =~= palette_texts(*f, path@));
    tileset_palettes(&files)
}

fn read_tileset(f: &Files, gfx: &Text, meta: &Text, d: &TilesetDef) -> (r: Option<TilesetData>)
    requires
        f.wf(),
    ensures
        match art_of(*f, gfx@, meta@, d.model()) {
            None => r is None,
            Some(a) => r is Some && is_tileset(r->0, d.model(), a),
        },
{
    let (t, p, m, a) = match (
        bound_path(gfx, d.tiles.as_str()),
        bound_path(gfx, d.palettes.as_str()),
        bound_path(meta, d.metatiles.as_str()),
        bound_path(meta, d.attributes.as_str()),
    ) {
        (Some(t), Some(p), Some(m), Some(a)) => (
            chars_of(t.as_str()),
            chars_of(p.as_str()),
            chars_of(m.as_str()),
            chars_of(a.as_str()),
        ),
        _ => return None,
    };
    match (read_picture(f, &t), read_palettes(f, &p), f.get(&m), f.get(&a)) {
        (Some(x), Some(palettes), Some(mb), Some(ab)) => match to_gba_4bpp(&x.pixels, x.w) {
            None => None,
            Some(tiles_4bpp) => Some(
                TilesetData {
                    name: d.name.clone(),
                    is_secondary: d.is_secondary,
                    tiles_4bpp,
                    palettes,
                    metatiles: words(mb.as_slice()),
                    attributes: words(ab.as_slice()),
                },
            ),
        },
        _ => None,
    }
}

/// All tilesets.
pub fn read_tilesets(f: &Files, gfx: &Text, meta: &Text, defs: &Vec<TilesetDef>) -> (r: Option<
    Vec<TilesetData>,
>)
    requires
        f.wf(),
    ensures
        match arts_of(*f, gfx@, meta@, tilesets::models(defs@), defs@.len() as int) {
            None => r is None,
            Some(arts) => r is Some && are_tilesets(r->0@, tilesets::models(defs@), arts),
        },
{
    let ghost ds = tilesets::models(defs@);
    let ghost mut arts: Seq<Art> = seq![];
    let mut out: Vec<TilesetData> = Vec::new();
    let mut n: usize = 0;
    while n < defs.len()
        invariant
            n <= defs@.len(),
            f.wf(),
            ds == tilesets::models(defs@),
            arts_of(*f, gfx@, meta@, ds, n as int) == Some(arts),
            arts.len() == n,
            are_tilesets(out@, ds, arts),
        decreases defs.len() - n,
    {
        assert(ds[n as int] == defs@[n as int].model());
        match read_tileset(f, gfx, meta, &defs[n]) {
            None => {
                proof {
                    lemma_arts_stop(*f, gfx@, meta@, ds, n + 1, defs@.len() as int);
                }
                return None;
            },
            Some(t) => {
                proof {
                    arts = arts.push(art_of(*f, gfx@, meta@, ds[n as int])->0);
                }
                out.push(t);
            },
        }
        n += 1;
    }
    Some(out)
}

// ---- sheets --------------------------------------------------------------

/// The sheet at a path, in the colors of a palette.
pub open spec fn sheet_at(f: Files, path: Seq<char>, pal: Seq<Rgb>) -> Option<ImageModel> {
    match picture_at(f, path) {
        None => None,
        Some(p) => if graphics::is_colored(graphics::indices(p), pal) {
            Some(
                ImageModel {
                    rgba: graphics::sheet_bytes(graphics::indices(p), pal),
                    w: p.width,
                    h: p.height,
                },
            )
        } else {
            None
        },
    }
}

/// Two sheets, one above the other.
pub open spec fn stacked(a: Option<ImageModel>, b: Option<ImageModel>) -> Option<ImageModel> {
    match (a, b) {
        (Some(a), Some(b)) => if a.h + b.h <= u32::MAX {
            Some(ImageModel { rgba: a.rgba + b.rgba, w: b.w, h: (a.h + b.h) as u32 })
        } else {
            None
        },
        _ => None,
    }
}

pub open spec fn image_of(i: Option<Image>) -> Option<ImageModel> {
    match i {
        Some(x) => Some(x.model()),
        None => None,
    }
}

/// The sheet at a path.
pub fn read_sheet(f: &Files, path: &str, pal: &Vec<Rgb>) -> (r: Option<Image>)
    requires
        f.wf(),
    ensures
        image_of(r) == sheet_at(*f, path@, pal@),
{
    match read_picture(f, &chars_of(path)) {
        None => None,
        Some(x) => bake_sheet(&x, pal),
    }
}

/// Two sheets, one above the other.
pub fn read_stacked(f: &Files, above: &str, below: &str, pal: &Vec<Rgb>) -> (r: Option<Image>)
    requires
        f.wf(),
    ensures
        image_of(r) == stacked(sheet_at(*f, above@, pal@), sheet_at(*f, below@, pal@)),
{
    match (read_sheet(f, above, pal), read_sheet(f, below, pal)) {
        (Some(a), Some(b)) => stack_sheets(a, b),
        _ => None,
    }
}

// ---- the font ------------------------------------------------------------

/// The strip of the font and its widths.
pub open spec fn letters(f: Files) -> Option<(ImageModel, Seq<u8>)> {
    match (
        f.text("charmap.txt"@),
        f.text("src/fonts.c"@),
        picture_at(f, "graphics/fonts/latin_normal.png"@),
    ) {
        (Some(chars), Some(source), Some(p)) => match font::width_table(source) {
            None => None,
            Some(widths) => {
                let codes = font::charmap(chars);
                let px = graphics::indices(p);
                if font::is_complete(codes, px, p.width as int) {
                    Some(
                        (
                            ImageModel {
                                rgba: font::strip(codes, px, p.width as int),
                                w: 1536,
                                h: 16,
                            },
                            font::strip_widths(codes, widths),
                        ),
                    )
                } else {
                    None
                }
            },
        },
        _ => None,
    }
}

/// The strip of the font and its widths.
pub fn read_font(f: &Files) -> (r: Option<(Image, Vec<u8>)>)
    requires
        f.wf(),
    ensures
        match letters(*f) {
            None => r is None,
            Some((i, w)) => r is Some && (r->0).0.model() == i && (r->0).1@ == w,
        },
{
    let (chars, source, sheet) = match (
        f.read("charmap.txt"),
        f.read("src/fonts.c"),
        read_picture(f, &chars_of("graphics/fonts/latin_normal.png")),
    ) {
        (Some(c), Some(s), Some(x)) => (c, s, x),
        _ => return None,
    };
    match parse_widths(source.as_str()) {
        None => None,
        Some(widths) => bake_font(&parse_charmap(chars.as_str()), &widths, &sheet),
    }
}

// ---- doors ---------------------------------------------------------------

/// A door and the picture of its frames.
pub struct DoorArt {
    pub door: doors::DoorModel,
    pub picture: PictureModel,
}

/// Whether a picture holds the three frames of a door.
pub open spec fn is_door_size(p: PictureModel) -> bool {
    p.width == 16 && p.height >= 96
}

/// The pictures of the first `n` doors, without those of another size.
pub open spec fn door_arts(f: Files, ds: Seq<doors::DoorModel>, n: int) -> Option<Seq<DoorArt>>
    decreases n,
{
    if n <= 0 {
        Some(seq![])
    } else {
        match (door_arts(f, ds, n - 1), picture_at(f, ds[n - 1].path)) {
            (Some(had), Some(picture)) => if !is_door_size(picture) {
                Some(had)
            } else if doors::is_colored(graphics::indices(picture), ds[n - 1].slots) {
                Some(had.push(DoorArt { door: ds[n - 1], picture }))
            } else {
                None
            },
            _ => None,
        }
    }
}

/// Whether a door is what its picture shows, in the colors of its tileset and
/// of the general one.
pub open spec fn is_door(
    d: DoorData,
    a: DoorArt,
    ts: Seq<TilesetData>,
    general: Option<u16>,
) -> bool {
    let own = ts[a.door.tileset as int];
    let other = match general {
        Some(g) => ts[g as int],
        None => own,
    };
    &&& d.tileset == a.door.tileset
    &&& d.metatile == a.door.metatile
    &&& d.frames.w == 16
    &&& d.frames.h == 96
    &&& d.frames.rgba@ == Seq::new(
        6144,
        |k: int|
            doors::frame_byte(graphics::indices(a.picture), a.door.slots, other, own, k),
    )
}

pub open spec fn are_doors(
    ds: Seq<DoorData>,
    arts: Seq<DoorArt>,
    ts: Seq<TilesetData>,
    general: Option<u16>,
) -> bool {
    &&& ds.len() == arts.len()
    &&& forall|i: int| 0 <= i < ds.len() ==> is_door(#[trigger] ds[i], arts[i], ts, general)
}

proof fn lemma_doors_stop(f: Files, ds: Seq<doors::DoorModel>, m: int, n: int)
    requires
        0 <= m <= n,
        door_arts(f, ds, m) is None,
    ensures
        door_arts(f, ds, n) is None,
    decreases n,
{
    if m < n {
        lemma_doors_stop(f, ds, m, n - 1);
    }
}

/// The frames of all doors.
pub fn read_doors(
    f: &Files,
    found: &Vec<Door>,
    ts: &Vec<TilesetData>,
    general: Option<u16>,
) -> (r: Option<Vec<DoorData>>)
    requires
        f.wf(),
        forall|i: int| 0 <= i < found@.len() ==> (#[trigger] found@[i]).tileset < ts@.len(),
        general matches Some(g) ==> g < ts@.len(),
    ensures
        match door_arts(*f, doors::door_models(found@), found@.len() as int) {
            None => r is None,
            Some(arts) => r is Some && are_doors(r->0@, arts, ts@, general),
        },
{
    let ghost ds = doors::door_models(found@);
    let ghost mut arts: Seq<DoorArt> = seq![];
    let mut out: Vec<DoorData> = Vec::new();
    let mut n: usize = 0;
    while n < found.len()
        invariant
            n <= found@.len(),
            f.wf(),
            forall|i: int| 0 <= i < found@.len() ==> (#[trigger] found@[i]).tileset < ts@.len(),
            general matches Some(g) ==> g < ts@.len(),
            ds == doors::door_models(found@),
            door_arts(*f, ds, n as int) == Some(arts),
            are_doors(out@, arts, ts@, general),
        decreases found.len() - n,
    {
        let d = &found[n];
        assert(ds[n as int] == d.model());
        let x = match read_picture(f, &chars_of(d.path.as_str())) {
            Some(x) => x,
            None => {
                proof {
                    lemma_doors_stop(*f, ds, n + 1, found@.len() as int);
                }
                return None;
            },
        };
        let ghost picture = picture_at(*f, d.path@)->0;
        if x.w == 16 && x.h >= 96 {
            let own = &ts[d.tileset as usize];
            let other = match general {
                Some(g) => &ts[g as usize],
                None => own,
            };
            match bake_door(&x.pixels, &d.slots, other, own) {
                None => {
                    proof {
                        lemma_doors_stop(*f, ds, n + 1, found@.len() as int);
                    }
                    return None;
                },
                Some(rgba) => {
                    let made = DoorData {
                        tileset: d.tileset,
                        metatile: d.metatile,
                        frames: Image { rgba, w: 16, h: 96 },
                    };
                    proof {
                        let a = DoorArt { door: ds[n as int], picture };
                        assert(is_door(made, a, ts@, general));
                        arts = arts.push(a);
                    }
                    out.push(made);
                },
            }
        }
        n += 1;
    }
    Some(out)
}

/// Every door belongs to a tileset that there is.
pub proof fn lemma_door_tilesets(labels: Seq<char>, source: Seq<char>, names: Seq<Seq<char>>)
    ensures
        forall|i: int|
            0 <= i < doors::doors_of(labels, source, names).len() ==> (#[trigger] doors::doors_of(
                labels,
                source,
                names,
            )[i]).tileset < names.len(),
{
    let s = doors::sources_of(labels, source, names);
    let ls = text::lines(doors::table_of(source));
    lemma_doors_among(ls, s, ls.len() as int);
}

proof fn lemma_doors_among(ls: Seq<Seq<char>>, s: doors::Sources, n: int)
    ensures
        forall|i: int|
            0 <= i < doors::doors_among(ls, s, n).len() ==> (#[trigger] doors::doors_among(
                ls,
                s,
                n,
            )[i]).tileset < s.tilesets.len(),
    decreases n,
{
    if n > 0 {
        lemma_doors_among(ls, s, n - 1);
        let len = s.tilesets.len() as int;
        assert forall|name: Seq<char>| (#[trigger] text::last_named(s.tilesets, name, len))
            is Some implies 0 <= text::last_named(s.tilesets, name, len)->0 < len by {
            lemma_named(s.tilesets, name, len);
        }
        if let Some(d) = doors::door_of(ls[n - 1], s) {
            let rest = text::without_prefix(text::trimmed(ls[n - 1]), "{METATILE_"@)->0;
            let f = text::cut(text::without_suffixes(rest, "},"@), ","@);
            let own = "gTileset_"@ + text::cut(text::trimmed(f[0]), "_"@)[0];
            let i = text::last_named(s.tilesets, own, len)->0;
            assert(d.tileset == i % 65536);
        }
        let had = doors::doors_among(ls, s, n - 1);
        let now = doors::doors_among(ls, s, n);
        assert forall|i: int| 0 <= i < now.len() implies (#[trigger] now[i]).tileset < len by {
            if i < had.len() {
                assert(now[i] == had[i]);
            }
        }
    }
}

/// Every number of a name is a place of a list.
pub proof fn lemma_tileset_number(names: Seq<Seq<char>>, name: Seq<char>)
    ensures
        layouts::tileset_number(names, name) matches Some(i) ==> i < names.len(),
{
    lemma_named(names, name, names.len() as int);
}

proof fn lemma_named(names: Seq<Seq<char>>, name: Seq<char>, n: int)
    ensures
        text::last_named(names, name, n) matches Some(i) ==> 0 <= i < n,
    decreases n,
{
    if n > 0 {
        lemma_named(names, name, n - 1);
    }
}

} // verus!
