//! The animated doors: the table of them in the sources, and their frames baked
//! with the palettes of the tilesets that own them.

use vstd::prelude::*;
use crate::game::data::TilesetData;
use crate::text;
use crate::text::{
    chars_of, contains, copy, find_last, is_text, parse_number, split, split_lines, split_once,
    split_whitespace, starts_with, string_of, strip_prefix, trim, trim_end_matches,
    trim_start_matches, Text,
};

verus! {

// ---- tables by name ------------------------------------------------------

/// The value of a name in a table, the last of them.
pub open spec fn looked_up<T>(names: Seq<Seq<char>>, values: Seq<T>, name: Seq<char>) -> Option<T> {
    match text::last_named(names, name, names.len() as int) {
        Some(i) => Some(values[i]),
        None => None,
    }
}

/// A label of a metatile and its value, by a line such as
/// `#define METATILE_General_Door 0x021`.
pub open spec fn label_of(line: Seq<char>) -> Option<(Seq<char>, u16)> {
    match text::without_prefix(text::trimmed(line), "#define METATILE_"@) {
        None => None,
        Some(rest) => {
            let w = text::words(rest);
            if w.len() < 2 {
                None
            } else {
                match text::number(text::without_prefixes(w[1], "0x"@), 16, 65535) {
                    Some(v) => Some((w[0], v as u16)),
                    None => None,
                }
            }
        },
    }
}

/// Names and values in two lists of one length.
#[verifier::ext_equal]
pub struct Named<T> {
    pub names: Seq<Seq<char>>,
    pub values: Seq<T>,
}

/// A table with one more entry.
pub open spec fn with_entry<T>(t: Named<T>, e: Option<(Seq<char>, T)>) -> Named<T> {
    match e {
        Some((n, v)) => Named { names: t.names.push(n), values: t.values.push(v) },
        None => t,
    }
}

/// The labels of the first `n` lines.
pub open spec fn labels_of(ls: Seq<Seq<char>>, n: int) -> Named<u16>
    decreases n,
{
    if n <= 0 {
        Named { names: seq![], values: seq![] }
    } else {
        with_entry(labels_of(ls, n - 1), label_of(ls[n - 1]))
    }
}

/// The tiles of a door and the file that they are bound to.
pub open spec fn tiles_of(line: Seq<char>) -> Option<(Seq<char>, Seq<char>)> {
    match text::without_prefix(text::trimmed(line), "static const u8 sDoorAnimTiles_"@) {
        None => None,
        Some(r) => match text::cut_once(r, "[] = INCGFX_U8(\""@) {
            None => None,
            Some((sym, rest)) => Some(("sDoorAnimTiles_"@ + sym, text::cut(rest, "\""@)[0])),
        },
    }
}

/// The files of the first `n` lines.
pub open spec fn files_of(ls: Seq<Seq<char>>, n: int) -> Named<Seq<char>>
    decreases n,
{
    if n <= 0 {
        Named { names: seq![], values: seq![] }
    } else {
        with_entry(files_of(ls, n - 1), tiles_of(ls[n - 1]))
    }
}

/// The numbers among the first `n` pieces.
pub open spec fn numbers_among(parts: Seq<Seq<char>>, n: int) -> Seq<u64>
    decreases n,
{
    if n <= 0 {
        seq![]
    } else {
        match text::number(text::trimmed(parts[n - 1]), 10, usize::MAX as int) {
            Some(v) => numbers_among(parts, n - 1).push(v as u64),
            None => numbers_among(parts, n - 1),
        }
    }
}

/// The palette slots of a door, by a piece of the file behind the words that
/// begin such a list.
pub open spec fn slots_of(chunk: Seq<char>) -> Option<(Seq<char>, Seq<u64>)> {
    match text::cut_once(chunk, "[] = {"@) {
        None => None,
        Some((name, rest)) => match text::cut_once(rest, "}"@) {
            None => None,
            Some((body, _)) => Some(
                (
                    "sDoorAnimPalettes_"@ + name,
                    numbers_among(text::cut(body, ","@), text::cut(body, ","@).len() as int),
                ),
            ),
        },
    }
}

/// The palette slots of the first `n` pieces, the first of which holds none.
pub open spec fn palettes_of(chunks: Seq<Seq<char>>, n: int) -> Named<Seq<u64>>
    decreases n,
{
    if n <= 1 {
        Named { names: seq![], values: seq![] }
    } else {
        with_entry(palettes_of(chunks, n - 1), slots_of(chunks[n - 1]))
    }
}

// ---- the doors -----------------------------------------------------------

/// A door of the table: the metatile that it animates, the file of its tiles,
/// and their palette slots.
pub struct Door {
    pub tileset: u16,
    pub metatile: u16,
    pub path: String,
    pub slots: Vec<u64>,
}

/// A door as a value.
#[verifier::ext_equal]
pub struct DoorModel {
    pub tileset: u16,
    pub metatile: u16,
    pub path: Seq<char>,
    pub slots: Seq<u64>,
}

impl Door {
    pub open spec fn model(&self) -> DoorModel {
        DoorModel {
            tileset: self.tileset,
            metatile: self.metatile,
            path: self.path@,
            slots: self.slots@,
        }
    }
}

pub open spec fn door_models(v: Seq<Door>) -> Seq<DoorModel> {
    Seq::new(v.len(), |i: int| v[i].model())
}

/// What the lines of the table are read against.
#[verifier::ext_equal]
pub struct Sources {
    pub labels: Named<u16>,
    pub files: Named<Seq<char>>,
    pub palettes: Named<Seq<u64>>,
    pub tilesets: Seq<Seq<char>>,
}

/// The door that a line of the table is: a label that there is, of a tileset
/// that there is, one tile wide, with tiles and slots that there are.
pub open spec fn door_of(line: Seq<char>, s: Sources) -> Option<DoorModel> {
    match text::without_prefix(text::trimmed(line), "{METATILE_"@) {
        None => None,
        Some(rest) => {
            let f = text::cut(text::without_suffixes(rest, "},"@), ","@);
            if f.len() < 5 {
                None
            } else {
                let label = text::trimmed(f[0]);
                match (
                    looked_up(s.labels.names, s.labels.values, label),
                    text::last_named(
                        s.tilesets,
                        "gTileset_"@ + text::cut(label, "_"@)[0],
                        s.tilesets.len() as int,
                    ),
                    looked_up(s.files.names, s.files.values, text::trimmed(f[3])),
                    looked_up(s.palettes.names, s.palettes.values, text::trimmed(f[4])),
                ) {
                    (Some(metatile), Some(tileset), Some(path), Some(slots)) => if text::trimmed(
                        f[2],
                    ) == "1"@ {
                        Some(
                            DoorModel {
                                tileset: (tileset % 65536) as u16,
                                metatile,
                                path,
                                slots,
                            },
                        )
                    } else {
                        None
                    },
                    _ => None,
                }
            }
        },
    }
}

/// Whether a line ends the table.
pub open spec fn ends_table(line: Seq<char>) -> bool {
    text::has_prefix(text::trimmed(line), "};"@)
}

/// The doors of the first `n` lines, up to the end of the table.
pub open spec fn doors_among(ls: Seq<Seq<char>>, s: Sources, n: int) -> Seq<DoorModel>
    decreases n,
{
    if n <= 0 {
        seq![]
    } else if exists|k: int| 0 <= k < n && ends_table(#[trigger] ls[k]) {
        doors_among(ls, s, n - 1)
    } else {
        match door_of(ls[n - 1], s) {
            Some(d) => doors_among(ls, s, n - 1).push(d),
            None => doors_among(ls, s, n - 1),
        }
    }
}

/// The table of doors in a source file; empty where it has none.
pub open spec fn table_of(source: Seq<char>) -> Seq<char> {
    let parts = text::cut(source, "sDoorAnimGraphicsTable[] ="@);
    if parts.len() > 1 && text::place(parts[1], "}"@) is Some {
        parts[1]
    } else {
        seq![]
    }
}

/// What the table of a source file is read against.
pub open spec fn sources_of(
    labels: Seq<char>,
    source: Seq<char>,
    tilesets: Seq<Seq<char>>,
) -> Sources {
    let ls = text::lines(source);
    let chunks = text::cut(source, "static const u8 sDoorAnimPalettes_"@);
    Sources {
        labels: labels_of(text::lines(labels), text::lines(labels).len() as int),
        files: files_of(ls, ls.len() as int),
        palettes: palettes_of(chunks, chunks.len() as int),
        tilesets,
    }
}

/// The doors of a source file.
pub open spec fn doors_of(
    labels: Seq<char>,
    source: Seq<char>,
    tilesets: Seq<Seq<char>>,
) -> Seq<DoorModel> {
    let ls = text::lines(table_of(source));
    doors_among(ls, sources_of(labels, source, tilesets), ls.len() as int)
}

// ---- reading -------------------------------------------------------------

fn read_label(line: &Text) -> (r: Option<(Text, u16)>)
    ensures
        match label_of(line@) {
            Some((n, v)) => r is Some && (r->0).0@ == n && (r->0).1 == v,
            None => r is None,
        },
{
    proof {
        reveal_strlit("0x");
    }
    match strip_prefix(&trim(line), "#define METATILE_") {
        None => None,
        Some(rest) => {
            let w = split_whitespace(&rest);
            let ghost ws = text::words(rest@);
            assert(ws.len() == w@.len());
            if w.len() < 2 {
                return None;
            }
            assert(ws[0] == w@[0]@ && ws[1] == w@[1]@);
            match parse_number(&trim_start_matches(&w[1], "0x"), 16, 65535) {
                Some(v) => Some((copy(&w[0]), v as u16)),
                None => None,
            }
        },
    }
}

fn read_tiles(line: &Text) -> (r: Option<(Text, Text)>)
    ensures
        match tiles_of(line@) {
            Some((n, v)) => r is Some && (r->0).0@ == n && (r->0).1@ == v,
            None => r is None,
        },
{
    match strip_prefix(&trim(line), "static const u8 sDoorAnimTiles_") {
        None => None,
        Some(rest) => match split_once(&rest, "[] = INCGFX_U8(\"") {
            None => None,
            Some((sym, after)) => {
                proof {
                    reveal_strlit("\"");
                }
                let mut name = chars_of("sDoorAnimTiles_");
                text::append(&mut name, &sym);
                let parts = split(&after, "\"");
                assert(parts@[0]@ == text::texts(parts@)[0]);
                Some((name, copy(&parts[0])))
            },
        },
    }
}

fn read_slots(chunk: &Text) -> (r: Option<(Text, Vec<u64>)>)
    ensures
        match slots_of(chunk@) {
            Some((n, v)) => r is Some && (r->0).0@ == n && (r->0).1@ == v,
            None => r is None,
        },
{
    let (name, rest): (Text, Text) = match split_once(chunk, "[] = {") {
        Some(p) => p,
        None => return None,
    };
    let body: Text = match split_once(&rest, "}") {
        Some((b, _)) => b,
        None => return None,
    };
    proof {
        reveal_strlit(",");
    }
    let parts = split(&body, ",");
    let ghost all = text::cut(body@, ","@);
    let mut slots: Vec<u64> = Vec::new();
    let mut i: usize = 0;
    while i < parts.len()
        invariant
            i <= parts@.len(),
            text::texts(parts@) == all,
            slots@ == numbers_among(all, i as int),
        decreases parts.len() - i,
    {
        assert(all[i as int] == parts@[i as int]@);
        if let Some(v) = parse_number(&trim(&parts[i]), 10, usize::MAX as u64) {
            slots.push(v);
        }
        i += 1;
    }
    assert(all.len() == parts@.len());
    let mut full = chars_of("sDoorAnimPalettes_");
    text::append(&mut full, &name);
    Some((full, slots))
}

/// The tables that the lines of the door table are read against.
struct Tables {
    labels: Vec<Text>,
    values: Vec<u16>,
    files: Vec<Text>,
    paths: Vec<Text>,
    palettes: Vec<Text>,
    slots: Vec<Vec<u64>>,
}

spec fn slot_lists(v: Seq<Vec<u64>>) -> Seq<Seq<u64>> {
    Seq::new(v.len(), |i: int| v[i]@)
}

spec fn are_tables(t: Tables, s: Sources) -> bool {
    &&& text::texts(t.labels@) == s.labels.names
    &&& t.values@ == s.labels.values
    &&& t.values@.len() == t.labels@.len()
    &&& text::texts(t.files@) == s.files.names
    &&& text::texts(t.paths@) == s.files.values
    &&& t.paths@.len() == t.files@.len()
    &&& text::texts(t.palettes@) == s.palettes.names
    &&& slot_lists(t.slots@) == s.palettes.values
    &&& t.slots@.len() == t.palettes@.len()
}

fn read_labels(labels: &str) -> (r: (Vec<Text>, Vec<u16>))
    ensures
        text::texts(r.0@) == labels_of(
            text::lines(labels@),
            text::lines(labels@).len() as int,
        ).names,
        r.1@ == labels_of(text::lines(labels@), text::lines(labels@).len() as int).values,
        r.0@.len() == r.1@.len(),
{
    let ls = split_lines(&chars_of(labels));
    let ghost all = text::lines(labels@);
    let mut names: Vec<Text> = Vec::new();
    let mut values: Vec<u16> = Vec::new();
    assert(text::texts(names@) =~= seq![]);
    let mut i: usize = 0;
    while i < ls.len()
        invariant
            i <= ls@.len(),
            text::texts(ls@) == all,
            names@.len() == values@.len(),
            text::texts(names@) == labels_of(all, i as int).names,
            values@ == labels_of(all, i as int).values,
        decreases ls.len() - i,
    {
        assert(all[i as int] == ls@[i as int]@);
        if let Some((n, v)) = read_label(&ls[i]) {
            let ghost before = text::texts(names@);
            let ghost name = n@;
            names.push(n);
            values.push(v);
            assert(text::texts(names@) =~= before.push(name));
        }
        i += 1;
    }
    assert(all.len() == ls@.len());
    (names, values)
}

fn read_files(source: &Text) -> (r: (Vec<Text>, Vec<Text>))
    ensures
        text::texts(r.0@) == files_of(text::lines(source@), text::lines(source@).len() as int).names,
        text::texts(r.1@) == files_of(
            text::lines(source@),
            text::lines(source@).len() as int,
        ).values,
        r.0@.len() == r.1@.len(),
{
    let ls = split_lines(source);
    let ghost all = text::lines(source@);
    let mut names: Vec<Text> = Vec::new();
    let mut paths: Vec<Text> = Vec::new();
    assert(text::texts(names@) =~= seq![]);
    let mut i: usize = 0;
    while i < ls.len()
        invariant
            i <= ls@.len(),
            text::texts(ls@) == all,
            names@.len() == paths@.len(),
            text::texts(names@) == files_of(all, i as int).names,
            text::texts(paths@) == files_of(all, i as int).values,
        decreases ls.len() - i,
    {
        assert(all[i as int] == ls@[i as int]@);
        if let Some((n, p)) = read_tiles(&ls[i]) {
            let ghost (before, were) = (text::texts(names@), text::texts(paths@));
            let ghost (name, path) = (n@, p@);
            names.push(n);
            paths.push(p);
            assert(text::texts(names@) =~= before.push(name));
            assert(text::texts(paths@) =~= were.push(path));
        }
        i += 1;
    }
    assert(all.len() == ls@.len());
    (names, paths)
}

fn read_palettes(source: &Text) -> (r: (Vec<Text>, Vec<Vec<u64>>))
    ensures
        ({
            let chunks = text::cut(source@, "static const u8 sDoorAnimPalettes_"@);
            let t = palettes_of(chunks, chunks.len() as int);
            &&& text::texts(r.0@) == t.names
            &&& slot_lists(r.1@) == t.values
            &&& r.0@.len() == r.1@.len()
        }),
{
    proof {
        reveal_strlit("static const u8 sDoorAnimPalettes_");
    }
    let chunks = split(source, "static const u8 sDoorAnimPalettes_");
    let ghost all = text::cut(source@, "static const u8 sDoorAnimPalettes_"@);
    let mut names: Vec<Text> = Vec::new();
    let mut slots: Vec<Vec<u64>> = Vec::new();
    assert(text::texts(names@) =~= seq![]);
    assert(slot_lists(slots@) =~= seq![]);
    let mut i: usize = 1;
    while i < chunks.len()
        invariant
            1 <= i <= chunks@.len(),
            text::texts(chunks@) == all,
            names@.len() == slots@.len(),
            text::texts(names@) == palettes_of(all, i as int).names,
            slot_lists(slots@) == palettes_of(all, i as int).values,
        decreases chunks.len() - i,
    {
        assert(all[i as int] == chunks@[i as int]@);
        if let Some((n, v)) = read_slots(&chunks[i]) {
            let ghost (before, were) = (text::texts(names@), slot_lists(slots@));
            let ghost (name, list) = (n@, v@);
            names.push(n);
            slots.push(v);
            assert(text::texts(names@) =~= before.push(name));
            assert(slot_lists(slots@) =~= were.push(list));
        }
        i += 1;
    }
    assert(all.len() == chunks@.len());
    (names, slots)
}

fn copy_slots(v: &Vec<u64>) -> (r: Vec<u64>)
    ensures
        r@ == v@,
{
    let mut r: Vec<u64> = Vec::new();
    let mut i: usize = 0;
    while i < v.len()
        invariant
            i <= v@.len(),
            r@ == v@.take(i as int),
        decreases v.len() - i,
    {
        r.push(v[i]);
        assert(v@.take(i + 1) =~= v@.take(i as int).push(v@[i as int]));
        i += 1;
    }
    assert(v@.take(i as int) =~= v@);
    r
}

fn read_door(line: &Text, t: &Tables, tilesets: &Vec<Text>, Ghost(s): Ghost<Sources>) -> (r: Option<
    Door,
>)
    requires
        are_tables(*t, s),
        text::texts(tilesets@) == s.tilesets,
    ensures
        match door_of(line@, s) {
            Some(d) => r is Some && r->0.model() == d,
            None => r is None,
        },
{
    let rest = match strip_prefix(&trim(line), "{METATILE_") {
        Some(x) => x,
        None => return None,
    };
    proof {
        reveal_strlit("},");
        reveal_strlit(",");
        reveal_strlit("_");
    }
    let f = split(&trim_end_matches(&rest, "},"), ",");
    let ghost fs = text::texts(f@);
    assert(fs.len() == f@.len());
    if f.len() < 5 {
        return None;
    }
    assert(fs[0] == f@[0]@ && fs[2] == f@[2]@ && fs[3] == f@[3]@ && fs[4] == f@[4]@);
    let label = trim(&f[0]);
    assert(text::texts(t.labels@).len() == t.labels@.len());
    assert(text::texts(t.files@).len() == t.files@.len());
    assert(text::texts(t.palettes@).len() == t.palettes@.len());
    assert(text::texts(tilesets@).len() == tilesets@.len());
    let l: usize = match find_last(&t.labels, &label) {
        Some(i) => i,
        None => return None,
    };
    let parts = split(&label, "_");
    assert(parts@[0]@ == text::texts(parts@)[0]);
    let mut name = chars_of("gTileset_");
    text::append(&mut name, &parts[0]);
    let ts: usize = match find_last(tilesets, &name) {
        Some(i) => i,
        None => return None,
    };
    let p: usize = match find_last(&t.files, &trim(&f[3])) {
        Some(i) => i,
        None => return None,
    };
    let q: usize = match find_last(&t.palettes, &trim(&f[4])) {
        Some(i) => i,
        None => return None,
    };
    assert(s.files.values[p as int] == t.paths@[p as int]@);
    assert(s.palettes.values[q as int] == t.slots@[q as int]@);
    if is_text(&trim(&f[2]), "1") {
        Some(
            Door {
                tileset: (ts % 65536) as u16,
                metatile: t.values[l],
                path: string_of(&t.paths[p]),
                slots: copy_slots(&t.slots[q]),
            },
        )
    } else {
        None
    }
}

fn read_table(source: &Text) -> (t: Text)
    ensures
        t@ == table_of(source@),
{
    proof {
        reveal_strlit("sDoorAnimGraphicsTable[] =");
    }
    let parts = split(source, "sDoorAnimGraphicsTable[] =");
    assert(text::texts(parts@).len() == parts@.len());
    if parts.len() > 1 {
        assert(parts@[1]@ == text::texts(parts@)[1]);
        if contains(&parts[1], "}") {
            return copy(&parts[1]);
        }
    }
    let none: Text = Vec::new();
    assert(none@ =~= seq![]);
    none
}

proof fn lemma_doors_end(ls: Seq<Seq<char>>, s: Sources, k: int, n: int)
    requires
        0 <= k < n,
        ends_table(ls[k]),
    ensures
        doors_among(ls, s, n) == doors_among(ls, s, k),
    decreases n,
{
    if n > k + 1 {
        lemma_doors_end(ls, s, k, n - 1);
    }
}

/// The doors of a source file, by the labels of metatiles and the names of the
/// tilesets.
pub fn parse_doors(labels: &str, source: &str, tilesets: &Vec<Text>) -> (out: Vec<Door>)
    ensures
        door_models(out@) == doors_of(labels@, source@, text::texts(tilesets@)),
{
    let ghost s = sources_of(labels@, source@, text::texts(tilesets@));
    let whole = chars_of(source);
    let (label_names, values): (Vec<Text>, Vec<u16>) = read_labels(labels);
    let (files, paths): (Vec<Text>, Vec<Text>) = read_files(&whole);
    let (palettes, slots): (Vec<Text>, Vec<Vec<u64>>) = read_palettes(&whole);
    let t = Tables { labels: label_names, values, files, paths, palettes, slots };
    let ls = split_lines(&read_table(&whole));
    let ghost all = text::lines(table_of(source@));
    let mut out: Vec<Door> = Vec::new();
    assert(door_models(out@) =~= seq![]);
    let mut i: usize = 0;
    while i < ls.len()
        invariant
            i <= ls@.len(),
            text::texts(ls@) == all,
            s == sources_of(labels@, source@, text::texts(tilesets@)),
            all == text::lines(table_of(source@)),
            are_tables(t, s),
            forall|k: int| 0 <= k < i ==> !ends_table(#[trigger] all[k]),
            door_models(out@) == doors_among(all, s, i as int),
        decreases ls.len() - i,
    {
        assert(all[i as int] == ls@[i as int]@);
        if starts_with(&trim(&ls[i]), "};") {
            proof {
                assert(all.len() == ls@.len());
                lemma_doors_end(all, s, i as int, all.len() as int);
            }
            return out;
        }
        if let Some(d) = read_door(&ls[i], &t, tilesets, Ghost(s)) {
            let ghost before = door_models(out@);
            let ghost m = d.model();
            out.push(d);
            assert(door_models(out@) =~= before.push(m));
        }
        i += 1;
    }
    assert(all.len() == ls@.len());
    out
}

// ---- frames --------------------------------------------------------------

/// The palette slot of a pixel: the tiles of a frame of 16 by 32 pixels, two to
/// a row, slot 0 where the list ends.
pub open spec fn slot_at(slots: Seq<u64>, i: int) -> int {
    let tile = i % 16 / 8 + i / 16 % 32 / 8 * 2;
    if tile < slots.len() {
        slots[tile] as int
    } else {
        0
    }
}

/// The tileset whose palette colors a slot: the first six are the primary's.
pub open spec fn owner(
    slot: int,
    general: TilesetData,
    door: TilesetData,
) -> TilesetData {
    if slot < 6 && door.is_secondary {
        general
    } else {
        door
    }
}

/// Whether every pixel of the frames has a color.
pub open spec fn is_colored(pixels: Seq<u8>, slots: Seq<u64>) -> bool {
    forall|i: int|
        0 <= i < pixels.len() && i < 1536 && #[trigger] pixels[i] != 0 ==> slot_at(slots, i) * 16
            + pixels[i] < 256
}

/// A byte of the frames: index 0, and what is past the image, is clear.
pub open spec fn frame_byte(
    pixels: Seq<u8>,
    slots: Seq<u64>,
    general: TilesetData,
    door: TilesetData,
    k: int,
) -> u8 {
    let i = k / 4;
    if i >= pixels.len() || pixels[i] == 0 {
        0
    } else {
        let slot = slot_at(slots, i);
        owner(slot, general, door).palettes[slot * 16 + pixels[i]][k % 4]
    }
}

/// Bake the three frames of a door, 16 by 32 pixels each, top to bottom, where
/// every pixel has a color.
pub fn bake_door(
    pixels: &Vec<u8>,
    slots: &Vec<u64>,
    general: &TilesetData,
    door: &TilesetData,
) -> (r: Option<Vec<u8>>)
    ensures
        match r {
            Some(rgba) => is_colored(pixels@, slots@) && rgba@ == Seq::new(
                6144,
                |k: int| frame_byte(pixels@, slots@, *general, *door, k),
            ),
            None => !is_colored(pixels@, slots@),
        },
{
    let mut rgba: Vec<u8> = Vec::new();
    let mut i: usize = 0;
    while i < 1536
        invariant
            i <= 1536,
            rgba@.len() == 4 * i,
            forall|k: int|
                0 <= k < 4 * i ==> #[trigger] rgba@[k] == frame_byte(
                    pixels@,
                    slots@,
                    *general,
                    *door,
                    k,
                ),
            forall|k: int|
                0 <= k < pixels@.len() && k < i && #[trigger] pixels@[k] != 0 ==> slot_at(slots@, k)
                    * 16 + pixels@[k] < 256,
        decreases 1536 - i,
    {
        let mut color = [0u8, 0u8, 0u8, 0u8];
        if i < pixels.len() && pixels[i] != 0 {
            let c: u8 = pixels[i];
            let tile: usize = i % 16 / 8 + i / 16 % 32 / 8 * 2;
            let slot: u64 = if tile < slots.len() { slots[tile] } else { 0 };
            assert(slot == slot_at(slots@, i as int));
            if slot >= 16 || slot * 16 + c as u64 >= 256 {
                return None;
            }
            let at: usize = slot as usize * 16 + c as usize;
            color = if slot < 6 && door.is_secondary {
                general.palettes[at]
            } else {
                door.palettes[at]
            };
        }
        let ghost before = rgba@;
        rgba.push(color[0]);
        rgba.push(color[1]);
        rgba.push(color[2]);
        rgba.push(color[3]);
        assert forall|k: int| 0 <= k < 4 * (i + 1) implies #[trigger] rgba@[k] == frame_byte(
            pixels@,
            slots@,
            *general,
            *door,
            k,
        ) by {
            if k < 4 * i {
                assert(rgba@[k] == before[k]);
            } else {
                assert(k / 4 == i);
            }
        }
        i += 1;
    }
    assert(rgba@ =~= Seq::new(
        6144,
        |k: int| frame_byte(pixels@, slots@, *general, *door, k),
    ));
    Some(rgba)
}

} // verus!
