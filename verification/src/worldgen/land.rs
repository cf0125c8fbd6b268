//! The land out of the source files: the layouts with their blocks, the maps,
//! and where everything lies.

use vstd::prelude::*;
use crate::files::Files;
use crate::game::data::{LayoutData, RealmData, Start};
use crate::text;
use crate::text::{append, chars_of, Text};
use crate::worldgen::art;
use crate::worldgen::json;
use crate::worldgen::layouts;
use crate::worldgen::layouts::{layout_rows, wanted, Layouts, Row, RowModel, Wanted};
use crate::worldgen::maps;
use crate::worldgen::maps::{map_names, read_map, Entry, RawMap, RawMapModel};
use crate::worldgen::realms;
use crate::worldgen::realms::{extent, make_realms, start_place, Extent};
use crate::worldgen::stitch;
use crate::worldgen::stitch::{find_map, map_ids, stitch};

verus! {

// ---- layouts -------------------------------------------------------------

/// A row of the layout list that is kept: the tilesets that it names, and the
/// bytes of its blocks.
pub struct Kept {
    pub row: RowModel,
    pub key: (u16, u16),
    pub blocks: Seq<u8>,
}

/// The tileset pairs of the first `n` layouts.
pub open spec fn pairs_of(ks: Seq<Kept>, n: int) -> Seq<(u16, u16)>
    decreases n,
{
    if n <= 0 {
        seq![]
    } else {
        layouts::with_pair(pairs_of(ks, n - 1), ks[n - 1].key)
    }
}

/// The kept ones of the first `n` rows; nothing where a row lacks something,
/// its file is missing or its layout cannot be numbered.
pub open spec fn kept_among(
    f: Files,
    rows: Seq<RowModel>,
    names: Seq<Seq<char>>,
    n: int,
) -> Option<Seq<Kept>>
    decreases n,
{
    if n <= 0 {
        Some(seq![])
    } else {
        let row = rows[n - 1];
        match (kept_among(f, rows, names, n - 1), layouts::wanted_by(row, names)) {
            (None, _) => None,
            (_, Wanted::Fault) => None,
            (Some(had), Wanted::Nothing) => Some(had),
            (Some(had), Wanted::Blocks { primary, secondary }) => {
                let key = (primary, secondary);
                let area = layouts::low32(row.width->0) * layouts::low32(row.height->0);
                let pairs = layouts::with_pair(pairs_of(had, had.len() as int), key);
                match f.file(row.path->0) {
                    Some(blocks) => if area <= u32::MAX && pairs.len() < 65536 {
                        Some(had.push(Kept { row, key, blocks }))
                    } else {
                        None
                    },
                    None => None,
                }
            },
        }
    }
}

/// The rows of the layout list.
pub open spec fn rows_in(items: Seq<Seq<char>>) -> Seq<RowModel> {
    Seq::new(items.len(), |i: int| layouts::row_of(items[i]))
}

/// The layouts to make, by the names of the tilesets.
pub open spec fn kept_layouts(f: Files, names: Seq<Seq<char>>) -> Option<Seq<Kept>> {
    match f.text("data/layouts/layouts.json"@) {
        None => None,
        Some(doc) => match json::items_at(doc, "/layouts"@) {
            None => None,
            Some(items) => kept_among(f, rows_in(items), names, items.len() as int),
        },
    }
}

/// Whether layouts are what their rows and blocks say.
pub open spec fn are_layouts(ls: Seq<LayoutData>, ks: Seq<Kept>) -> bool {
    &&& ls.len() == ks.len()
    &&& forall|i: int|
        0 <= i < ls.len() ==> layouts::is_layout(
            #[trigger] ls[i],
            ks[i].row,
            ks[i].blocks,
            pairs_of(ks, i),
            ks[i].key,
        )
}

/// The ids of layouts.
pub open spec fn layout_ids(ks: Seq<Kept>) -> Seq<Seq<char>> {
    Seq::new(ks.len(), |i: int| ks[i].row.id->0)
}

proof fn lemma_kept_stop(
    f: Files,
    rows: Seq<RowModel>,
    names: Seq<Seq<char>>,
    m: int,
    n: int,
)
    requires
        0 <= m <= n,
        kept_among(f, rows, names, m) is None,
    ensures
        kept_among(f, rows, names, n) is None,
    decreases n,
{
    if m < n {
        lemma_kept_stop(f, rows, names, m, n - 1);
    }
}

proof fn lemma_pairs_of(a: Seq<Kept>, b: Seq<Kept>, n: int)
    requires
        0 <= n <= a.len(),
        n <= b.len(),
        forall|i: int| 0 <= i < n ==> a[i] == b[i],
    ensures
        pairs_of(a, n) == pairs_of(b, n),
    decreases n,
{
    if n > 0 {
        lemma_pairs_of(a, b, n - 1);
    }
}

proof fn lemma_layouts_grow(ls: Seq<LayoutData>, ks: Seq<Kept>, l: LayoutData, k: Kept)
    requires
        are_layouts(ls, ks),
        layouts::is_layout(l, k.row, k.blocks, pairs_of(ks, ks.len() as int), k.key),
    ensures
        are_layouts(ls.push(l), ks.push(k)),
        pairs_of(ks.push(k), ks.len() as int + 1) == layouts::with_pair(
            pairs_of(ks, ks.len() as int),
            k.key,
        ),
{
    let now = ks.push(k);
    assert forall|i: int| 0 <= i < ls.push(l).len() implies layouts::is_layout(
        #[trigger] ls.push(l)[i],
        now[i].row,
        now[i].blocks,
        pairs_of(now, i),
        now[i].key,
    ) by {
        lemma_pairs_of(now, ks, i);
        if i < ls.len() {
            assert(ls.push(l)[i] == ls[i]);
        }
    }
    lemma_pairs_of(now, ks, ks.len() as int);
}

/// All layouts and their pairs.
pub fn read_layouts(f: &Files, names: &Vec<Text>) -> (r: Option<Layouts>)
    requires
        f.wf(),
    ensures
        match kept_layouts(*f, text::texts(names@)) {
            None => r is None,
            Some(ks) => r is Some && are_layouts(r->0.layouts@, ks) && r->0.pairs@ == pairs_of(
                ks,
                ks.len() as int,
            ),
        },
{
    let doc = match f.read("data/layouts/layouts.json") {
        Some(d) => d,
        None => return None,
    };
    let rows = match layout_rows(doc.as_str()) {
        Some(r) => r,
        None => return None,
    };
    let ghost items = json::items_at(doc@, "/layouts"@)->0;
    let ghost all = rows_in(items);
    let ghost ns = text::texts(names@);
    let ghost mut ks: Seq<Kept> = seq![];
    let mut l = Layouts::new();
    let mut n: usize = 0;
    assert(l.pairs@ =~= seq![]);
    while n < rows.len()
        invariant
            n <= rows@.len(),
            rows@.len() == all.len(),
            f.wf(),
            ns == text::texts(names@),
            kept_layouts(*f, ns) == kept_among(*f, all, ns, all.len() as int),
            forall|i: int| 0 <= i < rows@.len() ==> (#[trigger] rows@[i]).model() == all[i],
            kept_among(*f, all, ns, n as int) == Some(ks),
            are_layouts(l.layouts@, ks),
            l.pairs@ == pairs_of(ks, ks.len() as int),
        decreases rows.len() - n,
    {
        let row = &rows[n];
        assert(row.model() == all[n as int]);
        match wanted(row, names) {
            Wanted::Nothing => {},
            Wanted::Fault => {
                proof {
                    lemma_kept_stop(*f, all, ns, n + 1, all.len() as int);
                }
                return None;
            },
            Wanted::Blocks { primary, secondary } => {
                let path = match &row.path {
                    Some(p) => chars_of(p.as_str()),
                    None => return None,
                };
                let ghost had = l.layouts@;
                let added = match f.get(&path) {
                    Some(b) => l.add(row, primary, secondary, b.as_slice()),
                    None => false,
                };
                if !added {
                    proof {
                        lemma_kept_stop(*f, all, ns, n + 1, all.len() as int);
                    }
                    return None;
                }
                proof {
                    let k = Kept {
                        row: all[n as int],
                        key: (primary, secondary),
                        blocks: f.file(path@)->0,
                    };
                    assert(l.layouts@ =~= had.push(l.layouts@.last()));
                    lemma_layouts_grow(had, ks, l.layouts@.last(), k);
                    ks = ks.push(k);
                }
            },
        }
        n += 1;
    }
    Some(l)
}

/// The ids of layouts.
pub(crate) fn ids_of_layouts(ls: &Vec<LayoutData>, Ghost(ks): Ghost<Seq<Kept>>) -> (ids: Vec<Text>)
    requires
        are_layouts(ls@, ks),
    ensures
        text::texts(ids@) == layout_ids(ks),
{
    let mut ids: Vec<Text> = Vec::new();
    let mut n: usize = 0;
    while n < ls.len()
        invariant
            n <= ls@.len(),
            ids@.len() == n,
            forall|i: int| 0 <= i < n ==> (#[trigger] ids@[i])@ == ls@[i].id@,
        decreases ls.len() - n,
    {
        ids.push(chars_of(ls[n].id.as_str()));
        n += 1;
    }
    assert forall|i: int| 0 <= i < ids@.len() implies text::texts(ids@)[i] == layout_ids(ks)[i] by {
        assert(ids@[i]@ == ls@[i].id@);
    }
    assert(text::texts(ids@) =~= layout_ids(ks));
    ids
}

// ---- maps ----------------------------------------------------------------

/// Where the file of a map lies.
pub open spec fn map_path(name: Seq<char>) -> Seq<char> {
    "data/maps/"@ + name + "/map.json"@
}

/// The maps among the first `n` names: those whose layout there is; nothing
/// where a file is missing or faulty.
pub open spec fn maps_among(
    f: Files,
    names: Seq<Seq<char>>,
    ids: Seq<Seq<char>>,
    n: int,
) -> Option<Seq<RawMapModel>>
    decreases n,
{
    if n <= 0 {
        Some(seq![])
    } else {
        match (maps_among(f, names, ids, n - 1), f.text(map_path(names[n - 1]))) {
            (Some(had), Some(doc)) => match maps::map_of(doc, ids) {
                Entry::Left => Some(had),
                Entry::Faulty => None,
                Entry::Taken(m) => Some(had.push(m)),
            },
            _ => None,
        }
    }
}

/// All maps.
pub open spec fn maps_in(f: Files, ids: Seq<Seq<char>>) -> Option<Seq<RawMapModel>> {
    match f.text("data/maps/map_groups.json"@) {
        None => None,
        Some(doc) => match maps::names_of(doc) {
            None => None,
            Some(names) => maps_among(f, names, ids, names.len() as int),
        },
    }
}

proof fn lemma_maps_stop(
    f: Files,
    names: Seq<Seq<char>>,
    ids: Seq<Seq<char>>,
    m: int,
    n: int,
)
    requires
        0 <= m <= n,
        maps_among(f, names, ids, m) is None,
    ensures
        maps_among(f, names, ids, n) is None,
    decreases n,
{
    if m < n {
        lemma_maps_stop(f, names, ids, m, n - 1);
    }
}

/// Every map that is taken has its layout.
proof fn lemma_maps_have_layouts(
    f: Files,
    names: Seq<Seq<char>>,
    ids: Seq<Seq<char>>,
    n: int,
)
    ensures
        maps_among(f, names, ids, n) matches Some(raws) ==> forall|i: int|
            0 <= i < raws.len() ==> (#[trigger] raws[i]).layout < ids.len(),
    decreases n,
{
    if n > 0 {
        lemma_maps_have_layouts(f, names, ids, n - 1);
        if let Some(doc) = f.text(map_path(names[n - 1])) {
            if let Some(l) = json::text_at(doc, "/layout"@) {
                art::lemma_tileset_number(ids, l);
            }
        }
    }
}

/// Every map has its layout.
pub proof fn lemma_maps_in(f: Files, ids: Seq<Seq<char>>)
    ensures
        maps_in(f, ids) matches Some(raws) ==> forall|i: int|
            0 <= i < raws.len() ==> (#[trigger] raws[i]).layout < ids.len(),
{
    if let Some(doc) = f.text("data/maps/map_groups.json"@) {
        if let Some(names) = maps::names_of(doc) {
            lemma_maps_have_layouts(f, names, ids, names.len() as int);
        }
    }
}

fn path_of_map(name: &str) -> (p: Text)
    ensures
        p@ == map_path(name@),
{
    let mut p = chars_of("data/maps/");
    append(&mut p, &chars_of(name));
    append(&mut p, &chars_of("/map.json"));
    p
}

/// All maps.
pub fn read_maps(f: &Files, ids: &Vec<Text>) -> (r: Option<Vec<RawMap>>)
    requires
        f.wf(),
    ensures
        match maps_in(*f, text::texts(ids@)) {
            None => r is None,
            Some(ms) => r is Some && maps::map_models(r->0@) == ms,
        },
{
    let doc = match f.read("data/maps/map_groups.json") {
        Some(d) => d,
        None => return None,
    };
    let names = match map_names(doc.as_str()) {
        Some(n) => n,
        None => return None,
    };
    let ghost all = json::strings(names@);
    let ghost is = text::texts(ids@);
    let mut out: Vec<RawMap> = Vec::new();
    let mut n: usize = 0;
    assert(maps::map_models(out@) =~= seq![]);
    while n < names.len()
        invariant
            n <= names@.len(),
            f.wf(),
            all == json::strings(names@),
            is == text::texts(ids@),
            maps_in(*f, is) == maps_among(*f, all, is, all.len() as int),
            maps_among(*f, all, is, n as int) == Some(maps::map_models(out@)),
        decreases names.len() - n,
    {
        assert(all[n as int] == names@[n as int]@);
        let entry = match f.read_at(&path_of_map(names[n].as_str())) {
            Some(d) => read_map(d.as_str(), ids),
            None => Entry::Faulty,
        };
        match entry {
            Entry::Left => {},
            Entry::Faulty => {
                proof {
                    lemma_maps_stop(*f, all, is, n + 1, all.len() as int);
                }
                return None;
            },
            Entry::Taken(m) => {
                let ghost was = maps::map_models(out@);
                let ghost mm = m.model();
                out.push(m);
                assert(maps::map_models(out@) =~= was.push(mm));
            },
        }
        n += 1;
    }
    Some(out)
}

// ---- places --------------------------------------------------------------

/// Whether a map is there and part of the overworld.
pub open spec fn is_out(
    raws: Seq<RawMapModel>,
    pos: Seq<Option<(i32, i32)>>,
    id: Seq<char>,
) -> bool {
    stitch::map_number(raws, id) matches Some(i) && pos[i] is Some
}

/// Whether the landmarks of the overworld are part of it.
pub open spec fn has_landmarks(raws: Seq<RawMapModel>, pos: Seq<Option<(i32, i32)>>) -> bool {
    &&& is_out(raws, pos, "MAP_LITTLEROOT_TOWN"@)
    &&& is_out(raws, pos, "MAP_ROUTE115"@)
    &&& is_out(raws, pos, "MAP_RUSTBORO_CITY"@)
}

/// The overworld from Littleroot Town on.
pub open spec fn stitched(raws: Seq<RawMapModel>, ls: Seq<LayoutData>) -> Option<
    Seq<Option<(i32, i32)>>,
> {
    match stitch::map_number(raws, "MAP_LITTLEROOT_TOWN"@) {
        None => None,
        Some(seed) => match stitch::overworld(raws, ls, seed) {
            None => None,
            Some(s) => Some(s.pos),
        },
    }
}

/// Whether corners are those of the overworld.
pub open spec fn are_corners(
    raws: Seq<RawMapModel>,
    ls: Seq<LayoutData>,
    pos: Seq<Option<(i32, i32)>>,
    e: Extent,
) -> bool {
    realms::spans(raws, ls, pos, e, raws.len() as int)
}

/// Whether the maps can be laid out: the overworld and its landmarks are
/// there, every coordinate has its range, and there is a place to start.
pub open spec fn can_be_laid(raws: Seq<RawMapModel>, ls: Seq<LayoutData>) -> bool {
    match stitched(raws, ls) {
        None => false,
        Some(pos) => {
            &&& has_landmarks(raws, pos)
            &&& realms::is_bounded(raws, ls, pos)
            &&& forall|e: Extent| #[trigger]
                are_corners(raws, ls, pos, e) ==> realms::is_sized(raws, pos, e) && (
                realms::start_of(raws, pos, e) matches Some(p) && stitch::is_place(p))
        },
    }
}

/// Whether realms and a start are where the maps lie.
pub open spec fn are_laid(
    rs: Seq<RealmData>,
    start: Start,
    raws: Seq<RawMapModel>,
    ls: Seq<LayoutData>,
) -> bool {
    match stitched(raws, ls) {
        None => false,
        Some(pos) => exists|e: Extent| #[trigger]
            are_corners(raws, ls, pos, e) && realms::are_realms(
                rs,
                raws,
                ls,
                pos,
                e,
                raws.len() as int,
            ) && start.realm == 0 && realms::start_of(raws, pos, e) == Some(
                (start.x as int, start.y as int),
            ),
    }
}

fn is_placed(ids: &Vec<Text>, pos: &Vec<Option<(i32, i32)>>, id: &str, Ghost(raws): Ghost<
    Seq<RawMapModel>,
>) -> (b: bool)
    requires
        text::texts(ids@) == stitch::ids_of(raws),
        ids@.len() == pos@.len() == raws.len(),
    ensures
        b == is_out(raws, pos@, id@),
{
    match find_map(ids, id) {
        Some(i) => pos[i].is_some(),
        None => false,
    }
}

/// An overworld has one set of corners.
pub proof fn corners_are_fixed(
    raws: Seq<RawMapModel>,
    ls: Seq<LayoutData>,
    pos: Seq<Option<(i32, i32)>>,
    a: Extent,
    b: Extent,
)
    requires
        are_corners(raws, ls, pos, a),
        are_corners(raws, ls, pos, b),
    ensures
        a == b,
{
}

/// The realms and the start.
pub fn lay_out(raws: &Vec<RawMap>, ls: &Vec<LayoutData>) -> (r: Option<(Vec<RealmData>, Start)>)
    requires
        stitch::has_layouts(maps::map_models(raws@), ls@),
    ensures
        match r {
            None => !can_be_laid(maps::map_models(raws@), ls@),
            Some((rs, start)) => can_be_laid(maps::map_models(raws@), ls@) && are_laid(
                rs@,
                start,
                maps::map_models(raws@),
                ls@,
            ),
        },
{
    let ghost ms = maps::map_models(raws@);
    let ids = map_ids(raws);
    let seed: usize = match find_map(&ids, "MAP_LITTLEROOT_TOWN") {
        Some(i) => i,
        None => return None,
    };
    let pos = match stitch(raws, ls, seed) {
        Some(p) => p,
        None => return None,
    };
    if !is_placed(&ids, &pos, "MAP_LITTLEROOT_TOWN", Ghost(ms)) || !is_placed(
        &ids,
        &pos,
        "MAP_ROUTE115",
        Ghost(ms),
    ) || !is_placed(&ids, &pos, "MAP_RUSTBORO_CITY", Ghost(ms)) {
        return None;
    }
    let e = match extent(raws, ls, &pos) {
        Some(e) => e,
        None => return None,
    };
    assert(are_corners(ms, ls@, pos@, e));
    let rs = match make_realms(raws, ls, &pos, e) {
        Some(r) => r,
        None => return None,
    };
    proof {
        assert forall|x: Extent| #[trigger] are_corners(ms, ls@, pos@, x) implies x == e by {
            corners_are_fixed(ms, ls@, pos@, x, e);
        }
    }
    match start_place(raws, &pos, e) {
        Some(start) => Some((rs, start)),
        None => None,
    }
}

} // verus!
