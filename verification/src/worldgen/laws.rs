//! What holds of the making of a world as a whole.

use vstd::prelude::*;
use crate::game::data::{LayoutData, MapData, RealmData, Start, WarpData};
use crate::text;
use crate::worldgen::layouts;
use crate::worldgen::layouts::RowModel;
use crate::worldgen::maps;
use crate::worldgen::maps::{ConnectionModel, Entry, RawMapModel, RawWarpModel, Side};
use crate::worldgen::realms;
use crate::worldgen::realms::Extent;
use crate::worldgen::stitch;

verus! {

// ---- maps and their realms -----------------------------------------------

/// How many of the first `n` maps are placed in the overworld, or are not.
pub open spec fn tally(pos: Seq<Option<(i32, i32)>>, placed: bool, n: int) -> int
    decreases n,
{
    if n <= 0 {
        0
    } else if (pos[n - 1] is Some) == placed {
        tally(pos, placed, n - 1) + 1
    } else {
        tally(pos, placed, n - 1)
    }
}

/// The number of the realm in which map `i` is found: the overworld for a placed
/// map, and otherwise one of its own, in the order of the maps.
pub open spec fn realm_number(pos: Seq<Option<(i32, i32)>>, i: int) -> int {
    if pos[i] is Some {
        0
    } else {
        1 + tally(pos, false, i)
    }
}

/// Map `i` as it is found in its realm.
pub open spec fn found(rs: Seq<RealmData>, pos: Seq<Option<(i32, i32)>>, i: int) -> MapData {
    if pos[i] is Some {
        rs[0].maps@[tally(pos, true, i)]
    } else {
        rs[realm_number(pos, i)].maps@[0]
    }
}

proof fn lemma_tally_low(pos: Seq<Option<(i32, i32)>>, placed: bool, n: int)
    ensures
        0 <= tally(pos, placed, n),
    decreases n,
{
    if n > 0 {
        lemma_tally_low(pos, placed, n - 1);
    }
}

proof fn lemma_tally(pos: Seq<Option<(i32, i32)>>, n: int)
    requires
        0 <= n <= pos.len(),
    ensures
        tally(pos, true, n) == realms::placed_among(pos, n).len(),
        tally(pos, false, n) == realms::apart_among(pos, n).len(),
        tally(pos, false, n) == realms::apart(pos, n),
        forall|i: int|
            0 <= i < n && (#[trigger] pos[i]) is Some ==> 0 <= tally(pos, true, i)
                < realms::placed_among(pos, n).len() && realms::placed_among(pos, n)[tally(
                pos,
                true,
                i,
            )] == i,
        forall|i: int|
            0 <= i < n && (#[trigger] pos[i]) is None ==> 0 <= tally(pos, false, i)
                < realms::apart_among(pos, n).len() && realms::apart_among(pos, n)[tally(
                pos,
                false,
                i,
            )] == i,
        0 <= tally(pos, true, n),
        0 <= tally(pos, false, n),
    decreases n,
{
    if n > 0 {
        lemma_tally(pos, n - 1);
        lemma_tally_low(pos, true, n - 1);
        lemma_tally_low(pos, false, n - 1);
    }
}

proof fn lemma_found(
    rs: Seq<RealmData>,
    raws: Seq<RawMapModel>,
    ls: Seq<LayoutData>,
    pos: Seq<Option<(i32, i32)>>,
    e: Extent,
    i: int,
)
    requires
        pos.len() == raws.len(),
        realms::are_realms(rs, raws, ls, pos, e, raws.len() as int),
        0 <= i < raws.len(),
    ensures
        realms::is_map(found(rs, pos, i), raws, pos, e, i),
        0 <= realm_number(pos, i) < rs.len(),
        realm_number(pos, i) == realms::realm_of(pos, i),
        pos[i] is None ==> {
            let r = rs[realm_number(pos, i)];
            &&& r.maps@.len() == 1
            &&& r.width == ls[raws[i].layout as int].width
            &&& r.height == ls[raws[i].layout as int].height
        },
        rs.len() == 1 + tally(pos, false, raws.len() as int),
        rs[0].maps@.len() == tally(pos, true, raws.len() as int),
{
    let n = raws.len() as int;
    lemma_tally(pos, n);
    lemma_tally(pos, i);
    if pos[i] is Some {
        let k = tally(pos, true, i);
        assert(realms::placed_among(pos, n)[k] == i);
        assert(realms::is_map(rs[0].maps@[k], raws, pos, e, realms::placed_among(pos, n)[k]));
    } else {
        let k = tally(pos, false, i);
        assert(realms::apart_among(pos, n)[k] == i);
        assert(rs[k + 1].width == ls[raws[realms::apart_among(pos, n)[k]].layout as int].width);
    }
}

/// Every map is found in a realm under its own id, with its own music and
/// layout: a placed map as far from the corner of the overworld as it was laid,
/// any other at the corner of a realm that holds it alone and has its size. Two
/// maps that are not placed have two realms.
pub proof fn every_map_is_found(
    rs: Seq<RealmData>,
    raws: Seq<RawMapModel>,
    ls: Seq<LayoutData>,
    pos: Seq<Option<(i32, i32)>>,
    e: Extent,
    i: int,
)
    requires
        pos.len() == raws.len(),
        realms::are_realms(rs, raws, ls, pos, e, raws.len() as int),
        0 <= i < raws.len(),
    ensures
        ({
            let m = found(rs, pos, i);
            &&& realm_number(pos, i) < rs.len()
            &&& m.id@ == raws[i].id
            &&& m.music@ == raws[i].music
            &&& m.layout == raws[i].layout
            &&& pos[i] matches Some(p) ==> m.x == p.0 - e.left && m.y == p.1 - e.top && rs[0].maps@.len()
                == tally(pos, true, raws.len() as int)
            &&& pos[i] is None ==> {
                let r = rs[realm_number(pos, i)];
                &&& m.x == 0 && m.y == 0
                &&& r.maps@.len() == 1
                &&& r.width == ls[raws[i].layout as int].width
                &&& r.height == ls[raws[i].layout as int].height
            }
        }),
        rs.len() == 1 + tally(pos, false, raws.len() as int),
        forall|j: int|
            i < j < raws.len() && pos[i] is None && (#[trigger] pos[j]) is None ==> realm_number(
                pos,
                i,
            ) < realm_number(pos, j),
{
    lemma_found(rs, raws, ls, pos, e, i);
    assert forall|j: int|
        i < j < raws.len() && pos[i] is None && (#[trigger] pos[j]) is None implies realm_number(
        pos,
        i,
    ) < realm_number(pos, j) by {
        lemma_tally_less(pos, i, j);
    }
}

proof fn lemma_tally_less(pos: Seq<Option<(i32, i32)>>, i: int, j: int)
    requires
        0 <= i < j,
        pos[i] is None,
    ensures
        tally(pos, false, i) < tally(pos, false, j),
    decreases j,
{
    if i < j - 1 {
        lemma_tally_less(pos, i, j - 1);
    }
}

// ---- warps ---------------------------------------------------------------

/// Whether map `j` is the one that an id names: the last that bears it.
pub open spec fn bears(raws: Seq<RawMapModel>, id: Seq<char>, j: int) -> bool {
    &&& 0 <= j < raws.len()
    &&& raws[j].id == id
    &&& forall|k: int| j < k < raws.len() ==> (#[trigger] raws[k]).id != id
}

/// Whether a warp leads to warp number `w.index` of a map that there is.
pub open spec fn leads_on(raws: Seq<RawMapModel>, w: RawWarpModel) -> bool {
    exists|j: int| #[trigger] bears(raws, w.dest, j) && w.index < raws[j].warps.len()
}

/// How many of the first `n` warps of a map lead on.
pub open spec fn leading(raws: Seq<RawMapModel>, i: int, n: int) -> int
    decreases n,
{
    if n <= 0 {
        0
    } else if leads_on(raws, raws[i].warps[n - 1]) {
        leading(raws, i, n - 1) + 1
    } else {
        leading(raws, i, n - 1)
    }
}

proof fn lemma_bears(raws: Seq<RawMapModel>, id: Seq<char>)
    ensures
        stitch::map_number(raws, id) matches Some(j) ==> bears(raws, id, j),
        forall|j: int| #[trigger] bears(raws, id, j) ==> stitch::map_number(raws, id) == Some(j),
{
    let ids = stitch::ids_of(raws);
    text::the_last_of_a_name_is_found(ids, id, raws.len() as int);
    if let Some(j) = stitch::map_number(raws, id) {
        assert(ids[j] == raws[j].id);
        assert forall|k: int| j < k < raws.len() implies (#[trigger] raws[k]).id != id by {
            assert(ids[k] != id);
        }
    }
    assert forall|j: int| #[trigger] bears(raws, id, j) implies stitch::map_number(raws, id)
        == Some(j) by {
        assert(ids[j] == id);
        if let Some(k) = stitch::map_number(raws, id) {
            assert(ids[k] == id && raws[k].id == id);
            if k < j {
                assert(ids[j] != id);
            }
        }
    }
}

proof fn lemma_edges(
    raws: Seq<RawMapModel>,
    pos: Seq<Option<(i32, i32)>>,
    e: Extent,
    i: int,
    n: int,
    k: int,
)
    requires
        pos.len() == raws.len(),
        0 <= i < raws.len(),
        0 <= n <= raws[i].warps.len(),
        realms::edges(raws, pos, e, i, n) is Some,
    ensures
        realms::edges(raws, pos, e, i, n)->0.len() == leading(raws, i, n),
        0 <= leading(raws, i, n),
        0 <= k < n && leads_on(raws, raws[i].warps[k]) ==> 0 <= leading(raws, i, k) < leading(
            raws,
            i,
            n,
        ),
        0 <= k < n ==> forall|j: int| #[trigger]
            bears(raws, raws[i].warps[k].dest, j) && raws[i].warps[k].index < raws[j].warps.len()
                ==> {
                let w = realms::edges(raws, pos, e, i, n)->0[leading(raws, i, k)];
                let from = raws[i].warps[k];
                let t = raws[j].warps[from.index as int];
                let (ox, oy) = realms::origin_of(pos, e, i);
                let (tx, ty) = realms::origin_of(pos, e, j);
                &&& w.x == ox + from.x
                &&& w.y == oy + from.y
                &&& w.to_realm == realms::realm_of(pos, j) as u16
                &&& w.to_x == tx + t.x
                &&& w.to_y == ty + t.y
            },
    decreases n,
{
    if n > 0 {
        lemma_edges(raws, pos, e, i, n - 1, k);
        let w = raws[i].warps[n - 1];
        lemma_bears(raws, w.dest);
        if let Some(j) = stitch::map_number(raws, w.dest) {
            assert(bears(raws, w.dest, j));
        }
        if k < n - 1 && 0 <= k && leads_on(raws, raws[i].warps[k]) {
            assert(leading(raws, i, k) < leading(raws, i, n - 1));
        }
    }
}

/// A warp leads to the warp that it names: it lies where its map lies, and its
/// target is the very warp, by its number, of the map that bears the name, where
/// that map lies in its own realm. The warps that lead on are kept in their
/// order, and no others.
pub proof fn a_warp_leads_to_the_warp_it_names(
    rs: Seq<RealmData>,
    raws: Seq<RawMapModel>,
    ls: Seq<LayoutData>,
    pos: Seq<Option<(i32, i32)>>,
    e: Extent,
    i: int,
    k: int,
    j: int,
)
    requires
        pos.len() == raws.len(),
        realms::are_realms(rs, raws, ls, pos, e, raws.len() as int),
        realms::is_sized(raws, pos, e),
        0 <= i < raws.len(),
        0 <= k < raws[i].warps.len(),
        bears(raws, raws[i].warps[k].dest, j),
        raws[i].warps[k].index < raws[j].warps.len(),
    ensures
        ({
            let (here, there) = (found(rs, pos, i), found(rs, pos, j));
            let from = raws[i].warps[k];
            let to = raws[j].warps[from.index as int];
            &&& here.warps@.len() == leading(raws, i, raws[i].warps.len() as int)
            &&& 0 <= leading(raws, i, k) < here.warps@.len()
            &&& here.warps@[leading(raws, i, k)] == (WarpData {
                x: (here.x + from.x) as i32,
                y: (here.y + from.y) as i32,
                to_realm: realm_number(pos, j) as u16,
                to_x: (there.x + to.x) as i32,
                to_y: (there.y + to.y) as i32,
            })
            &&& here.warps@[leading(raws, i, k)].to_realm == realm_number(pos, j)
            &&& here.warps@[leading(raws, i, k)].to_x - there.x == to.x
            &&& here.warps@[leading(raws, i, k)].to_y - there.y == to.y
        }),
{
    lemma_found(rs, raws, ls, pos, e, i);
    lemma_found(rs, raws, ls, pos, e, j);
    assert(leads_on(raws, raws[i].warps[k]));
    assert(stitch::is_place(realms::origin_of(pos, e, i)));
    assert(stitch::is_place(realms::origin_of(pos, e, j)));
    lemma_edges(raws, pos, e, i, raws[i].warps.len() as int, k);
    lemma_tally(pos, raws.len() as int);
}

/// Two warps of one map to two warps of another that lie on different tiles lead
/// to different tiles.
pub proof fn different_doors_stay_apart(
    rs: Seq<RealmData>,
    raws: Seq<RawMapModel>,
    ls: Seq<LayoutData>,
    pos: Seq<Option<(i32, i32)>>,
    e: Extent,
    i: int,
    a: int,
    b: int,
    j: int,
)
    requires
        pos.len() == raws.len(),
        realms::are_realms(rs, raws, ls, pos, e, raws.len() as int),
        realms::is_sized(raws, pos, e),
        0 <= i < raws.len(),
        0 <= a < raws[i].warps.len(),
        0 <= b < raws[i].warps.len(),
        raws[i].warps[a].dest == raws[i].warps[b].dest,
        bears(raws, raws[i].warps[a].dest, j),
        raws[i].warps[a].index < raws[j].warps.len(),
        raws[i].warps[b].index < raws[j].warps.len(),
        ({
            let (s, t) = (
                raws[j].warps[raws[i].warps[a].index as int],
                raws[j].warps[raws[i].warps[b].index as int],
            );
            s.x != t.x || s.y != t.y
        }),
    ensures
        ({
            let ws = found(rs, pos, i).warps@;
            let (s, t) = (ws[leading(raws, i, a)], ws[leading(raws, i, b)]);
            s.to_realm == t.to_realm && (s.to_x != t.to_x || s.to_y != t.to_y)
        }),
{
    a_warp_leads_to_the_warp_it_names(rs, raws, ls, pos, e, i, a, j);
    a_warp_leads_to_the_warp_it_names(rs, raws, ls, pos, e, i, b, j);
}

// ---- the overworld -------------------------------------------------------

/// Whether a map of a size lies at a side of another, so many tiles along it:
/// the two touch.
pub open spec fn touches(
    at: (i32, i32),
    w: int,
    h: int,
    to: (i32, i32),
    to_w: int,
    to_h: int,
    side: Side,
    along: int,
) -> bool {
    match side {
        Side::Up => to.1 + to_h == at.1 && to.0 - at.0 == along,
        Side::Down => to.1 - h == at.1 && to.0 - at.0 == along,
        Side::Left => to.0 + to_w == at.0 && to.1 - at.1 == along,
        Side::Right => to.0 - w == at.0 && to.1 - at.1 == along,
    }
}

/// Whether two ids are those of the one pair of maps that is not joined.
pub open spec fn is_seam(a: Seq<char>, b: Seq<char>) -> bool {
    ||| (a == "MAP_ROUTE102"@ && b == "MAP_PETALBURG_CITY"@)
    ||| (b == "MAP_ROUTE102"@ && a == "MAP_PETALBURG_CITY"@)
}

/// Whether the sizes of layouts, and how far maps are shifted, have coordinates.
pub open spec fn is_ordinary(raws: Seq<RawMapModel>, ls: Seq<LayoutData>) -> bool {
    &&& forall|i: int| 0 <= i < raws.len() ==> (#[trigger] raws[i]).layout < ls.len()
    &&& forall|i: int|
        0 <= i < ls.len() ==> (#[trigger] ls[i]).width <= i32::MAX && ls[i].height <= i32::MAX
    &&& forall|i: int, c: int|
        #![trigger raws[i].connections[c]]
        0 <= i < raws.len() && 0 <= c < raws[i].connections.len() ==> i32::MIN
            <= raws[i].connections[c].offset <= i32::MAX
}

/// Whether connection `c` of map `i` puts map `j` where it lies.
pub open spec fn holds(
    raws: Seq<RawMapModel>,
    ls: Seq<LayoutData>,
    pos: Seq<Option<(i32, i32)>>,
    i: int,
    c: int,
    j: int,
) -> bool {
    &&& 0 <= i < raws.len()
    &&& pos[i] is Some
    &&& pos[j] is Some
    &&& 0 <= c < raws[i].connections.len()
    &&& bears(raws, raws[i].connections[c].map, j)
    &&& !is_seam(raws[i].id, raws[j].id)
    &&& touches(
        pos[i]->0,
        ls[raws[i].layout as int].width as int,
        ls[raws[i].layout as int].height as int,
        pos[j]->0,
        ls[raws[j].layout as int].width as int,
        ls[raws[j].layout as int].height as int,
        raws[i].connections[c].side,
        raws[i].connections[c].offset as int,
    )
}

proof fn lemma_low_signed(v: i64)
    requires
        i32::MIN <= v <= i32::MAX,
    ensures
        maps::low_signed(v) == v,
{
}

/// The overworld is stitched at its seams: the map it grows from lies at the
/// origin, every other map in it touches a map that is connected to it, on the
/// side and with the shift of the connection, and a connection of a map in it
/// always brings in the map that it names, but for one pair.
pub proof fn connected_maps_touch(
    raws: Seq<RawMapModel>,
    ls: Seq<LayoutData>,
    seed: int,
    j: int,
    c: int,
)
    requires
        is_ordinary(raws, ls),
        0 <= seed < raws.len(),
        stitch::overworld(raws, ls, seed) is Some,
        0 <= j < raws.len(),
    ensures
        ({
            let pos = stitch::overworld(raws, ls, seed)->0.pos;
            &&& pos.len() == raws.len()
            &&& pos[seed] == Some((0i32, 0i32))
            &&& pos[j] is Some && j != seed ==> exists|i: int, n: int| #[trigger]
                holds(raws, ls, pos, i, n, j)
            &&& pos[j] is Some && 0 <= c < raws[j].connections.len() ==> forall|k: int| #[trigger]
                bears(raws, raws[j].connections[c].map, k) && !is_seam(raws[j].id, raws[k].id)
                    ==> pos[k] is Some
        }),
{
    stitch::the_overworld_hangs_together(raws, ls, seed, j, c);
    let s = stitch::overworld(raws, ls, seed)->0;
    if s.pos[j] is Some && j != seed {
        let (i, n) = choose|i: int, n: int| stitch::hangs_on(raws, ls, s, j, i, n);
        assert(stitch::hangs_on(raws, ls, s, j, i, n));
        let con = raws[i].connections[n];
        lemma_bears(raws, con.map);
        lemma_low_signed(con.offset);
        assert(ls[raws[i].layout as int].width <= i32::MAX);
        assert(ls[raws[j].layout as int].width <= i32::MAX);
        assert(holds(raws, ls, s.pos, i, n, j));
    }
    if s.pos[j] is Some && 0 <= c < raws[j].connections.len() {
        lemma_bears(raws, raws[j].connections[c].map);
    }
}

/// The corners of the overworld are those of its maps: no map reaches past them
/// and each is reached by one.
pub proof fn corners_are_reached(
    raws: Seq<RawMapModel>,
    ls: Seq<LayoutData>,
    pos: Seq<Option<(i32, i32)>>,
    e: Extent,
    i: int,
)
    requires
        is_ordinary(raws, ls),
        realms::spans(raws, ls, pos, e, raws.len() as int),
        0 <= i < raws.len(),
        pos[i] is Some,
    ensures
        ({
            let l = ls[raws[i].layout as int];
            let p = pos[i]->0;
            &&& e.left <= p.0
            &&& e.top <= p.1
            &&& p.0 + l.width <= e.right
            &&& p.1 + l.height <= e.bottom
        }),
        exists|k: int| 0 <= k < raws.len() && (#[trigger] pos[k]) is Some && (pos[k]->0).0 == e.left,
        exists|k: int| 0 <= k < raws.len() && (#[trigger] pos[k]) is Some && (pos[k]->0).1 == e.top,
        exists|k: int|
            0 <= k < raws.len() && (#[trigger] pos[k]) is Some && (pos[k]->0).0
                + ls[raws[k].layout as int].width == e.right,
        exists|k: int|
            0 <= k < raws.len() && (#[trigger] pos[k]) is Some && (pos[k]->0).1
                + ls[raws[k].layout as int].height == e.bottom,
{
    assert(ls[raws[i].layout as int].width <= i32::MAX);
    assert(ls[raws[i].layout as int].height <= i32::MAX);
    let a = choose|k: int|
        0 <= k < raws.len() && (#[trigger] pos[k]) is Some && realms::right_of(raws, ls, pos, k)
            == e.right;
    let b = choose|k: int|
        0 <= k < raws.len() && (#[trigger] pos[k]) is Some && realms::bottom_of(raws, ls, pos, k)
            == e.bottom;
    assert(pos[a] is Some && pos[b] is Some);
    assert(ls[raws[a].layout as int].width <= i32::MAX);
    assert(ls[raws[b].layout as int].height <= i32::MAX);
}

/// The overworld of a pack is as large as its corners are apart.
pub proof fn the_overworld_has_its_size(
    rs: Seq<RealmData>,
    raws: Seq<RawMapModel>,
    ls: Seq<LayoutData>,
    pos: Seq<Option<(i32, i32)>>,
    e: Extent,
)
    requires
        realms::are_realms(rs, raws, ls, pos, e, raws.len() as int),
        realms::is_sized(raws, pos, e),
        e.left <= e.right,
        e.top <= e.bottom,
    ensures
        rs[0].width == e.right - e.left,
        rs[0].height == e.bottom - e.top,
{
}

/// Play starts one tile below a door of Mauville City that leads to its Pokemon
/// Center, the first of them, in the realm of the overworld.
pub proof fn play_starts_below_the_door(
    rs: Seq<RealmData>,
    start: Start,
    raws: Seq<RawMapModel>,
    ls: Seq<LayoutData>,
    pos: Seq<Option<(i32, i32)>>,
    e: Extent,
)
    requires
        pos.len() == raws.len(),
        realms::are_realms(rs, raws, ls, pos, e, raws.len() as int),
        realms::start_of(raws, pos, e) == Some((start.x as int, start.y as int)),
    ensures
        exists|i: int, k: int| {
            &&& #[trigger] bears(raws, "MAP_MAUVILLE_CITY"@, i)
            &&& 0 <= k < raws[i].warps.len()
            &&& (#[trigger] raws[i].warps[k]).dest == "MAP_MAUVILLE_CITY_POKEMON_CENTER_1F"@
            &&& forall|m: int|
                0 <= m < k ==> (#[trigger] raws[i].warps[m]).dest
                    != "MAP_MAUVILLE_CITY_POKEMON_CENTER_1F"@
            &&& start.x == found(rs, pos, i).x + raws[i].warps[k].x
            &&& start.y == found(rs, pos, i).y + raws[i].warps[k].y + 1
        },
{
    let city = "MAP_MAUVILLE_CITY"@;
    let dest = "MAP_MAUVILLE_CITY_POKEMON_CENTER_1F"@;
    lemma_bears(raws, city);
    let i = stitch::map_number(raws, city)->0;
    let k = lemma_first_to(raws[i].warps, dest, 0);
    every_map_is_found(rs, raws, ls, pos, e, i);
    assert(bears(raws, city, i));
    assert(raws[i].warps[k].dest == dest);
}

proof fn lemma_first_to(ws: Seq<RawWarpModel>, dest: Seq<char>, from: int) -> (k: int)
    requires
        0 <= from,
        realms::first_to(ws, dest, from) is Some,
    ensures
        from <= k < ws.len(),
        realms::first_to(ws, dest, from) == Some(ws[k]),
        ws[k].dest == dest,
        forall|m: int| from <= m < k ==> (#[trigger] ws[m]).dest != dest,
    decreases ws.len() - from,
{
    if ws[from].dest == dest {
        from
    } else {
        lemma_first_to(ws, dest, from + 1)
    }
}

// ---- what the files of maps say ------------------------------------------

/// A connection is taken on the four sides, each by its own word, with its
/// offset and its map; any other direction is left out, and a side without an
/// offset or a map is faulty.
pub proof fn a_connection_is_what_it_says(
    direction: Seq<char>,
    offset: Option<i64>,
    map: Option<Seq<char>>,
)
    ensures
        ({
            let r = maps::connection_from(Some(direction), offset, map);
            let known = direction == "up"@ || direction == "down"@ || direction == "left"@
                || direction == "right"@;
            &&& !known ==> r is Left
            &&& known && (offset is None || map is None) ==> r is Faulty
            &&& known && offset is Some && map is Some ==> {
                &&& r is Taken
                &&& r->Taken_0.offset == offset->0
                &&& r->Taken_0.map == map->0
                &&& (r->Taken_0.side == Side::Up) == (direction == "up"@)
                &&& (r->Taken_0.side == Side::Down) == (direction == "down"@)
                &&& (r->Taken_0.side == Side::Left) == (direction == "left"@)
                &&& (r->Taken_0.side == Side::Right) == (direction == "right"@)
            }
        }),
        maps::connection_from(None, offset, map) is Left,
{
    reveal_strlit("up");
    reveal_strlit("down");
    reveal_strlit("left");
    reveal_strlit("right");
    assert("up"@.len() == 2 && "down"@.len() == 4 && "left"@.len() == 4 && "right"@.len() == 5);
    assert("down"@[0] == 'd' && "left"@[0] == 'l');
}

/// A warp of a map has the place, the destination and the number that its entry
/// gives, and is left out where one of them is missing or the number is none.
pub proof fn a_warp_is_what_it_says(
    dest: Option<Seq<char>>,
    index: Option<Seq<char>>,
    x: Option<i64>,
    y: Option<i64>,
)
    ensures
        match maps::warp_from(dest, index, x, y) {
            Some(w) => {
                &&& dest == Some(w.dest)
                &&& index is Some
                &&& text::number(index->0, 10, usize::MAX as int) == Some(w.index as int)
                &&& x is Some && y is Some
                &&& i32::MIN <= x->0 <= i32::MAX ==> w.x == x->0
                &&& i32::MIN <= y->0 <= i32::MAX ==> w.y == y->0
            },
            None => dest is None || index is None || x is None || y is None || text::number(
                index->0,
                10,
                usize::MAX as int,
            ) is None,
        },
{
    if let Some(t) = index {
        if let Some(v) = text::number(t, 10, usize::MAX as int) {
            lemma_value(t, 10);
            lemma_value(t.skip(1), 10);
        }
    }
}

proof fn lemma_value(s: Seq<char>, base: int)
    requires
        base >= 1,
    ensures
        text::value(s, base) >= 0,
    decreases s.len(),
{
    if s.len() > 0 {
        lemma_value(s.drop_last(), base);
        let v = text::value(s.drop_last(), base);
        assert(v * base >= 0) by (nonlinear_arith)
            requires
                v >= 0,
                base >= 1,
        ;
    }
}

/// A map keeps what its file says of it, plays `MUS_NONE` where it names no
/// music, and has the number of the last layout that bears the id it names.
pub proof fn a_map_is_what_it_says(
    layout: Seq<char>,
    id: Option<Seq<char>>,
    music: Option<Seq<char>>,
    connections: Option<Seq<ConnectionModel>>,
    warps: Seq<RawWarpModel>,
    ids: Seq<Seq<char>>,
)
    requires
        ids.len() <= 65536,
    ensures
        match maps::map_from(Some(layout), id, music, connections, warps, ids) {
            Entry::Taken(m) => {
                &&& id == Some(m.id)
                &&& m.music == (if music is Some {
                    music->0
                } else {
                    "MUS_NONE"@
                })
                &&& connections == Some(m.connections)
                &&& m.warps == warps
                &&& m.layout < ids.len()
                &&& ids[m.layout as int] == layout
                &&& forall|k: int| m.layout < k < ids.len() ==> #[trigger] ids[k] != layout
            },
            Entry::Left => forall|k: int| 0 <= k < ids.len() ==> #[trigger] ids[k] != layout,
            Entry::Faulty => id is None || connections is None,
        },
        maps::map_from(None, id, music, connections, warps, ids) is Faulty,
{
    text::the_last_of_a_name_is_found(ids, layout, ids.len() as int);
}

// ---- layouts -------------------------------------------------------------

/// A layout has the id and the size that its row gives, its blocks one after the
/// other, cut to that size or filled with zeroes, and the number of its pair of
/// tilesets, of which there is one for each pair.
pub proof fn a_layout_is_what_its_row_says(
    l: LayoutData,
    row: RowModel,
    blocks: Seq<u8>,
    pairs: Seq<(u16, u16)>,
    key: (u16, u16),
    k: int,
)
    requires
        layouts::is_layout(l, row, blocks, pairs, key),
        row.width is Some,
        row.height is Some,
        row.width->0 <= 0xffff,
        row.height->0 <= 0xffff,
        pairs.len() < 65536,
        0 <= k < l.width * l.height,
    ensures
        l.width == row.width->0,
        l.height == row.height->0,
        Some(l.id@) == row.id || row.id is None,
        l.blockdata@.len() == l.width * l.height,
        2 * k + 1 < blocks.len() ==> l.blockdata@[k] == blocks[2 * k] + 256 * blocks[2 * k + 1],
        2 * k + 1 >= blocks.len() ==> l.blockdata@[k] == 0,
        l.pair < layouts::with_pair(pairs, key).len(),
        layouts::with_pair(pairs, key)[l.pair as int] == key,
        forall|i: int|
            0 <= i < pairs.len() ==> #[trigger] layouts::with_pair(pairs, key)[i] == pairs[i],
        pairs.contains(key) ==> layouts::with_pair(pairs, key) == pairs,
        !pairs.contains(key) ==> layouts::with_pair(pairs, key).len() == pairs.len() + 1,
{
    lemma_pair_place(pairs, key, 0);
    if 2 * k + 1 < blocks.len() {
        reveal(crate::codec::from_le16);
        assert(crate::codec::words_of(blocks)[k] == crate::codec::from_le16(blocks.skip(2 * k)));
    }
    let (w, h) = (row.width->0 as int, row.height->0 as int);
    assert(0 <= w * h <= 0xffff * 0xffff) by (nonlinear_arith)
        requires
            0 <= w <= 0xffff,
            0 <= h <= 0xffff,
    ;
}

proof fn lemma_pair_place(pairs: Seq<(u16, u16)>, key: (u16, u16), from: int)
    requires
        0 <= from <= pairs.len(),
    ensures
        ({
            let i = layouts::pair_place(pairs, key, from);
            &&& from <= i <= pairs.len()
            &&& i < pairs.len() ==> pairs[i] == key
            &&& i == pairs.len() ==> forall|k: int|
                from <= k < pairs.len() ==> #[trigger] pairs[k] != key
        }),
    decreases pairs.len() - from,
{
    if from < pairs.len() && pairs[from] != key {
        lemma_pair_place(pairs, key, from + 1);
    }
}

} // verus!
