//! The realms: the overworld first, then one for each map that is not part of
//! it; warps are resolved to edges between realms.

use vstd::prelude::*;
use crate::codec;
use crate::game::data::{LayoutData, MapData, RealmData, Start, WarpData};
use crate::text;
use crate::text::{same_text, Text};
use crate::worldgen::maps;
use crate::worldgen::maps::{RawMap, RawMapModel, RawWarp, RawWarpModel};
use crate::worldgen::stitch;
use crate::worldgen::stitch::{find_map, map_ids};

verus! {

// ---- the extent of the overworld -----------------------------------------

/// The corners of the overworld.
#[derive(Clone, Copy, Debug, PartialEq, Eq, Structural)]
pub struct Extent {
    pub left: i32,
    pub top: i32,
    pub right: i32,
    pub bottom: i32,
}

pub open spec fn right_of(
    raws: Seq<RawMapModel>,
    layouts: Seq<LayoutData>,
    pos: Seq<Option<(i32, i32)>>,
    i: int,
) -> int {
    (pos[i]->0).0 + stitch::width_of(layouts, raws[i])
}

pub open spec fn bottom_of(
    raws: Seq<RawMapModel>,
    layouts: Seq<LayoutData>,
    pos: Seq<Option<(i32, i32)>>,
    i: int,
) -> int {
    (pos[i]->0).1 + stitch::height_of(layouts, raws[i])
}

/// Whether the first `n` maps, as far as they are placed, lie within corners
/// that some of them touch.
pub open spec fn spans(
    raws: Seq<RawMapModel>,
    layouts: Seq<LayoutData>,
    pos: Seq<Option<(i32, i32)>>,
    e: Extent,
    n: int,
) -> bool {
    &&& forall|i: int|
        0 <= i < n && (#[trigger] pos[i]) is Some ==> e.left <= (pos[i]->0).0 && e.top <= (
        pos[i]->0).1 && right_of(raws, layouts, pos, i) <= e.right && bottom_of(
            raws,
            layouts,
            pos,
            i,
        ) <= e.bottom
    &&& exists|i: int| 0 <= i < n && (#[trigger] pos[i]) is Some && (pos[i]->0).0 == e.left
    &&& exists|i: int| 0 <= i < n && (#[trigger] pos[i]) is Some && (pos[i]->0).1 == e.top
    &&& exists|i: int|
        0 <= i < n && (#[trigger] pos[i]) is Some && right_of(raws, layouts, pos, i) == e.right
    &&& exists|i: int|
        0 <= i < n && (#[trigger] pos[i]) is Some && bottom_of(raws, layouts, pos, i) == e.bottom
}

/// Whether the far corners of all placed maps have coordinates.
pub open spec fn is_bounded(
    raws: Seq<RawMapModel>,
    layouts: Seq<LayoutData>,
    pos: Seq<Option<(i32, i32)>>,
) -> bool {
    forall|i: int|
        0 <= i < raws.len() && (#[trigger] pos[i]) is Some ==> stitch::is_place(
            (right_of(raws, layouts, pos, i), bottom_of(raws, layouts, pos, i)),
        )
}

pub open spec fn is_empty(pos: Seq<Option<(i32, i32)>>) -> bool {
    forall|i: int| 0 <= i < pos.len() ==> (#[trigger] pos[i]) is None
}

/// The corners of the overworld, where a map is placed and all of them have
/// coordinates.
pub fn extent(raws: &Vec<RawMap>, layouts: &Vec<LayoutData>, pos: &Vec<Option<(i32, i32)>>) -> (r:
    Option<Extent>)
    requires
        stitch::has_layouts(maps::map_models(raws@), layouts@),
        pos@.len() == raws@.len(),
    ensures
        match r {
            Some(e) => is_bounded(maps::map_models(raws@), layouts@, pos@) && spans(
                maps::map_models(raws@),
                layouts@,
                pos@,
                e,
                raws@.len() as int,
            ),
            None => is_empty(pos@) || !is_bounded(maps::map_models(raws@), layouts@, pos@),
        },
{
    let ghost ms = maps::map_models(raws@);
    let mut e: Option<Extent> = None;
    let mut i: usize = 0;
    while i < raws.len()
        invariant
            i <= raws@.len(),
            ms == maps::map_models(raws@),
            stitch::has_layouts(ms, layouts@),
            pos@.len() == raws@.len(),
            forall|k: int|
                0 <= k < i && (#[trigger] pos@[k]) is Some ==> stitch::is_place(
                    (right_of(ms, layouts@, pos@, k), bottom_of(ms, layouts@, pos@, k)),
                ),
            match e {
                Some(x) => spans(ms, layouts@, pos@, x, i as int),
                None => forall|k: int| 0 <= k < i ==> (#[trigger] pos@[k]) is None,
            },
        decreases raws.len() - i,
    {
        if let Some((x, y)) = pos[i] {
            assert(ms[i as int] == raws@[i as int].model());
            let l = &layouts[raws[i].layout as usize];
            let right: i64 = x as i64 + codec::signed_word(l.width) as i64;
            let bottom: i64 = y as i64 + codec::signed_word(l.height) as i64;
            assert(right == right_of(ms, layouts@, pos@, i as int));
            assert(bottom == bottom_of(ms, layouts@, pos@, i as int));
            if right < i32::MIN as i64 || right > i32::MAX as i64 || bottom < i32::MIN as i64
                || bottom > i32::MAX as i64 {
                assert(pos@[i as int] is Some);
                return None;
            }
            let (right, bottom): (i32, i32) = (right as i32, bottom as i32);
            let ghost was = e;
            let now = match e {
                None => Extent { left: x, top: y, right, bottom },
                Some(b) => Extent {
                    left: if x < b.left { x } else { b.left },
                    top: if y < b.top { y } else { b.top },
                    right: if right > b.right { right } else { b.right },
                    bottom: if bottom > b.bottom { bottom } else { b.bottom },
                },
            };
            proof {
                assert(pos@[i as int] is Some);
                lemma_spans(ms, layouts@, pos@, was, now, i as int);
            }
            e = Some(now);
        } else {
            proof {
                if let Some(x) = e {
                    lemma_spans_past(ms, layouts@, pos@, x, i as int);
                }
            }
        }
        i += 1;
    }
    e
}

proof fn lemma_spans_past(
    raws: Seq<RawMapModel>,
    layouts: Seq<LayoutData>,
    pos: Seq<Option<(i32, i32)>>,
    e: Extent,
    n: int,
)
    requires
        spans(raws, layouts, pos, e, n),
        0 <= n < pos.len(),
        pos[n] is None,
    ensures
        spans(raws, layouts, pos, e, n + 1),
{
    let a = choose|i: int| 0 <= i < n && (#[trigger] pos[i]) is Some && (pos[i]->0).0 == e.left;
    let b = choose|i: int| 0 <= i < n && (#[trigger] pos[i]) is Some && (pos[i]->0).1 == e.top;
    let c = choose|i: int|
        0 <= i < n && (#[trigger] pos[i]) is Some && right_of(raws, layouts, pos, i) == e.right;
    let d = choose|i: int|
        0 <= i < n && (#[trigger] pos[i]) is Some && bottom_of(raws, layouts, pos, i) == e.bottom;
    assert(pos[a] is Some && pos[b] is Some && pos[c] is Some && pos[d] is Some);
}

proof fn lemma_spans(
    raws: Seq<RawMapModel>,
    layouts: Seq<LayoutData>,
    pos: Seq<Option<(i32, i32)>>,
    was: Option<Extent>,
    now: Extent,
    n: int,
)
    requires
        0 <= n < pos.len(),
        pos[n] is Some,
        match was {
            None => {
                &&& forall|k: int| 0 <= k < n ==> (#[trigger] pos[k]) is None
                &&& now.left == (pos[n]->0).0
                &&& now.top == (pos[n]->0).1
                &&& now.right == right_of(raws, layouts, pos, n)
                &&& now.bottom == bottom_of(raws, layouts, pos, n)
            },
            Some(b) => {
                let (x, y) = pos[n]->0;
                &&& spans(raws, layouts, pos, b, n)
                &&& now.left == if x < b.left {
                    x
                } else {
                    b.left
                }
                &&& now.top == if y < b.top {
                    y
                } else {
                    b.top
                }
                &&& now.right == if right_of(raws, layouts, pos, n) > b.right {
                    right_of(raws, layouts, pos, n)
                } else {
                    b.right as int
                }
                &&& now.bottom == if bottom_of(raws, layouts, pos, n) > b.bottom {
                    bottom_of(raws, layouts, pos, n)
                } else {
                    b.bottom as int
                }
            },
        },
    ensures
        spans(raws, layouts, pos, now, n + 1),
{
    if let Some(e) = was {
        let a = choose|i: int|
            0 <= i < n && (#[trigger] pos[i]) is Some && (pos[i]->0).0 == e.left;
        let b = choose|i: int| 0 <= i < n && (#[trigger] pos[i]) is Some && (pos[i]->0).1 == e.top;
        let c = choose|i: int|
            0 <= i < n && (#[trigger] pos[i]) is Some && right_of(raws, layouts, pos, i)
                == e.right;
        let d = choose|i: int|
            0 <= i < n && (#[trigger] pos[i]) is Some && bottom_of(raws, layouts, pos, i)
                == e.bottom;
        assert(pos[a] is Some && pos[b] is Some && pos[c] is Some && pos[d] is Some);
        assert(pos[if now.left == e.left {
            a
        } else {
            n
        }] is Some);
        assert(pos[if now.top == e.top {
            b
        } else {
            n
        }] is Some);
        assert(pos[if now.right == e.right {
            c
        } else {
            n
        }] is Some);
        assert(pos[if now.bottom == e.bottom {
            d
        } else {
            n
        }] is Some);
    }
}

// ---- realms and origins --------------------------------------------------

/// How many of the first `n` maps are not placed.
pub open spec fn apart(pos: Seq<Option<(i32, i32)>>, n: int) -> int
    decreases n,
{
    if n <= 0 {
        0
    } else if pos[n - 1] is None {
        apart(pos, n - 1) + 1
    } else {
        apart(pos, n - 1)
    }
}

/// The realm of a map: 0 for the overworld, then one for each other map.
pub open spec fn realm_of(pos: Seq<Option<(i32, i32)>>, i: int) -> int {
    if pos[i] is Some {
        0
    } else {
        apart(pos, i) + 1
    }
}

/// Where a map begins in its realm.
pub open spec fn origin_of(pos: Seq<Option<(i32, i32)>>, e: Extent, i: int) -> (int, int) {
    match pos[i] {
        Some(p) => (p.0 - e.left, p.1 - e.top),
        None => (0, 0),
    }
}

/// The edge that a warp of map `i` is: where it lies, and where the warp it
/// leads to lies; nothing where there is no such warp.
pub open spec fn edge_of(
    raws: Seq<RawMapModel>,
    pos: Seq<Option<(i32, i32)>>,
    e: Extent,
    i: int,
    w: RawWarpModel,
) -> Option<(int, int, int, int, int)> {
    match stitch::map_number(raws, w.dest) {
        None => None,
        Some(j) => if w.index >= raws[j].warps.len() {
            None
        } else {
            let t = raws[j].warps[w.index as int];
            let (ox, oy) = origin_of(pos, e, i);
            let (tx, ty) = origin_of(pos, e, j);
            Some((ox + w.x, oy + w.y, realm_of(pos, j), tx + t.x, ty + t.y))
        },
    }
}

/// Whether an edge has coordinates.
pub open spec fn is_edge(e: (int, int, int, int, int)) -> bool {
    stitch::is_place((e.0, e.1)) && stitch::is_place((e.3, e.4))
}

/// The edges of the first `n` warps of a map; nothing where one has no
/// coordinates.
pub open spec fn edges(
    raws: Seq<RawMapModel>,
    pos: Seq<Option<(i32, i32)>>,
    e: Extent,
    i: int,
    n: int,
) -> Option<Seq<WarpData>>
    decreases n,
{
    if n <= 0 {
        Some(seq![])
    } else {
        match edges(raws, pos, e, i, n - 1) {
            None => None,
            Some(v) => match edge_of(raws, pos, e, i, raws[i].warps[n - 1]) {
                None => Some(v),
                Some(x) => if is_edge(x) {
                    Some(
                        v.push(
                            WarpData {
                                x: x.0 as i32,
                                y: x.1 as i32,
                                to_realm: x.2 as u16,
                                to_x: x.3 as i32,
                                to_y: x.4 as i32,
                            },
                        ),
                    )
                } else {
                    None
                },
            },
        }
    }
}

/// Whether a map of a realm is map `i` of the sources.
pub open spec fn is_map(
    m: MapData,
    raws: Seq<RawMapModel>,
    pos: Seq<Option<(i32, i32)>>,
    e: Extent,
    i: int,
) -> bool {
    &&& m.id@ == raws[i].id
    &&& m.music@ == raws[i].music
    &&& m.layout == raws[i].layout
    &&& (m.x as int, m.y as int) == origin_of(pos, e, i)
    &&& edges(raws, pos, e, i, raws[i].warps.len() as int) == Some(m.warps@)
}

/// The placed maps among the first `n`.
pub open spec fn placed_among(pos: Seq<Option<(i32, i32)>>, n: int) -> Seq<int>
    decreases n,
{
    if n <= 0 {
        seq![]
    } else if pos[n - 1] is Some {
        placed_among(pos, n - 1).push(n - 1)
    } else {
        placed_among(pos, n - 1)
    }
}

/// The maps among the first `n` that have a realm of their own.
pub open spec fn apart_among(pos: Seq<Option<(i32, i32)>>, n: int) -> Seq<int>
    decreases n,
{
    if n <= 0 {
        seq![]
    } else if pos[n - 1] is None {
        apart_among(pos, n - 1).push(n - 1)
    } else {
        apart_among(pos, n - 1)
    }
}

/// Whether realms are what the first `n` maps make of them: the overworld with
/// the placed maps in order, then a realm for each other map, of its size.
pub open spec fn are_realms(
    rs: Seq<RealmData>,
    raws: Seq<RawMapModel>,
    layouts: Seq<LayoutData>,
    pos: Seq<Option<(i32, i32)>>,
    e: Extent,
    n: int,
) -> bool {
    let placed = placed_among(pos, n);
    let others = apart_among(pos, n);
    &&& rs.len() == 1 + others.len()
    &&& rs[0].width == codec::bits32((e.right - e.left) as i32)
    &&& rs[0].height == codec::bits32((e.bottom - e.top) as i32)
    &&& rs[0].maps@.len() == placed.len()
    &&& forall|k: int|
        0 <= k < placed.len() ==> is_map(#[trigger] rs[0].maps@[k], raws, pos, e, placed[k])
    &&& forall|k: int|
        0 <= k < others.len() ==> {
            &&& (#[trigger] rs[k + 1]).width == layouts[raws[others[k]].layout as int].width
            &&& rs[k + 1].height == layouts[raws[others[k]].layout as int].height
            &&& rs[k + 1].maps@.len() == 1
            &&& is_map(rs[k + 1].maps@[0], raws, pos, e, others[k])
        }
}

/// Whether every number on the way has its range: the size of the overworld,
/// the origins, the edges, and the numbers of the realms.
pub open spec fn is_sized(
    raws: Seq<RawMapModel>,
    pos: Seq<Option<(i32, i32)>>,
    e: Extent,
) -> bool {
    &&& stitch::is_place((e.right - e.left, e.bottom - e.top))
    &&& apart(pos, raws.len() as int) < 65535
    &&& forall|i: int|
        0 <= i < raws.len() ==> stitch::is_place(#[trigger] origin_of(pos, e, i)) && edges(
            raws,
            pos,
            e,
            i,
            raws[i].warps.len() as int,
        ) is Some
}

proof fn lemma_apart(pos: Seq<Option<(i32, i32)>>, a: int, b: int)
    requires
        0 <= a <= b,
    ensures
        0 <= apart(pos, a) <= apart(pos, b),
        apart_among(pos, a).len() == apart(pos, a),
    decreases b,
{
    if a < b {
        lemma_apart(pos, a, b - 1);
    } else if a > 0 {
        lemma_apart(pos, a - 1, b - 1);
    }
}

proof fn lemma_apart_less(pos: Seq<Option<(i32, i32)>>, i: int, n: int)
    requires
        0 <= i < n,
        pos[i] is None,
    ensures
        0 <= apart(pos, i) < apart(pos, n),
{
    lemma_apart(pos, 0, i);
    lemma_apart(pos, i + 1, n);
}

/// The realms and origins of all maps.
struct Places {
    realms: Vec<u16>,
    origins: Vec<(i32, i32)>,
}

spec fn are_places(
    p: Places,
    pos: Seq<Option<(i32, i32)>>,
    e: Extent,
    n: int,
) -> bool {
    &&& p.realms@.len() == n
    &&& p.origins@.len() == n
    &&& forall|i: int| 0 <= i < n ==> #[trigger] p.realms@[i] == realm_of(pos, i)
    &&& forall|i: int|
        0 <= i < n ==> ((#[trigger] p.origins@[i]).0 as int, p.origins@[i].1 as int) == origin_of(
            pos,
            e,
            i,
        )
}

fn places(pos: &Vec<Option<(i32, i32)>>, e: Extent) -> (r: Option<Places>)
    ensures
        match r {
            Some(p) => are_places(p, pos@, e, pos@.len() as int) && apart(
                pos@,
                pos@.len() as int,
            ) < 65535 && forall|i: int|
                0 <= i < pos@.len() ==> stitch::is_place(#[trigger] origin_of(pos@, e, i)),
            None => apart(pos@, pos@.len() as int) >= 65535 || exists|i: int|
                0 <= i < pos@.len() && !stitch::is_place(#[trigger] origin_of(pos@, e, i)),
        },
{
    let mut p = Places { realms: Vec::new(), origins: Vec::new() };
    let mut count: u32 = 0;
    let mut i: usize = 0;
    while i < pos.len()
        invariant
            i <= pos@.len(),
            are_places(p, pos@, e, i as int),
            count == apart(pos@, i as int),
            count < 65535,
            forall|k: int| 0 <= k < i ==> stitch::is_place(#[trigger] origin_of(pos@, e, k)),
        decreases pos.len() - i,
    {
        match pos[i] {
            Some((x, y)) => {
                let ox: i64 = x as i64 - e.left as i64;
                let oy: i64 = y as i64 - e.top as i64;
                assert(origin_of(pos@, e, i as int) == (ox as int, oy as int));
                if ox < i32::MIN as i64 || ox > i32::MAX as i64 || oy < i32::MIN as i64 || oy
                    > i32::MAX as i64 {
                    return None;
                }
                p.realms.push(0);
                p.origins.push((ox as i32, oy as i32));
            },
            None => {
                assert(origin_of(pos@, e, i as int) == (0int, 0int));
                p.realms.push((count + 1) as u16);
                p.origins.push((0, 0));
                count += 1;
                if count >= 65535 {
                    proof {
                        lemma_apart(pos@, i + 1, pos@.len() as int);
                    }
                    return None;
                }
            },
        }
        i += 1;
    }
    Some(p)
}

proof fn lemma_edges_stop(
    raws: Seq<RawMapModel>,
    pos: Seq<Option<(i32, i32)>>,
    e: Extent,
    i: int,
    a: int,
    b: int,
)
    requires
        a <= b,
        edges(raws, pos, e, i, a) is None,
    ensures
        edges(raws, pos, e, i, b) is None,
    decreases b,
{
    if a < b && b > 0 {
        lemma_edges_stop(raws, pos, e, i, a, b - 1);
    }
}

fn in_range(v: i64) -> (b: bool)
    ensures
        b == (i32::MIN <= v <= i32::MAX),
{
    i32::MIN as i64 <= v && v <= i32::MAX as i64
}

fn make_edges(
    raws: &Vec<RawMap>,
    ids: &Vec<Text>,
    pos: &Vec<Option<(i32, i32)>>,
    e: Extent,
    p: &Places,
    i: usize,
) -> (r: Option<Vec<WarpData>>)
    requires
        text::texts(ids@) == stitch::ids_of(maps::map_models(raws@)),
        ids@.len() == raws@.len(),
        pos@.len() == raws@.len(),
        are_places(*p, pos@, e, raws@.len() as int),
        i < raws@.len(),
    ensures
        match edges(
            maps::map_models(raws@),
            pos@,
            e,
            i as int,
            raws@[i as int].warps@.len() as int,
        ) {
            Some(v) => r is Some && r->0@ == v,
            None => r is None,
        },
{
    let ghost ms = maps::map_models(raws@);
    let warps = &raws[i].warps;
    let ghost ws = maps::warp_models(warps@);
    assert(ms[i as int].warps == ws);
    let (ox, oy): (i32, i32) = p.origins[i];
    let mut out: Vec<WarpData> = Vec::new();
    assert(out@ =~= seq![]);
    let mut n: usize = 0;
    while n < warps.len()
        invariant
            n <= warps@.len(),
            i < raws@.len(),
            *warps == raws@[i as int].warps,
            ms == maps::map_models(raws@),
            ws == maps::warp_models(warps@),
            ms[i as int].warps == ws,
            text::texts(ids@) == stitch::ids_of(ms),
            ids@.len() == raws@.len(),
            pos@.len() == raws@.len(),
            are_places(*p, pos@, e, raws@.len() as int),
            (ox as int, oy as int) == origin_of(pos@, e, i as int),
            edges(ms, pos@, e, i as int, n as int) == Some(out@),
        decreases warps.len() - n,
    {
        let w = &warps[n];
        assert(ws[n as int] == w.model());
        if let Some(j) = find_map(ids, w.dest.as_str()) {
            assert(stitch::map_number(ms, w.dest@) == Some(j as int));
            assert(ms[j as int].warps == maps::warp_models(raws@[j as int].warps@));
            let there = &raws[j].warps;
            if w.index < there.len() as u64 {
                let t = &there[w.index as usize];
                assert(ms[j as int].warps[w.index as int] == t.model());
                let (tx, ty): (i32, i32) = p.origins[j];
                let (x, y): (i64, i64) = (ox as i64 + w.x as i64, oy as i64 + w.y as i64);
                let (to_x, to_y): (i64, i64) = (tx as i64 + t.x as i64, ty as i64 + t.y as i64);
                let to_realm: u16 = p.realms[j];
                assert(edge_of(ms, pos@, e, i as int, w.model()) == Some(
                    (x as int, y as int, to_realm as int, to_x as int, to_y as int),
                ));
                if !in_range(x) || !in_range(y) || !in_range(to_x) || !in_range(to_y) {
                    proof {
                        lemma_edges_stop(ms, pos@, e, i as int, n + 1, warps@.len() as int);
                    }
                    return None;
                }
                out.push(
                    WarpData {
                        x: x as i32,
                        y: y as i32,
                        to_realm,
                        to_x: to_x as i32,
                        to_y: to_y as i32,
                    },
                );
            }
        }
        n += 1;
    }
    Some(out)
}

/// The realms of all maps; nothing where a number on the way leaves its range.
pub fn make_realms(
    raws: &Vec<RawMap>,
    layouts: &Vec<LayoutData>,
    pos: &Vec<Option<(i32, i32)>>,
    e: Extent,
) -> (r: Option<Vec<RealmData>>)
    requires
        stitch::has_layouts(maps::map_models(raws@), layouts@),
        pos@.len() == raws@.len(),
    ensures
        match r {
            Some(rs) => is_sized(maps::map_models(raws@), pos@, e) && are_realms(
                rs@,
                maps::map_models(raws@),
                layouts@,
                pos@,
                e,
                raws@.len() as int,
            ),
            None => !is_sized(maps::map_models(raws@), pos@, e),
        },
{
    let ghost ms = maps::map_models(raws@);
    let width: i64 = e.right as i64 - e.left as i64;
    let height: i64 = e.bottom as i64 - e.top as i64;
    if !in_range(width) || !in_range(height) {
        return None;
    }
    let p = match places(pos, e) {
        Some(p) => p,
        None => return None,
    };
    let ids = map_ids(raws);
    let mut first: Vec<MapData> = Vec::new();
    let mut others: Vec<RealmData> = Vec::new();
    let mut i: usize = 0;
    while i < raws.len()
        invariant
            i <= raws@.len(),
            ms == maps::map_models(raws@),
            stitch::has_layouts(ms, layouts@),
            text::texts(ids@) == stitch::ids_of(ms),
            ids@.len() == raws@.len(),
            pos@.len() == raws@.len(),
            are_places(p, pos@, e, raws@.len() as int),
            first@.len() == placed_among(pos@, i as int).len(),
            others@.len() == apart_among(pos@, i as int).len(),
            forall|k: int|
                0 <= k < first@.len() ==> is_map(
                    #[trigger] first@[k],
                    ms,
                    pos@,
                    e,
                    placed_among(pos@, i as int)[k],
                ),
            forall|k: int|
                0 <= k < others@.len() ==> {
                    let o = apart_among(pos@, i as int)[k];
                    &&& (#[trigger] others@[k]).width == layouts@[ms[o].layout as int].width
                    &&& others@[k].height == layouts@[ms[o].layout as int].height
                    &&& others@[k].maps@.len() == 1
                    &&& is_map(others@[k].maps@[0], ms, pos@, e, o)
                },
            forall|k: int|
                0 <= k < i ==> edges(
                    ms,
                    pos@,
                    e,
                    k,
                    (#[trigger] ms[k]).warps.len() as int,
                ) is Some,
        decreases raws.len() - i,
    {
        let m = &raws[i];
        assert(ms[i as int] == m.model());
        assert(ms[i as int].warps.len() == m.warps@.len());
        let warps = match make_edges(raws, &ids, pos, e, &p, i) {
            Some(w) => w,
            None => {
                assert(stitch::is_place(origin_of(pos@, e, i as int)) ==> edges(
                    ms,
                    pos@,
                    e,
                    i as int,
                    ms[i as int].warps.len() as int,
                ) is None);
                return None;
            },
        };
        let (x, y): (i32, i32) = p.origins[i];
        let map = MapData {
            id: m.id.clone(),
            music: m.music.clone(),
            layout: m.layout,
            x,
            y,
            warps,
        };
        assert(is_map(map, ms, pos@, e, i as int));
        if pos[i].is_some() {
            first.push(map);
        } else {
            let l = &layouts[m.layout as usize];
            let mut maps: Vec<MapData> = Vec::new();
            maps.push(map);
            others.push(RealmData { width: l.width, height: l.height, maps });
        }
        i += 1;
    }
    let mut rs: Vec<RealmData> = Vec::new();
    let w32: i32 = width as i32;
    let h32: i32 = height as i32;
    rs.push(RealmData { width: unsigned(w32), height: unsigned(h32), maps: first });
    let ghost head = rs@;
    let ghost all = others@;
    rs.append(&mut others);
    assert(rs@ =~= head + all);
    assert forall|k: int| 0 <= k < all.len() implies (#[trigger] rs@[k + 1]) == all[k] by {}
    proof {
        let os = apart_among(pos@, raws@.len() as int);
        assert forall|k: int| 0 <= k < os.len() implies {
            &&& (#[trigger] rs@[k + 1]).width == layouts@[ms[os[k]].layout as int].width
            &&& rs@[k + 1].height == layouts@[ms[os[k]].layout as int].height
            &&& rs@[k + 1].maps@.len() == 1
            &&& is_map(rs@[k + 1].maps@[0], ms, pos@, e, os[k])
        } by {
            assert(rs@[k + 1] == all[k]);
        }
        assert forall|i: int| 0 <= i < ms.len() implies stitch::is_place(
            #[trigger] origin_of(pos@, e, i),
        ) && edges(ms, pos@, e, i, ms[i].warps.len() as int) is Some by {
            assert(edges(ms, pos@, e, i, ms[i].warps.len() as int) is Some);
        }
    }
    Some(rs)
}

fn unsigned(v: i32) -> (r: u32)
    ensures
        r == codec::bits32(v),
{
    if v < 0 {
        (v as i64 + 0x1_0000_0000) as u32
    } else {
        v as u32
    }
}

/// Every edge leads to a realm that there is.
pub proof fn every_edge_leads_to_a_realm(
    raws: Seq<RawMapModel>,
    pos: Seq<Option<(i32, i32)>>,
    e: Extent,
    i: int,
    n: int,
    k: int,
)
    requires
        pos.len() == raws.len(),
        apart(pos, raws.len() as int) < 65535,
        edges(raws, pos, e, i, n) is Some,
        0 <= k < edges(raws, pos, e, i, n)->0.len(),
    ensures
        edges(raws, pos, e, i, n)->0[k].to_realm < 1 + apart_among(pos, raws.len() as int).len(),
    decreases n,
{
    lemma_apart(pos, raws.len() as int, raws.len() as int);
    if n > 0 {
        let w = raws[i].warps[n - 1];
        let before = edges(raws, pos, e, i, n - 1)->0;
        if k < before.len() {
            every_edge_leads_to_a_realm(raws, pos, e, i, n - 1, k);
        } else {
            let j = stitch::map_number(raws, w.dest)->0;
            stitch::lemma_map_number(raws, w.dest);
            if pos[j] is None {
                lemma_apart_less(pos, j, raws.len() as int);
            }
        }
    }
}

// ---- the start -----------------------------------------------------------

/// The first warp, from `from` on, that leads to a map.
pub open spec fn first_to(warps: Seq<RawWarpModel>, dest: Seq<char>, from: int) -> Option<
    RawWarpModel,
>
    decreases warps.len() - from,
{
    if from < 0 || from >= warps.len() {
        None
    } else if warps[from].dest == dest {
        Some(warps[from])
    } else {
        first_to(warps, dest, from + 1)
    }
}

/// The start: one tile south of the door of the Mauville City Pokemon Center.
pub open spec fn start_of(
    raws: Seq<RawMapModel>,
    pos: Seq<Option<(i32, i32)>>,
    e: Extent,
) -> Option<(int, int)> {
    match stitch::map_number(raws, "MAP_MAUVILLE_CITY"@) {
        None => None,
        Some(i) => match first_to(
            raws[i].warps,
            "MAP_MAUVILLE_CITY_POKEMON_CENTER_1F"@,
            0,
        ) {
            None => None,
            Some(w) => {
                let (ox, oy) = origin_of(pos, e, i);
                Some((ox + w.x, oy + w.y + 1))
            },
        },
    }
}

fn find_warp(warps: &Vec<RawWarp>, dest: &str) -> (r: Option<(i32, i32)>)
    ensures
        match first_to(maps::warp_models(warps@), dest@, 0) {
            Some(w) => r == Some((w.x, w.y)),
            None => r is None,
        },
{
    let ghost ws = maps::warp_models(warps@);
    let mut i: usize = 0;
    while i < warps.len()
        invariant
            i <= warps@.len(),
            ws == maps::warp_models(warps@),
            first_to(ws, dest@, 0) == first_to(ws, dest@, i as int),
        decreases warps.len() - i,
    {
        assert(ws[i as int] == warps@[i as int].model());
        if same_text(warps[i].dest.as_str(), dest) {
            return Some((warps[i].x, warps[i].y));
        }
        i += 1;
    }
    None
}

/// Where play starts; nothing where the door is not there, or has no
/// coordinates.
pub fn start_place(raws: &Vec<RawMap>, pos: &Vec<Option<(i32, i32)>>, e: Extent) -> (r: Option<
    Start,
>)
    requires
        pos@.len() == raws@.len(),
    ensures
        match r {
            Some(s) => s.realm == 0 && start_of(maps::map_models(raws@), pos@, e) == Some(
                (s.x as int, s.y as int),
            ),
            None => start_of(maps::map_models(raws@), pos@, e) matches Some(p)
                ==> !stitch::is_place(p),
        },
{
    let ghost ms = maps::map_models(raws@);
    let ids = map_ids(raws);
    let i: usize = match find_map(&ids, "MAP_MAUVILLE_CITY") {
        Some(i) => i,
        None => return None,
    };
    assert(ms[i as int].warps == maps::warp_models(raws@[i as int].warps@));
    let (wx, wy): (i32, i32) = match find_warp(
        &raws[i].warps,
        "MAP_MAUVILLE_CITY_POKEMON_CENTER_1F",
    ) {
        Some(p) => p,
        None => return None,
    };
    let (ox, oy): (i64, i64) = match pos[i] {
        Some((x, y)) => (x as i64 - e.left as i64, y as i64 - e.top as i64),
        None => (0, 0),
    };
    let (x, y): (i64, i64) = (ox + wx as i64, oy + wy as i64 + 1);
    assert(start_of(ms, pos@, e) == Some((x as int, y as int)));
    if !in_range(x) || !in_range(y) {
        return None;
    }
    Some(Start { realm: 0, x: x as i32, y: y as i32 })
}

} // verus!
