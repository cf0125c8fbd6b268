//! The overworld in one coordinate space: maps are placed next to each other
//! along their connections, breadth first from one of them. Connections are
//! not consistent all round, so the first placement of a map wins, and one
//! pair is not followed at all.

use vstd::prelude::*;
use crate::codec;
use crate::codec::signed_word;
use crate::game::data::LayoutData;
use crate::text;
use crate::text::{chars_of, same_text, Text};
use crate::worldgen::maps;
use crate::worldgen::maps::{
    low_signed_of, Connection, ConnectionModel, RawMap, RawMapModel, Side,
};

verus! {

/// The pair of maps whose connection is not followed: of all that could be
/// left out, it is the one without which every other agrees.
pub open spec fn is_torn(a: Seq<char>, b: Seq<char>) -> bool {
    (a == "MAP_ROUTE102"@ && b == "MAP_PETALBURG_CITY"@) || (a == "MAP_PETALBURG_CITY"@ && b
        == "MAP_ROUTE102"@)
}

pub open spec fn ids_of(raws: Seq<RawMapModel>) -> Seq<Seq<char>> {
    Seq::new(raws.len(), |i: int| raws[i].id)
}

/// The number of the map with an id, the last of them.
pub open spec fn map_number(raws: Seq<RawMapModel>, id: Seq<char>) -> Option<int> {
    text::last_named(ids_of(raws), id, raws.len() as int)
}

pub open spec fn width_of(layouts: Seq<LayoutData>, m: RawMapModel) -> int {
    codec::signed32(layouts[m.layout as int].width) as int
}

pub open spec fn height_of(layouts: Seq<LayoutData>, m: RawMapModel) -> int {
    codec::signed32(layouts[m.layout as int].height) as int
}

/// Where a map comes to lie on a side of another.
pub open spec fn joined(
    layouts: Seq<LayoutData>,
    from: RawMapModel,
    to: RawMapModel,
    at: (i32, i32),
    c: ConnectionModel,
) -> (int, int) {
    let o = maps::low_signed(c.offset) as int;
    match c.side {
        Side::Up => (at.0 + o, at.1 - height_of(layouts, to)),
        Side::Down => (at.0 + o, at.1 + height_of(layouts, from)),
        Side::Left => (at.0 - width_of(layouts, to), at.1 + o),
        Side::Right => (at.0 + width_of(layouts, from), at.1 + o),
    }
}

pub open spec fn is_place(p: (int, int)) -> bool {
    i32::MIN <= p.0 <= i32::MAX && i32::MIN <= p.1 <= i32::MAX
}

/// Where the maps lie so far, and the maps placed, in their order.
#[verifier::ext_equal]
pub struct Stitch {
    pub pos: Seq<Option<(i32, i32)>>,
    pub queue: Seq<int>,
}

/// The map that a connection of map `i` places, if it is followed.
pub open spec fn follows(raws: Seq<RawMapModel>, i: int, c: ConnectionModel) -> Option<int> {
    if is_torn(raws[i].id, c.map) {
        None
    } else {
        map_number(raws, c.map)
    }
}

/// One connection of map `i`; nothing where its place has no coordinates.
pub open spec fn after_connection(
    raws: Seq<RawMapModel>,
    layouts: Seq<LayoutData>,
    s: Stitch,
    i: int,
    c: ConnectionModel,
) -> Option<Stitch> {
    match follows(raws, i, c) {
        None => Some(s),
        Some(j) => {
            let p = joined(layouts, raws[i], raws[j], s.pos[i]->0, c);
            if !is_place(p) {
                None
            } else if s.pos[j] is Some {
                Some(s)
            } else {
                Some(
                    Stitch {
                        pos: s.pos.update(j, Some((p.0 as i32, p.1 as i32))),
                        queue: s.queue.push(j),
                    },
                )
            }
        },
    }
}

/// The first `n` connections of map `i`.
pub open spec fn after_connections(
    raws: Seq<RawMapModel>,
    layouts: Seq<LayoutData>,
    s: Stitch,
    i: int,
    n: int,
) -> Option<Stitch>
    decreases n,
{
    if n <= 0 {
        Some(s)
    } else {
        match after_connections(raws, layouts, s, i, n - 1) {
            None => None,
            Some(t) => after_connection(raws, layouts, t, i, raws[i].connections[n - 1]),
        }
    }
}

/// All connections of the map at place `k` of the queue.
pub open spec fn after_map(
    raws: Seq<RawMapModel>,
    layouts: Seq<LayoutData>,
    s: Stitch,
    k: int,
) -> Option<Stitch> {
    let i = s.queue[k];
    after_connections(raws, layouts, s, i, raws[i].connections.len() as int)
}

/// The queue from place `k` on. It is never longer than the list of maps.
pub open spec fn run(
    raws: Seq<RawMapModel>,
    layouts: Seq<LayoutData>,
    s: Stitch,
    k: int,
) -> Option<Stitch>
    decreases raws.len() - k,
{
    if k < 0 || k >= s.queue.len() || k >= raws.len() {
        Some(s)
    } else {
        match after_map(raws, layouts, s, k) {
            None => None,
            Some(t) => run(raws, layouts, t, k + 1),
        }
    }
}

/// One map, at the origin.
pub open spec fn seeded(n: nat, seed: int) -> Stitch {
    Stitch {
        pos: Seq::new(n, |i: int| None::<(i32, i32)>).update(seed, Some((0i32, 0i32))),
        queue: seq![seed],
    }
}

/// The overworld from a map on.
pub open spec fn overworld(
    raws: Seq<RawMapModel>,
    layouts: Seq<LayoutData>,
    seed: int,
) -> Option<Stitch> {
    run(raws, layouts, seeded(raws.len(), seed), 0)
}

/// Whether every map has its layout.
pub open spec fn has_layouts(raws: Seq<RawMapModel>, layouts: Seq<LayoutData>) -> bool {
    forall|i: int| 0 <= i < raws.len() ==> (#[trigger] raws[i]).layout < layouts.len()
}

// ---- what holds of it ----------------------------------------------------

/// Whether the placed maps are the queue, each once.
pub open spec fn is_board(n: nat, s: Stitch) -> bool {
    &&& s.pos.len() == n
    &&& s.queue.no_duplicates()
    &&& forall|q: int|
        0 <= q < s.queue.len() ==> 0 <= #[trigger] s.queue[q] < n && s.pos[s.queue[q]] is Some
    &&& forall|i: int| 0 <= i < n && (#[trigger] s.pos[i]) is Some ==> s.queue.contains(i)
}

/// Whether a map lies where connection `c` of map `i` puts it.
pub open spec fn hangs_on(
    raws: Seq<RawMapModel>,
    layouts: Seq<LayoutData>,
    s: Stitch,
    j: int,
    i: int,
    c: int,
) -> bool {
    &&& 0 <= i < raws.len()
    &&& s.pos[i] is Some
    &&& 0 <= c < raws[i].connections.len()
    &&& follows(raws, i, raws[i].connections[c]) == Some(j)
    &&& s.pos[j] is Some
    &&& ((s.pos[j]->0).0 as int, (s.pos[j]->0).1 as int) == joined(
        layouts,
        raws[i],
        raws[j],
        s.pos[i]->0,
        raws[i].connections[c],
    )
}

/// Whether every map but the first lies where a connection of another puts it.
pub open spec fn is_joined(
    raws: Seq<RawMapModel>,
    layouts: Seq<LayoutData>,
    s: Stitch,
    seed: int,
) -> bool {
    forall|j: int|
        0 <= j < raws.len() && j != seed && (#[trigger] s.pos[j]) is Some ==> exists|i: int, c: int|
            hangs_on(raws, layouts, s, j, i, c)
}

/// Whether the first `n` connections of a map lead to maps that are placed.
pub open spec fn is_followed(raws: Seq<RawMapModel>, s: Stitch, i: int, n: int) -> bool {
    forall|c: int|
        0 <= c < n ==> (follows(raws, i, #[trigger] raws[i].connections[c]) matches Some(j)
            ==> s.pos[j] is Some)
}

/// Whether every place of one board is kept by another.
pub open spec fn keeps(s: Stitch, t: Stitch) -> bool {
    &&& t.pos.len() == s.pos.len()
    &&& s.queue.len() <= t.queue.len()
    &&& forall|q: int| 0 <= q < s.queue.len() ==> #[trigger] t.queue[q] == s.queue[q]
    &&& forall|i: int|
        0 <= i < s.pos.len() && (#[trigger] s.pos[i]) is Some ==> t.pos[i] == s.pos[i]
}

pub proof fn lemma_map_number(raws: Seq<RawMapModel>, id: Seq<char>)
    ensures
        map_number(raws, id) matches Some(j) ==> 0 <= j < raws.len() && raws[j].id == id,
{
    lemma_last_named(ids_of(raws), id, raws.len() as int);
}

proof fn lemma_last_named(names: Seq<Seq<char>>, name: Seq<char>, n: int)
    requires
        n <= names.len(),
    ensures
        text::last_named(names, name, n) matches Some(j) ==> 0 <= j < n && names[j] == name,
    decreases n,
{
    if n > 0 {
        lemma_last_named(names, name, n - 1);
    }
}

proof fn lemma_hangs_kept(
    raws: Seq<RawMapModel>,
    layouts: Seq<LayoutData>,
    s: Stitch,
    t: Stitch,
    seed: int,
    j: int,
)
    requires
        keeps(s, t),
        s.pos.len() == raws.len(),
        is_joined(raws, layouts, s, seed),
        0 <= j < raws.len(),
        j != seed,
        s.pos[j] is Some,
    ensures
        exists|i: int, c: int| hangs_on(raws, layouts, t, j, i, c),
{
    let (i, c) = choose|i: int, c: int| hangs_on(raws, layouts, s, j, i, c);
    assert(hangs_on(raws, layouts, s, j, i, c));
    assert(t.pos[i] == s.pos[i]);
    assert(t.pos[j] == s.pos[j]);
    assert(hangs_on(raws, layouts, t, j, i, c));
}

proof fn lemma_connection(
    raws: Seq<RawMapModel>,
    layouts: Seq<LayoutData>,
    s: Stitch,
    i: int,
    n: int,
    seed: int,
)
    requires
        is_board(raws.len(), s),
        is_joined(raws, layouts, s, seed),
        0 <= i < raws.len(),
        s.pos[i] is Some,
        0 <= n < raws[i].connections.len(),
        is_followed(raws, s, i, n),
    ensures
        after_connection(raws, layouts, s, i, raws[i].connections[n]) matches Some(t) ==> {
            &&& is_board(raws.len(), t)
            &&& is_joined(raws, layouts, t, seed)
            &&& keeps(s, t)
            &&& is_followed(raws, t, i, n + 1)
        },
{
    let c = raws[i].connections[n];
    lemma_map_number(raws, c.map);
    if let Some(t) = after_connection(raws, layouts, s, i, c) {
        if follows(raws, i, c) is Some && s.pos[follows(raws, i, c)->0] is None {
            let j = follows(raws, i, c)->0;
            assert(!s.queue.contains(j));
            assert(t.queue == s.queue.push(j));
            assert forall|a: int, b: int|
                0 <= a < t.queue.len() && 0 <= b < t.queue.len() && a != b implies t.queue[a]
                != t.queue[b] by {
                if a < s.queue.len() && b < s.queue.len() {
                    assert(s.queue[a] != s.queue[b]);
                } else if a < s.queue.len() {
                    assert(s.queue.contains(s.queue[a]));
                } else if b < s.queue.len() {
                    assert(s.queue.contains(s.queue[b]));
                }
            }
            assert forall|x: int| 0 <= x < raws.len() && (#[trigger] t.pos[x]) is Some implies
                t.queue.contains(x) by {
                if x == j {
                    assert(t.queue[s.queue.len() as int] == j);
                } else {
                    assert(s.pos[x] is Some);
                    let q = choose|q: int| 0 <= q < s.queue.len() && s.queue[q] == x;
                    assert(t.queue[q] == x);
                }
            }
            assert(hangs_on(raws, layouts, t, j, i, n));
        }
        assert(keeps(s, t));
        assert forall|x: int|
            0 <= x < raws.len() && x != seed && (#[trigger] t.pos[x]) is Some implies exists|
            a: int,
            b: int,
        |
            hangs_on(raws, layouts, t, x, a, b) by {
            if s.pos[x] is Some {
                lemma_hangs_kept(raws, layouts, s, t, seed, x);
            }
        }
        assert forall|k: int| 0 <= k < n + 1 implies (follows(
            raws,
            i,
            #[trigger] raws[i].connections[k],
        ) matches Some(j) ==> t.pos[j] is Some) by {
            lemma_map_number(raws, raws[i].connections[k].map);
            if k < n {
                assert(follows(raws, i, raws[i].connections[k]) matches Some(j) ==> s.pos[j]
                    is Some);
            }
        }
    }
}

proof fn lemma_connections(
    raws: Seq<RawMapModel>,
    layouts: Seq<LayoutData>,
    s: Stitch,
    i: int,
    n: int,
    seed: int,
)
    requires
        is_board(raws.len(), s),
        is_joined(raws, layouts, s, seed),
        0 <= i < raws.len(),
        s.pos[i] is Some,
        0 <= n <= raws[i].connections.len(),
    ensures
        after_connections(raws, layouts, s, i, n) matches Some(t) ==> {
            &&& is_board(raws.len(), t)
            &&& is_joined(raws, layouts, t, seed)
            &&& keeps(s, t)
            &&& is_followed(raws, t, i, n)
        },
    decreases n,
{
    if n > 0 {
        lemma_connections(raws, layouts, s, i, n - 1, seed);
        if let Some(t) = after_connections(raws, layouts, s, i, n - 1) {
            assert(t.pos[i] == s.pos[i]);
            lemma_connection(raws, layouts, t, i, n - 1, seed);
            if let Some(u) = after_connection(raws, layouts, t, i, raws[i].connections[n - 1]) {
                assert forall|x: int| 0 <= x < s.pos.len() && (#[trigger] s.pos[x]) is Some implies
                    u.pos[x] == s.pos[x] by {
                    assert(t.pos[x] == s.pos[x]);
                }
                assert forall|q: int| 0 <= q < s.queue.len() implies #[trigger] u.queue[q]
                    == s.queue[q] by {
                    assert(t.queue[q] == s.queue[q]);
                }
            }
        }
    }
}

/// Whether the maps at the first `k` places of the queue are followed.
pub open spec fn is_explored(raws: Seq<RawMapModel>, s: Stitch, k: int) -> bool {
    forall|q: int|
        0 <= q < k && q < s.queue.len() ==> is_followed(
            raws,
            s,
            #[trigger] s.queue[q],
            raws[s.queue[q]].connections.len() as int,
        )
}

proof fn lemma_followed_kept(raws: Seq<RawMapModel>, s: Stitch, t: Stitch, i: int, n: int)
    requires
        keeps(s, t),
        s.pos.len() == raws.len(),
        is_followed(raws, s, i, n),
    ensures
        is_followed(raws, t, i, n),
{
    assert forall|c: int| 0 <= c < n implies (follows(
        raws,
        i,
        #[trigger] raws[i].connections[c],
    ) matches Some(j) ==> t.pos[j] is Some) by {
        lemma_map_number(raws, raws[i].connections[c].map);
        if let Some(j) = follows(raws, i, raws[i].connections[c]) {
            assert(s.pos[j] is Some);
        }
    }
}

/// A queue without repetition is no longer than the list of maps.
proof fn lemma_queue_len(n: nat, s: Stitch)
    requires
        is_board(n, s),
    ensures
        s.queue.len() <= n,
{
    s.queue.unique_seq_to_set();
    let all = vstd::set_lib::set_int_range(0, n as int);
    vstd::set_lib::lemma_int_range(0, n as int);
    assert forall|x: int| s.queue.to_set().contains(x) implies all.contains(x) by {
        let q = choose|q: int| 0 <= q < s.queue.len() && s.queue[q] == x;
        assert(0 <= s.queue[q] < n);
    }
    vstd::set_lib::lemma_len_subset(s.queue.to_set(), all);
}

proof fn lemma_run(
    raws: Seq<RawMapModel>,
    layouts: Seq<LayoutData>,
    s: Stitch,
    k: int,
    seed: int,
)
    requires
        is_board(raws.len(), s),
        is_joined(raws, layouts, s, seed),
        0 <= k,
        is_explored(raws, s, k),
    ensures
        run(raws, layouts, s, k) matches Some(t) ==> {
            &&& is_board(raws.len(), t)
            &&& is_joined(raws, layouts, t, seed)
            &&& keeps(s, t)
            &&& is_explored(raws, t, t.queue.len() as int)
        },
    decreases raws.len() - k,
{
    lemma_queue_len(raws.len(), s);
    if k < s.queue.len() && k < raws.len() {
        let i = s.queue[k];
        lemma_connections(raws, layouts, s, i, raws[i].connections.len() as int, seed);
        if let Some(t) = after_map(raws, layouts, s, k) {
            assert forall|q: int| 0 <= q < k + 1 && q < t.queue.len() implies is_followed(
                raws,
                t,
                #[trigger] t.queue[q],
                raws[t.queue[q]].connections.len() as int,
            ) by {
                assert(t.queue[q] == s.queue[q]);
                if q < k {
                    lemma_followed_kept(
                        raws,
                        s,
                        t,
                        s.queue[q],
                        raws[s.queue[q]].connections.len() as int,
                    );
                }
            }
            lemma_run(raws, layouts, t, k + 1, seed);
            if let Some(u) = run(raws, layouts, t, k + 1) {
                assert forall|x: int| 0 <= x < s.pos.len() && (#[trigger] s.pos[x]) is Some implies
                    u.pos[x] == s.pos[x] by {
                    assert(t.pos[x] == s.pos[x]);
                }
                assert forall|q: int| 0 <= q < s.queue.len() implies #[trigger] u.queue[q]
                    == s.queue[q] by {
                    assert(t.queue[q] == s.queue[q]);
                }
            }
        }
    }
}

/// The overworld as a whole: the first map lies at the origin, every other one
/// lies where a followed connection of another map puts it, and every followed
/// connection of a placed map leads to a placed map.
pub proof fn the_overworld_hangs_together(
    raws: Seq<RawMapModel>,
    layouts: Seq<LayoutData>,
    seed: int,
    i: int,
    c: int,
)
    requires
        0 <= seed < raws.len(),
        overworld(raws, layouts, seed) is Some,
    ensures
        ({
            let s = overworld(raws, layouts, seed)->0;
            &&& is_board(raws.len(), s)
            &&& s.pos[seed] == Some((0i32, 0i32))
            &&& is_joined(raws, layouts, s, seed)
            &&& 0 <= i < raws.len() && s.pos[i] is Some && 0 <= c < raws[i].connections.len()
                ==> (follows(raws, i, raws[i].connections[c]) matches Some(j) ==> s.pos[j] is Some)
        }),
{
    let start = seeded(raws.len(), seed);
    assert(start.queue[0] == seed);
    assert(start.queue.contains(seed));
    lemma_run(raws, layouts, start, 0, seed);
    let s = overworld(raws, layouts, seed)->0;
    assert(start.pos[seed] is Some);
    assert(s.pos[seed] == start.pos[seed]);
    if 0 <= i < raws.len() && s.pos[i] is Some && 0 <= c < raws[i].connections.len() {
        assert(s.queue.contains(i));
        let q = choose|q: int| 0 <= q < s.queue.len() && s.queue[q] == i;
        assert(is_followed(raws, s, s.queue[q], raws[s.queue[q]].connections.len() as int));
    }
}

// ---- placing -------------------------------------------------------------

/// The number of the map with an id.
pub fn find_map(ids: &Vec<Text>, id: &str) -> (r: Option<usize>)
    ensures
        match text::last_named(text::texts(ids@), id@, ids@.len() as int) {
            Some(j) => r matches Some(x) && x == j && x < ids@.len(),
            None => r is None,
        },
{
    assert(text::texts(ids@).len() == ids@.len());
    text::find_last(ids, &chars_of(id))
}

/// The ids of maps.
pub fn map_ids(raws: &Vec<RawMap>) -> (ids: Vec<Text>)
    ensures
        text::texts(ids@) == ids_of(maps::map_models(raws@)),
        ids@.len() == raws@.len(),
{
    let mut ids: Vec<Text> = Vec::new();
    let mut i: usize = 0;
    while i < raws.len()
        invariant
            i <= raws@.len(),
            ids@.len() == i,
            forall|k: int| 0 <= k < i ==> (#[trigger] ids@[k])@ == raws@[k].id@,
        decreases raws.len() - i,
    {
        ids.push(chars_of(raws[i].id.as_str()));
        i += 1;
    }
    assert(text::texts(ids@) =~= ids_of(maps::map_models(raws@)));
    ids
}

/// The maps placed so far, and their order.
struct Board {
    pos: Vec<Option<(i32, i32)>>,
    queue: Vec<usize>,
}

impl Board {
    spec fn model(&self) -> Stitch {
        Stitch {
            pos: self.pos@,
            queue: Seq::new(self.queue@.len(), |i: int| self.queue@[i] as int),
        }
    }
}

fn size_of(layouts: &Vec<LayoutData>, m: &RawMap) -> (r: (i32, i32))
    requires
        m.layout < layouts@.len(),
    ensures
        r.0 == width_of(layouts@, m.model()),
        r.1 == height_of(layouts@, m.model()),
{
    let l = &layouts[m.layout as usize];
    (signed_word(l.width), signed_word(l.height))
}

fn torn(a: &str, b: &str) -> (r: bool)
    ensures
        r == is_torn(a@, b@),
{
    (same_text(a, "MAP_ROUTE102") && same_text(b, "MAP_PETALBURG_CITY")) || (same_text(
        a,
        "MAP_PETALBURG_CITY",
    ) && same_text(b, "MAP_ROUTE102"))
}

fn place_next(
    raws: &Vec<RawMap>,
    layouts: &Vec<LayoutData>,
    ids: &Vec<Text>,
    board: &mut Board,
    i: usize,
    at: (i32, i32),
    c: &Connection,
) -> (ok: bool)
    requires
        has_layouts(maps::map_models(raws@), layouts@),
        text::texts(ids@) == ids_of(maps::map_models(raws@)),
        ids@.len() == raws@.len(),
        i < raws@.len(),
        old(board).pos@.len() == raws@.len(),
        old(board).pos@[i as int] == Some(at),
    ensures
        match after_connection(
            maps::map_models(raws@),
            layouts@,
            old(board).model(),
            i as int,
            c.model(),
        ) {
            Some(t) => ok && final(board).model() == t && final(board).pos@.len() == raws@.len(),
            None => !ok,
        },
{
    let ghost ms = maps::map_models(raws@);
    let ghost s = board.model();
    assert(ms[i as int] == raws@[i as int].model());
    if torn(raws[i].id.as_str(), c.map.as_str()) {
        return true;
    }
    let j: usize = match find_map(ids, c.map.as_str()) {
        None => return true,
        Some(j) => j,
    };
    assert(ms[j as int] == raws@[j as int].model());
    assert(follows(ms, i as int, c.model()) == Some(j as int));
    let (fw, fh): (i32, i32) = size_of(layouts, &raws[i]);
    let (tw, th): (i32, i32) = size_of(layouts, &raws[j]);
    let o: i64 = low_signed_of(c.offset) as i64;
    let (x, y): (i64, i64) = (at.0 as i64, at.1 as i64);
    let (px, py): (i64, i64) = match c.side {
        Side::Up => (x + o, y - th as i64),
        Side::Down => (x + o, y + fh as i64),
        Side::Left => (x - tw as i64, y + o),
        Side::Right => (x + fw as i64, y + o),
    };
    let ghost p = joined(layouts@, ms[i as int], ms[j as int], at, c.model());
    assert((px as int, py as int) == p);
    if px < i32::MIN as i64 || px > i32::MAX as i64 || py < i32::MIN as i64 || py > i32::MAX as i64 {
        return false;
    }
    if board.pos[j].is_none() {
        board.pos.set(j, Some((px as i32, py as i32)));
        board.queue.push(j);
        assert(board.model().queue =~= s.queue.push(j as int));
    }
    true
}

proof fn lemma_connections_stop(
    raws: Seq<RawMapModel>,
    layouts: Seq<LayoutData>,
    s: Stitch,
    i: int,
    a: int,
    b: int,
)
    requires
        a <= b,
        after_connections(raws, layouts, s, i, a) is None,
    ensures
        after_connections(raws, layouts, s, i, b) is None,
    decreases b,
{
    if a < b && b > 0 {
        lemma_connections_stop(raws, layouts, s, i, a, b - 1);
    }
}

/// Place the maps of the overworld from one of them on; nothing where a place
/// has no coordinates.
pub fn stitch(raws: &Vec<RawMap>, layouts: &Vec<LayoutData>, seed: usize) -> (r: Option<
    Vec<Option<(i32, i32)>>,
>)
    requires
        has_layouts(maps::map_models(raws@), layouts@),
        seed < raws@.len(),
    ensures
        match overworld(maps::map_models(raws@), layouts@, seed as int) {
            Some(s) => r is Some && r->0@ == s.pos && r->0@.len() == raws@.len(),
            None => r is None,
        },
{
    let ghost ms = maps::map_models(raws@);
    let ids = map_ids(raws);
    let mut pos: Vec<Option<(i32, i32)>> = Vec::new();
    let mut n: usize = 0;
    while n < raws.len()
        invariant
            n <= raws@.len(),
            pos@.len() == n,
            forall|k: int| 0 <= k < n ==> pos@[k] is None,
        decreases raws.len() - n,
    {
        pos.push(None);
        n += 1;
    }
    pos.set(seed, Some((0, 0)));
    let mut queue: Vec<usize> = Vec::new();
    queue.push(seed);
    let mut board = Board { pos, queue };
    assert(board.model() =~= seeded(ms.len(), seed as int));
    proof {
        assert(board.model().queue[0] == seed);
        assert(board.model().queue.contains(seed as int));
    }
    let mut k: usize = 0;
    while k < board.queue.len() && k < raws.len()
        invariant
            ms == maps::map_models(raws@),
            has_layouts(ms, layouts@),
            text::texts(ids@) == ids_of(ms),
            ids@.len() == raws@.len(),
            board.pos@.len() == raws@.len(),
            k <= raws@.len(),
            is_board(ms.len(), board.model()),
            is_joined(ms, layouts@, board.model(), seed as int),
            overworld(ms, layouts@, seed as int) == run(ms, layouts@, board.model(), k as int),
        decreases raws.len() - k,
    {
        let ghost s = board.model();
        let i: usize = board.queue[k];
        assert(s.queue[k as int] == i);
        let at: (i32, i32) = match board.pos[i] {
            Some(p) => p,
            None => (0, 0),
        };
        assert(ms[i as int] == raws@[i as int].model());
        let connections = &raws[i].connections;
        let ghost cs = maps::connection_models(connections@);
        let mut c: usize = 0;
        while c < connections.len()
            invariant
                ms == maps::map_models(raws@),
                has_layouts(ms, layouts@),
                text::texts(ids@) == ids_of(ms),
                ids@.len() == raws@.len(),
                c <= connections@.len(),
                i < raws@.len(),
                *connections == raws@[i as int].connections,
                cs == maps::connection_models(connections@),
                cs == ms[i as int].connections,
                is_board(ms.len(), s),
                is_joined(ms, layouts@, s, seed as int),
                s.pos[i as int] == Some(at),
                board.pos@.len() == raws@.len(),
                after_connections(ms, layouts@, s, i as int, c as int) == Some(board.model()),
                0 <= k < s.queue.len(),
                k < raws@.len(),
                s.queue[k as int] == i,
                overworld(ms, layouts@, seed as int) == run(ms, layouts@, s, k as int),
            decreases connections.len() - c,
        {
            proof {
                lemma_connections(ms, layouts@, s, i as int, c as int, seed as int);
                assert(board.model().pos[i as int] == s.pos[i as int]);
                assert(cs[c as int] == connections@[c as int].model());
            }
            if !place_next(raws, layouts, &ids, &mut board, i, at, &connections[c]) {
                proof {
                    lemma_connections_stop(
                        ms,
                        layouts@,
                        s,
                        i as int,
                        c + 1,
                        connections@.len() as int,
                    );
                }
                return None;
            }
            c += 1;
        }
        proof {
            assert(cs.len() == connections@.len());
            lemma_connections(
                ms,
                layouts@,
                s,
                i as int,
                ms[i as int].connections.len() as int,
                seed as int,
            );
        }
        k += 1;
    }
    Some(board.pos)
}

} // verus!
