//! What the world does, rule by rule.

use vstd::prelude::*;
use crate::game::data::{LayoutData, MapData, RealmData, WorldPack};
use crate::game::map::{Cell, Realm, RealmGraph, Warp};
use crate::game::player;
use crate::game::player::{Avatar, Facing, Motion, Player, StepEvents};
use crate::game::state;
use crate::game::state::{Camera, State, Transition};
use crate::game::world;
use crate::game::world::World;
use crate::single;
use crate::types::Input;

verus! {

// ---- what plays ----------------------------------------------------------------

/// On foot, the music is that of the map that the player stands in, in the realm
/// that it is in.
pub proof fn the_music_is_that_of_the_map(g: RealmGraph, s: State, m: u16)
    requires
        s.player.avatar == Avatar::Walking,
        s.player.current_map == Some(m),
        s.realm < g.realms@.len(),
        m < g.realms@[s.realm as int].maps@.len(),
    ensures
        world::music_of(g, s) == Some(g.realms@[s.realm as int].maps@[m as int].music@),
{
}

/// Where two maps have different music, going from the one to the other changes
/// what plays.
pub proof fn other_maps_play_other_music(g: RealmGraph, s: State, t: State, m: u16, n: u16)
    requires
        s.player.avatar == Avatar::Walking,
        s.player.current_map == Some(m),
        t == (State { player: Player { current_map: Some(n), ..s.player }, ..s }),
        s.realm < g.realms@.len(),
        m < g.realms@[s.realm as int].maps@.len(),
        n < g.realms@[s.realm as int].maps@.len(),
        g.realms@[s.realm as int].maps@[m as int].music@
            != g.realms@[s.realm as int].maps@[n as int].music@,
    ensures
        world::music_of(g, s) != world::music_of(g, t),
{
}

/// In a world that was made of a pack, that is the music which the pack gives the
/// map.
pub proof fn the_music_is_that_of_the_pack(g: RealmGraph, pack: WorldPack, s: State, m: u16)
    requires
        g.realms@.len() == pack.realms@.len(),
        s.realm < pack.realms@.len(),
        crate::game::map::expands(
            g.realms@[s.realm as int],
            pack.realms@[s.realm as int],
            pack.layouts@,
        ),
        s.player.avatar == Avatar::Walking,
        s.player.current_map == Some(m),
        m < pack.realms@[s.realm as int].maps@.len(),
    ensures
        world::music_of(g, s) == Some(pack.realms@[s.realm as int].maps@[m as int].music@),
{
    let r = g.realms@[s.realm as int];
    assert(crate::game::map::info_of(
        r.maps@[m as int],
        pack.realms@[s.realm as int].maps@[m as int],
        pack.layouts@,
    ));
}

/// What a world says should be playing is the music of the map that its player
/// walks in.
pub proof fn a_world_plays_the_music_of_its_map(w: World, said: Option<&str>, m: u16)
    requires
        w.wf(),
        call_ensures(World::current_music, (&w,), said),
        w.curr.player.avatar == Avatar::Walking,
        w.curr.player.current_map == Some(m),
        m < w.graph.realms@[w.curr.realm as int].maps@.len(),
    ensures
        said is Some,
        said->0@ == w.graph.realms@[w.curr.realm as int].maps@[m as int].music@,
{
}

/// On the water and on the bike the tune is their own, wherever the player is;
/// on foot outside any map nothing plays.
pub proof fn surf_and_bike_have_their_own_tunes(g: RealmGraph, s: State)
    ensures
        s.player.avatar == Avatar::Surfing ==> world::music_of(g, s) == Some("MUS_SURF"@),
        s.player.avatar is Bike ==> world::music_of(g, s) == Some("MUS_CYCLING"@),
        s.player.avatar == Avatar::Walking && s.player.current_map is None ==> world::music_of(g, s)
            is None,
{
}

// ---- the tiles -----------------------------------------------------------------

/// A tile of a realm is that of its row and column; there is none outside.
pub proof fn a_tile_has_its_row_and_column(r: Realm, x: int, y: int)
    ensures
        0 <= x < r.width && 0 <= y < r.height ==> r.cell_at(x, y) == r.cells@[y * r.width + x]
            && r.inside(x, y),
        !(0 <= x < r.width && 0 <= y < r.height) ==> r.cell_at(x, y) is None && !r.inside(x, y),
{
}

proof fn lemma_or_nothing(a: u8)
    ensures
        a | 0u8 == a,
{
    assert(a | 0u8 == a) by (bit_vector);
}

/// A block is read bit by bit: ten of its metatile, two of its collision, four
/// of its elevation, and none is lost.
pub proof fn a_block_is_read_bit_by_bit(word: u16, pair: u16)
    requires
        pair < 256,
    ensures
        ({
            let c = crate::game::map::cell_of(word, pair);
            &&& c.metatile < 1024
            &&& c.collision < 4
            &&& c.elevation < 16
            &&& c.metatile + 1024 * c.collision + 4096 * c.elevation == word
            &&& c.pair == pair
        }),
{
    lemma_or_nothing((word / 4096) as u8);
    assert(pair / 512 % 16 == 0);
}

/// The warp of a tile is the first in the realm that stands on it.
pub proof fn the_first_warp_on_a_tile_counts(r: Realm, x: int, y: int)
    ensures
        match r.warp_on(x, y) {
            Some(w) => exists|k: int|
                0 <= k < r.warps@.len() && (#[trigger] r.warps@[k]) == w && w.x == x && w.y == y
                    && forall|i: int|
                    0 <= i < k ==> !((#[trigger] r.warps@[i]).x == x && r.warps@[i].y == y),
            None => forall|i: int|
                0 <= i < r.warps@.len() ==> !((#[trigger] r.warps@[i]).x == x && r.warps@[i].y
                    == y),
        },
{
    lemma_first_warp(r, x, y, 0);
}

proof fn lemma_first_warp(r: Realm, x: int, y: int, from: int)
    requires
        0 <= from,
    ensures
        match r.first_warp(x, y, from) {
            Some(w) => exists|k: int|
                from <= k < r.warps@.len() && (#[trigger] r.warps@[k]) == w && w.x == x && w.y == y
                    && forall|i: int|
                    from <= i < k ==> !((#[trigger] r.warps@[i]).x == x && r.warps@[i].y == y),
            None => forall|i: int|
                from <= i < r.warps@.len() ==> !((#[trigger] r.warps@[i]).x == x && r.warps@[i].y
                    == y),
        },
    decreases r.warps@.len() - from,
{
    if from < r.warps@.len() {
        if r.warps@[from].x == x && r.warps@[from].y == y {
            assert(r.warps@[from] == r.first_warp(x, y, from)->0);
        } else {
            lemma_first_warp(r, x, y, from + 1);
            if let Some(w) = r.first_warp(x, y, from) {
                let k = choose|k: int|
                    from + 1 <= k < r.warps@.len() && (#[trigger] r.warps@[k]) == w && w.x == x
                        && w.y == y && forall|i: int|
                        from + 1 <= i < k ==> !((#[trigger] r.warps@[i]).x == x && r.warps@[i].y
                            == y);
                assert(r.warps@[k] == w);
            }
        }
    }
}

/// The map of a tile is the first of the realm whose rectangle holds it.
pub proof fn the_first_map_of_a_tile_counts(r: Realm, x: int, y: int)
    requires
        r.maps@.len() <= 65536,
    ensures
        match r.map_on(x, y) {
            Some(m) => m < r.maps@.len() && holds(r, m as int, x, y) && forall|i: int|
                0 <= i < m ==> !#[trigger] holds(r, i, x, y),
            None => forall|i: int| 0 <= i < r.maps@.len() ==> !#[trigger] holds(r, i, x, y),
        },
{
    lemma_first_map(r, x, y, 0);
}

/// Whether a tile lies in the rectangle of a map.
pub open spec fn holds(r: Realm, m: int, x: int, y: int) -> bool {
    &&& r.maps@[m].x <= x < r.maps@[m].x + r.maps@[m].width
    &&& r.maps@[m].y <= y < r.maps@[m].y + r.maps@[m].height
}

proof fn lemma_first_map(r: Realm, x: int, y: int, from: int)
    requires
        0 <= from,
        r.maps@.len() <= 65536,
    ensures
        match r.first_map(x, y, from) {
            Some(m) => from <= m < r.maps@.len() && holds(r, m as int, x, y) && forall|i: int|
                from <= i < m ==> !#[trigger] holds(r, i, x, y),
            None => forall|i: int| from <= i < r.maps@.len() ==> !#[trigger] holds(r, i, x, y),
        },
    decreases r.maps@.len() - from,
{
    if from < r.maps@.len() && !r.maps@[from].covers(x, y) {
        lemma_first_map(r, x, y, from + 1);
    }
}

/// How many warps the first `n` maps have.
pub open spec fn warps_before(maps: Seq<MapData>, n: int) -> int
    decreases n,
{
    if n <= 0 {
        0int
    } else {
        warps_before(maps, n - 1) + maps[n - 1].warps@.len()
    }
}

proof fn lemma_warps(maps: Seq<MapData>, n: int, i: int, k: int)
    requires
        0 <= n <= maps.len(),
    ensures
        crate::game::map::warps_of(maps, n).len() == warps_before(maps, n),
        0 <= i < n && 0 <= k < maps[i].warps@.len() ==> 0 <= warps_before(maps, i) + k
            < warps_before(maps, n) && crate::game::map::warps_of(maps, n)[warps_before(maps, i) + k]
            == crate::game::map::warp_of(maps[i].warps@[k]),
        0 <= warps_before(maps, n),
    decreases n,
{
    if n > 0 {
        lemma_warps(maps, n - 1, i, k);
        if i == n - 1 && 0 <= k < maps[i].warps@.len() {
            let tail = Seq::new(
                maps[n - 1].warps@.len(),
                |j: int| crate::game::map::warp_of(maps[n - 1].warps@[j]),
            );
            assert(crate::game::map::warps_of(maps, n) == crate::game::map::warps_of(maps, n - 1) + tail);
            assert(crate::game::map::warps_of(maps, n)[warps_before(maps, i) + k] == tail[k]);
        }
    }
}

/// A realm has the warps of its maps, those of a map behind those of the maps
/// before it, each where its data put it and leading where they say; and no
/// other.
pub proof fn a_realm_has_the_warps_of_its_maps(
    r: Realm,
    rd: RealmData,
    layouts: Seq<LayoutData>,
    i: int,
    k: int,
)
    requires
        crate::game::map::expands(r, rd, layouts),
        0 <= i < rd.maps@.len(),
        0 <= k < rd.maps@[i].warps@.len(),
    ensures
        r.warps@.len() == warps_before(rd.maps@, rd.maps@.len() as int),
        ({
            let w = r.warps@[warps_before(rd.maps@, i) + k];
            let d = rd.maps@[i].warps@[k];
            &&& 0 <= warps_before(rd.maps@, i) + k < r.warps@.len()
            &&& w.x == d.x && w.y == d.y
            &&& w.to_realm == d.to_realm && w.to_x == d.to_x && w.to_y == d.to_y
        }),
{
    lemma_warps(rd.maps@, rd.maps@.len() as int, i, k);
}

/// A map of a realm is where its data put it, as large as its layout.
pub proof fn a_map_is_as_large_as_its_layout(
    r: Realm,
    rd: RealmData,
    layouts: Seq<LayoutData>,
    i: int,
)
    requires
        crate::game::map::expands(r, rd, layouts),
        0 <= i < rd.maps@.len(),
    ensures
        r.maps@.len() == rd.maps@.len(),
        r.width == rd.width,
        r.height == rd.height,
        r.maps@[i].id@ == rd.maps@[i].id@,
        r.maps@[i].music@ == rd.maps@[i].music@,
        r.maps@[i].x == rd.maps@[i].x,
        r.maps@[i].y == rd.maps@[i].y,
        r.maps@[i].width == layouts[rd.maps@[i].layout as int].width,
        r.maps@[i].height == layouts[rd.maps@[i].layout as int].height,
{
    assert(crate::game::map::info_of(r.maps@[i], rd.maps@[i], layouts));
}

/// The first 512 metatiles behave as the primary tileset of their pair says, the
/// others as the secondary does; one that is nowhere behaves as the first
/// behavior.
pub proof fn a_metatile_behaves_as_its_tileset_says(g: RealmGraph, c: Cell)
    requires
        c.pair < g.pairs@.len(),
    ensures
        ({
            let prim = g.pairs@[c.pair as int].0 as int;
            let sec = g.pairs@[c.pair as int].1 as int;
            &&& c.metatile < 512 && prim < g.behaviors@.len() && c.metatile
                < g.behaviors@[prim]@.len() ==> g.behavior_of(c)
                == g.behaviors@[prim]@[c.metatile as int]
            &&& c.metatile >= 512 && sec < g.behaviors@.len() && c.metatile - 512
                < g.behaviors@[sec]@.len() ==> g.behavior_of(c) == g.behaviors@[sec]@[c.metatile
                - 512]
            &&& c.metatile < 512 && prim < g.behaviors@.len() && c.metatile
                >= g.behaviors@[prim]@.len() ==> g.behavior_of(c) == 0
            &&& c.metatile >= 512 && sec < g.behaviors@.len() && c.metatile - 512
                >= g.behaviors@[sec]@.len() ==> g.behavior_of(c) == 0
        }),
{
}

/// A behavior is surfable where its bit is set: bit `b % 8` of byte `b / 8`.
pub proof fn a_behavior_is_surfable_by_its_bit(g: RealmGraph, c: Cell)
    ensures
        ({
            let b = g.behavior_of(c);
            let m = g.surfable@[b as int / 8] as int;
            &&& b % 8 == 0 ==> g.is_surfable(c) == (m % 2 == 1)
            &&& b % 8 == 1 ==> g.is_surfable(c) == (m / 2 % 2 == 1)
            &&& b % 8 == 2 ==> g.is_surfable(c) == (m / 4 % 2 == 1)
            &&& b % 8 == 3 ==> g.is_surfable(c) == (m / 8 % 2 == 1)
            &&& b % 8 == 4 ==> g.is_surfable(c) == (m / 16 % 2 == 1)
            &&& b % 8 == 5 ==> g.is_surfable(c) == (m / 32 % 2 == 1)
            &&& b % 8 == 6 ==> g.is_surfable(c) == (m / 64 % 2 == 1)
            &&& b % 8 == 7 ==> g.is_surfable(c) == (m / 128 % 2 == 1)
        }),
{
    let m = g.surfable@[g.behavior_of(c) as int / 8] as int;
    assert(m / 1 == m);
}

/// A tile is water, or waits for an arrow, as its behavior says; where there is
/// no tile there is neither.
pub proof fn a_tile_is_what_its_behavior_says(g: RealmGraph, realm: int, x: int, y: int)
    ensures
        match g.realms@[realm].cell_at(x, y) {
            Some(c) => g.surfable_on(realm, x, y) == g.is_surfable(c) && (
            g.warp_dir@[g.behavior_of(c) as int] == 0 ==> g.arrow_on(realm, x, y) is None) && (
            g.warp_dir@[g.behavior_of(c) as int] != 0 ==> g.arrow_on(realm, x, y) == Some(
                g.warp_dir@[g.behavior_of(c) as int],
            )),
            None => !g.surfable_on(realm, x, y) && g.arrow_on(realm, x, y) is None && g.door_on(
                realm,
                x,
                y,
            ) is None,
        },
{
}

proof fn lemma_last_door(doors: Seq<(u16, u16)>, key: (u16, u16), n: int)
    requires
        0 <= n <= doors.len() <= 65536,
    ensures
        match crate::game::map::last_door(doors, key, n) {
            Some(d) => d < n && doors[d as int] == key && forall|i: int|
                d < i < n ==> #[trigger] doors[i] != key,
            None => forall|i: int| 0 <= i < n ==> #[trigger] doors[i] != key,
        },
    decreases n,
{
    if n > 0 && doors[n - 1] != key {
        lemma_last_door(doors, key, n - 1);
    }
}

/// The door of a tile is the last of the pack that is made for its tileset, the
/// primary for the first 512 metatiles, and for its metatile.
pub proof fn a_door_is_made_for_its_metatile(g: RealmGraph, realm: int, x: int, y: int, c: Cell)
    requires
        g.doors@.len() <= 65536,
        g.realms@[realm].cell_at(x, y) == Some(c),
        c.pair < g.pairs@.len(),
    ensures
        ({
            let pair = g.pairs@[c.pair as int];
            let key = (if c.metatile < 512 {
                pair.0
            } else {
                pair.1
            }, c.metatile);
            match g.door_on(realm, x, y) {
                Some(d) => d < g.doors@.len() && g.doors@[d as int] == key && forall|i: int|
                    d < i < g.doors@.len() ==> #[trigger] g.doors@[i] != key,
                None => forall|i: int|
                    0 <= i < g.doors@.len() ==> #[trigger] g.doors@[i] != key,
            }
        }),
{
    let pair = g.pairs@[c.pair as int];
    let key = (if c.metatile < 512 {
        pair.0
    } else {
        pair.1
    }, c.metatile);
    lemma_last_door(g.doors@, key, g.doors@.len() as int);
}

// ---- walking -------------------------------------------------------------------

/// Up counts before down, down before left, left before right.
pub proof fn the_pad_has_an_order(i: Input)
    ensures
        i.up ==> player::held(i) == Some(Facing::Up),
        !i.up && i.down ==> player::held(i) == Some(Facing::Down),
        !i.up && !i.down && i.left ==> player::held(i) == Some(Facing::Left),
        !i.up && !i.down && !i.left && i.right ==> player::held(i) == Some(Facing::Right),
        !i.up && !i.down && !i.left && !i.right ==> player::held(i) is None,
{
}

/// Up is a row less, down a row more, left a column less, right a column more.
pub proof fn the_tile_ahead_is_the_next_one(p: Player)
    ensures
        player::ahead(p, Facing::Up) == (p.x as int, p.y - 1),
        player::ahead(p, Facing::Down) == (p.x as int, p.y + 1),
        player::ahead(p, Facing::Left) == (p.x - 1, p.y as int),
        player::ahead(p, Facing::Right) == (p.x + 1, p.y as int),
{
}

/// Who may enter a tile: nobody outside the realm; whoever levitates, and anyone
/// where there is no block; nobody a solid block, and no one on foot or on a bike
/// the water. A surfer may go ashore. Otherwise the elevation of the tile must be
/// the player's own, unless either is that of stairs or the tile is a bridge.
pub proof fn who_may_enter_a_tile(
    g: RealmGraph,
    realm: int,
    p: Player,
    x: int,
    y: int,
    levitate: bool,
)
    ensures
        ({
            let r = g.realms@[realm];
            let inside = 0 <= x < r.width && 0 <= y < r.height;
            let may = player::enters(g, realm, p, x, y, levitate);
            &&& !inside ==> !may
            &&& inside && levitate ==> may
            &&& inside && r.cells@[y * r.width + x] is None ==> may
            &&& inside && !levitate && r.cells@[y * r.width + x] is Some ==> {
                let c = r.cells@[y * r.width + x]->0;
                let level = c.elevation == 0 || c.elevation == 15 || p.elevation == 0
                    || c.elevation == p.elevation;
                &&& c.collision != 0 ==> !may
                &&& c.collision == 0 && g.is_surfable(c) && p.avatar != Avatar::Surfing ==> !may
                &&& c.collision == 0 && !g.is_surfable(c) && p.avatar == Avatar::Surfing ==> may
                &&& c.collision == 0 && g.is_surfable(c) == (p.avatar == Avatar::Surfing) ==> may
                    == level
            }
        }),
{
}

/// The pixels of a step: one on foot, two at a run, on the water or on a bike
/// that has begun to roll, four on a bike at its top.
pub proof fn speeds_are_one_two_and_four(a: Avatar, run: bool)
    ensures
        a == Avatar::Walking && !run ==> player::speed_of(a, run) == 1,
        a == Avatar::Walking && run ==> player::speed_of(a, run) == 2,
        a == Avatar::Surfing ==> player::speed_of(a, run) == 2,
        a matches Avatar::Bike { tier, .. } ==> player::speed_of(a, run) == if tier == 0 {
            1int
        } else if tier == 1 {
            2int
        } else {
            4int
        },
{
}

/// A standing player that is pushed the way it faces sets out for the tile ahead
/// where it may enter it, with its first pixels behind it, and stays where it is
/// otherwise; pushed another way, it turns there.
pub proof fn a_standing_player_goes_where_it_is_pushed(
    g: RealmGraph,
    realm: int,
    p: Player,
    ev: StepEvents,
    input: Input,
    run: bool,
    levitate: bool,
    dir: Facing,
)
    requires
        p.motion == Motion::Idle,
        player::held(input) == Some(dir),
        p.wf(),
    ensures
        ({
            let (q, e) = player::stepped(g, realm, p, ev, input, run, levitate);
            let (x, y) = player::ahead(p, dir);
            let free = p.facing == dir && g.arrow_on(realm, p.x as int, p.y as int) is None && (
            levitate || g.realms@[realm].warp_on(x, y) is None || g.door_on(realm, x, y) is None);
            &&& p.facing != dir ==> q.x == p.x && q.y == p.y && q.facing == dir && q.motion == (
            Motion::Turning { steps_left: 8 }) && q.step_loop == p.step_loop && e == ev
            &&& free && player::enters(g, realm, p, x, y, levitate) ==> {
                &&& q.x == x && q.y == y && q.facing == dir && e == ev
                &&& q.elevation == p.elevation && q.current_map == p.current_map && q.step_loop
                    == p.step_loop
                &&& q.motion is Moving
                &&& 1 <= q.motion->speed <= 4
                &&& q.motion->remaining_px == single::single_of(
                    (16 - q.motion->speed) as u32,
                ) as u32
                &&& p.avatar == Avatar::Walking ==> q.avatar == Avatar::Walking && q.motion->speed
                    == if run {
                    2int
                } else {
                    1int
                }
                &&& p.avatar == Avatar::Surfing && g.surfable_on(realm, x, y) ==> q.avatar
                    == Avatar::Surfing && q.motion->speed == 2
                &&& p.avatar == Avatar::Surfing && !g.surfable_on(realm, x, y) ==> q.avatar
                    == Avatar::Walking
            }
            &&& free && !player::enters(g, realm, p, x, y, levitate) ==> q.x == p.x && q.y == p.y
                && q.facing == dir && q.motion == Motion::Idle && e == ev && q.step_loop
                == p.step_loop && q.elevation == p.elevation && q.current_map == p.current_map
            &&& p.facing != dir || free && !player::enters(g, realm, p, x, y, levitate)
                ==> q.avatar == if p.avatar is Bike {
                Avatar::Bike { tier: 0, momentum: 0 }
            } else {
                p.avatar
            }
        }),
{
    reveal(player::stepped);
}

/// Pushing at an animated door that leads somewhere opens it: the player stays
/// where it is and the door's tile is named. Whoever levitates opens none.
pub proof fn pushing_at_a_door_opens_it(
    g: RealmGraph,
    realm: int,
    p: Player,
    ev: StepEvents,
    input: Input,
    run: bool,
    dir: Facing,
)
    requires
        p.motion == Motion::Idle,
        player::held(input) == Some(dir),
        p.facing == dir,
        p.wf(),
        g.arrow_on(realm, p.x as int, p.y as int) is None,
        g.realms@[realm].warp_on(player::ahead(p, dir).0, player::ahead(p, dir).1) is Some,
        g.door_on(realm, player::ahead(p, dir).0, player::ahead(p, dir).1) is Some,
    ensures
        ({
            let (q, e) = player::stepped(g, realm, p, ev, input, run, false);
            &&& q == p
            &&& e.door_enter is Some
            &&& (e.door_enter->0).0 == player::ahead(p, dir).0
            &&& (e.door_enter->0).1 == player::ahead(p, dir).1
            &&& e.warp == ev.warp && e.entered_map == ev.entered_map && e.sfx == ev.sfx
        }),
{
    reveal(player::stepped);
}

/// An arrow tile sends off whoever pushes the way it points while standing on it
/// and facing that way: 1 points down, 2 up, 3 right, 4 left.
pub proof fn an_arrow_sends_off_whoever_follows_it(
    g: RealmGraph,
    realm: int,
    p: Player,
    ev: StepEvents,
    input: Input,
    run: bool,
    levitate: bool,
    dir: Facing,
)
    requires
        p.motion == Motion::Idle,
        player::held(input) == Some(dir),
        p.facing == dir,
        match dir {
            Facing::Down => g.arrow_on(realm, p.x as int, p.y as int) == Some(1u8),
            Facing::Up => g.arrow_on(realm, p.x as int, p.y as int) == Some(2u8),
            Facing::Right => g.arrow_on(realm, p.x as int, p.y as int) == Some(3u8),
            Facing::Left => g.arrow_on(realm, p.x as int, p.y as int) == Some(4u8),
        },
        g.realms@[realm].warp_on(p.x as int, p.y as int) is Some,
    ensures
        player::stepped(g, realm, p, ev, input, run, levitate) == (
            p,
            StepEvents { warp: g.realms@[realm].warp_on(p.x as int, p.y as int), ..ev },
        ),
{
    reveal(player::stepped);
}

// ---- the end of a step -----------------------------------------------------------

/// A finished step puts the player in the map of its tile, the last one where
/// the tile has none, and tells of a map only where that is another; it fires
/// the warp of the tile unless the tile waits for an arrow.
pub proof fn a_finished_step_looks_at_its_tile(
    g: RealmGraph,
    realm: int,
    p: Player,
    ev: StepEvents,
)
    ensures
        ({
            let (q, e) = player::taken(g, realm, p, ev);
            let here = g.realms@[realm].map_on(p.x as int, p.y as int);
            &&& here is Some ==> q.current_map == here
            &&& here is None ==> q.current_map == p.current_map
            &&& here is Some && here != p.current_map ==> e.entered_map == here
            &&& here is None || here == p.current_map ==> e.entered_map == ev.entered_map
            &&& g.arrow_on(realm, p.x as int, p.y as int) is None ==> e.warp
                == g.realms@[realm].warp_on(p.x as int, p.y as int)
            &&& g.arrow_on(realm, p.x as int, p.y as int) is Some ==> e.warp == ev.warp
            &&& q.x == p.x && q.y == p.y && q.facing == p.facing && q.motion == p.motion
            &&& q.step_loop == p.step_loop && q.avatar == p.avatar
            &&& e.door_enter == ev.door_enter && e.sfx == ev.sfx
        }),
{
}

/// Feet alternate: each finished step or turn takes the other foot, and two of
/// them the same again.
pub proof fn feet_alternate(n: u8)
    ensures
        player::alternated(n) % 2 != n % 2,
        player::alternated(player::alternated(n)) == n,
{
}

/// At the end of a move the player goes on at once with a whole tile before it,
/// where a free tile lies the way it is pushed, on foot or on the water; with
/// nothing pressed it stands.
pub proof fn a_move_chains_into_the_next(
    g: RealmGraph,
    realm: int,
    p: Player,
    ev: StepEvents,
    input: Input,
    run: bool,
    levitate: bool,
)
    requires
        p.motion is Moving,
        p.wf(),
        p.avatar !is Bike,
        single::less(p.motion->remaining_px, p.motion->speed as int) is None,
        ev.warp is None,
        ev.door_enter is None,
        g.realms@[realm].warp_on(p.x as int, p.y as int) is None,
    ensures
        ({
            let (q, e) = player::stepped(g, realm, p, ev, input, run, levitate);
            let h = player::held(input);
            let stands = player::taken(
                g,
                realm,
                Player { motion: Motion::Idle, step_loop: player::alternated(p.step_loop), ..p },
                ev,
            );
            &&& h is None ==> (q, e) == stands
            &&& h matches Some(dir) ==> {
                let (x, y) = player::ahead(p, dir);
                let door = !levitate && g.realms@[realm].warp_on(x, y) is Some && g.door_on(
                    realm,
                    x,
                    y,
                ) is Some;
                let may = player::enters(g, realm, stands.0, x, y, levitate);
                &&& door ==> q == (Player { facing: dir, ..stands.0 }) && e.door_enter is Some
                    && (e.door_enter->0).0 == x && (e.door_enter->0).1 == y
                &&& !door && may ==> {
                    &&& q.x == x && q.y == y && q.facing == dir && e == stands.1
                    &&& q.motion is Moving
                    &&& q.motion->remaining_px == single::single_of(16) as u32
                    &&& q.motion->speed == if q.avatar == Avatar::Surfing || run {
                        2int
                    } else {
                        1int
                    }
                    &&& q.current_map == stands.0.current_map && q.elevation == stands.0.elevation
                }
                &&& !door && !may ==> q == (Player { facing: dir, ..stands.0 }) && e == stands.1
            }
        }),
{
    reveal(player::stepped);
    reveal_with_fuel(single::top_bit, 6);
    reveal_with_fuel(single::two_to, 24);
    assert(single::single_of(16) == single::SIXTEEN);
}

/// A pedaled tile takes the bike one tier up, from one pixel over two to four,
/// with no momentum behind the first, one tile's behind the second, three behind
/// the rest.
pub proof fn pedaling_climbs_a_tier_per_tile(momentum: u8)
    ensures
        player::pedaled(Avatar::Bike { tier: 0, momentum }) == (Avatar::Bike {
            tier: 1,
            momentum: 0,
        }),
        player::pedaled(Avatar::Bike { tier: 1, momentum }) == (Avatar::Bike {
            tier: 2,
            momentum: 1,
        }),
        player::pedaled(Avatar::Bike { tier: 2, momentum }) == (Avatar::Bike {
            tier: 2,
            momentum: 3,
        }),
        player::pedaled(Avatar::Walking) == Avatar::Walking,
        player::pedaled(Avatar::Surfing) == Avatar::Surfing,
{
}

/// A released bike rolls on for as many tiles as it has momentum, one less with
/// each, no faster than that momentum allows, and then stops; nothing else rolls.
pub proof fn a_released_bike_rolls_out(tier: u8, momentum: u8)
    ensures
        momentum == 0 ==> player::coasted(Avatar::Bike { tier, momentum }) is None,
        momentum > 0 ==> (player::coasted(
            Avatar::Bike { tier, momentum },
        ) matches Some(Avatar::Bike { tier: t, momentum: m }) && m == momentum - 1 && (m <= 2 ==> t
            == m) && (m > 2 ==> t == 2)),
        player::coasted(Avatar::Walking) is None,
        player::coasted(Avatar::Surfing) is None,
        player::stilled(Avatar::Bike { tier, momentum }) == (Avatar::Bike { tier: 0, momentum: 0 }),
        player::stilled(Avatar::Walking) == Avatar::Walking,
        player::stilled(Avatar::Surfing) == Avatar::Surfing,
{
}

/// A bike that is pedaled goes at the speed of its tier, from a standstill and
/// from tile to tile, and has the next tier behind it.
pub proof fn a_bike_goes_at_the_speed_of_its_tier(
    g: RealmGraph,
    realm: int,
    p: Player,
    ev: StepEvents,
    input: Input,
    run: bool,
    levitate: bool,
    dir: Facing,
    tier: u8,
    momentum: u8,
)
    requires
        p.wf(),
        tier <= 2,
        p.avatar == (Avatar::Bike { tier, momentum }),
        player::held(input) == Some(dir),
        g.arrow_on(realm, p.x as int, p.y as int) is None,
        ev.warp is None,
        ev.door_enter is None,
        ({
            let (x, y) = player::ahead(p, dir);
            levitate || g.realms@[realm].warp_on(x, y) is None
        }),
        g.realms@[realm].warp_on(p.x as int, p.y as int) is None,
    ensures
        ({
            let q = player::stepped(g, realm, p, ev, input, run, levitate).0;
            let (x, y) = player::ahead(p, dir);
            let ended = p.motion matches Motion::Moving { remaining_px, speed } && single::less(
                remaining_px,
                speed as int,
            ) is None;
            let stands = player::taken(
                g,
                realm,
                Player { motion: Motion::Idle, step_loop: player::alternated(p.step_loop), ..p },
                ev,
            ).0;
            let goes = p.motion == Motion::Idle && p.facing == dir && player::enters(
                g,
                realm,
                p,
                x,
                y,
                levitate,
            ) || ended && player::enters(g, realm, stands, x, y, levitate);
            goes ==> {
                &&& q.x == x && q.y == y && q.facing == dir
                &&& q.motion is Moving
                &&& tier == 0 ==> q.motion->speed == 1 && q.avatar == (Avatar::Bike {
                    tier: 1,
                    momentum: 0,
                })
                &&& tier == 1 ==> q.motion->speed == 2 && q.avatar == (Avatar::Bike {
                    tier: 2,
                    momentum: 1,
                })
                &&& tier == 2 ==> q.motion->speed == 4 && q.avatar == (Avatar::Bike {
                    tier: 2,
                    momentum: 3,
                })
            }
        }),
{
    reveal(player::stepped);
}

/// A bike that is let go at the end of a tile rolls straight on, a tier slower,
/// while it has momentum and the tile ahead is free; without momentum it stands.
pub proof fn a_bike_rolls_the_way_it_faces(
    g: RealmGraph,
    realm: int,
    p: Player,
    ev: StepEvents,
    input: Input,
    run: bool,
    levitate: bool,
    tier: u8,
    momentum: u8,
)
    requires
        p.motion is Moving,
        p.wf(),
        p.avatar == (Avatar::Bike { tier, momentum }),
        single::less(p.motion->remaining_px, p.motion->speed as int) is None,
        ev.warp is None,
        ev.door_enter is None,
        g.realms@[realm].warp_on(p.x as int, p.y as int) is None,
        player::held(input) is None,
    ensures
        ({
            let (q, e) = player::stepped(g, realm, p, ev, input, run, levitate);
            let (x, y) = player::ahead(p, p.facing);
            let stands = player::taken(
                g,
                realm,
                Player { motion: Motion::Idle, step_loop: player::alternated(p.step_loop), ..p },
                ev,
            ).0;
            let free = (levitate || g.realms@[realm].warp_on(x, y) is None || g.door_on(
                realm,
                x,
                y,
            ) is None) && player::enters(g, realm, stands, x, y, levitate);
            &&& q.facing == p.facing
            &&& momentum == 0 ==> q.x == p.x && q.y == p.y && q.motion == Motion::Idle && q.avatar
                == (Avatar::Bike { tier: 0, momentum: 0 })
            &&& momentum > 0 && free ==> {
                &&& q.x == x && q.y == y
                &&& q.avatar is Bike && q.avatar->momentum == momentum - 1
                &&& q.motion is Moving
                &&& q.motion->speed == if momentum == 1 {
                    1int
                } else if momentum == 2 {
                    2int
                } else {
                    4int
                }
            }
            &&& momentum > 0 && !free ==> q.x == p.x && q.y == p.y
        }),
{
    reveal(player::stepped);
}

/// A move with pixels to go goes on along its tile, whatever is pressed, and
/// nothing happens.
pub proof fn a_move_goes_on_along_its_tile(
    g: RealmGraph,
    realm: int,
    p: Player,
    ev: StepEvents,
    input: Input,
    run: bool,
    levitate: bool,
    n: int,
)
    requires
        p.motion is Moving,
        1 <= p.motion->speed < n <= 16,
        p.motion->remaining_px == single::single_of(n as u32) as u32,
    ensures
        player::stepped(g, realm, p, ev, input, run, levitate) == (
            Player {
                motion: Motion::Moving {
                    remaining_px: single::single_of((n - p.motion->speed) as u32) as u32,
                    speed: p.motion->speed,
                },
                ..p
            },
            ev,
        ),
{
    reveal(player::stepped);
    single::whole_distances_subtract(n, p.motion->speed as int);
}

/// A forced step goes one whole tile the way it is forced, at a walk, and takes
/// nothing else with it.
pub proof fn a_forced_step_walks_one_tile(p: Player, dir: Facing)
    requires
        p.wf(),
    ensures
        ({
            let q = player::forced(p, dir);
            &&& (q.x as int, q.y as int) == player::ahead(p, dir)
            &&& q.facing == dir
            &&& q.motion == (Motion::Moving {
                remaining_px: single::single_of(16) as u32,
                speed: 1,
            })
            &&& q.step_loop == p.step_loop && q.avatar == p.avatar && q.elevation == p.elevation
                && q.current_map == p.current_map
        }),
{
    reveal_with_fuel(single::top_bit, 6);
    reveal_with_fuel(single::two_to, 24);
    assert(single::single_of(16) == single::SIXTEEN);
}

/// Whoever lands from a warp stands where it leads, in the map of that tile, at
/// its elevation but on a bridge, and faces and rides as before.
pub proof fn landing_puts_the_player_where_the_warp_leads(p: Player, w: Warp, r: Realm)
    ensures
        ({
            let q = player::landed(p, w, r);
            &&& q.x == w.to_x && q.y == w.to_y
            &&& q.motion == Motion::Idle
            &&& q.facing == p.facing && q.avatar == p.avatar && q.step_loop == p.step_loop
            &&& q.current_map == r.map_on(w.to_x as int, w.to_y as int)
            &&& r.cell_at(w.to_x as int, w.to_y as int) is None ==> q.elevation == p.elevation
            &&& r.cell_at(w.to_x as int, w.to_y as int) matches Some(c) ==> q.elevation
                == if c.elevation == 15 {
                p.elevation
            } else {
                c.elevation
            }
        }),
{
}

/// A foot shows for the first half of a walked tile and for the first ten pixels
/// of a faster one, and for the first half of a turn; it never shows at rest.
pub proof fn a_foot_shows_at_the_start(n: int, speed: u8, left: u8)
    requires
        1 <= n <= 16,
    ensures
        player::shows_foot(
            Motion::Moving { remaining_px: single::single_of(n as u32) as u32, speed },
        ) == if speed >= 2 {
            n > 6
        } else {
            n > 8
        },
        player::shows_foot(Motion::Turning { steps_left: left }) == (left > 4),
        !player::shows_foot(Motion::Idle),
        player::runs(
            Motion::Moving { remaining_px: single::single_of(n as u32) as u32, speed },
        ) == (speed >= 2),
        !player::runs(Motion::Turning { steps_left: left }),
        !player::runs(Motion::Idle),
{
    reveal_with_fuel(single::top_bit, 6);
    reveal_with_fuel(single::two_to, 24);
    assert(single::two_to(23) == 0x80_0000 && single::two_to(22) == 0x40_0000 && single::two_to(21)
        == 0x20_0000 && single::two_to(20) == 0x10_0000 && single::two_to(19) == 0x8_0000);
    assert(n == 1 || n == 2 || n == 3 || n == 4 || n == 5 || n == 6 || n == 7 || n == 8 || n == 9
        || n == 10 || n == 11 || n == 12 || n == 13 || n == 14 || n == 15 || n == 16);
    if n == 1 {
    } else if n == 2 {
    } else if n == 3 {
    } else if n == 4 {
    } else if n == 5 {
    } else if n == 6 {
    } else if n == 7 {
    } else if n == 8 {
    } else if n == 9 {
    } else if n == 10 {
    } else if n == 11 {
    } else if n == 12 {
    } else if n == 13 {
    } else if n == 14 {
    } else if n == 15 {
    } else {
    }
}

} // verus!
