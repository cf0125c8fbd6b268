//! What holds of the world as a whole.

use vstd::prelude::*;
use crate::game::data::{LayoutData, MapData, RealmData};
use crate::game::map::{Cell, Realm, RealmGraph, Warp};
use crate::game::player;
use crate::game::player::{Avatar, Facing, Motion, Player, StepEvents, TURN_STEPS};
use crate::game::state;
use crate::game::state::{State, Transition, DOOR_T, FADE_T};
use crate::game::world;
use crate::game::world::Turn;
use crate::single;
use crate::types::Input;

verus! {

// ---- the grid ------------------------------------------------------------

/// Whether a map lies in a row of tiles of its realm.
pub open spec fn lies_in(m: MapData, l: LayoutData, rd: RealmData) -> bool {
    0 <= m.x && m.x + l.width <= rd.width && 0 <= m.y
}

/// Whether a tile lies in a map.
pub open spec fn in_map(m: MapData, l: LayoutData, x: int, y: int) -> bool {
    m.x <= x < m.x + l.width && m.y <= y < m.y + l.height
}

/// The place of a tile in the blocks of its map.
pub open spec fn block_place(m: MapData, l: LayoutData, x: int, y: int) -> int {
    (y - m.y) * l.width + (x - m.x)
}

/// What the last of the first `n` maps that own a tile puts there.
pub open spec fn owned(
    rd: RealmData,
    layouts: Seq<LayoutData>,
    n: int,
    x: int,
    y: int,
) -> Option<Cell>
    decreases n,
{
    if n <= 0 {
        None
    } else {
        let m = rd.maps@[n - 1];
        let l = layouts[m.layout as int];
        if in_map(m, l, x, y) {
            Some(crate::game::map::cell_of(l.blockdata@[block_place(m, l, x, y)], l.pair))
        } else {
            owned(rd, layouts, n - 1, x, y)
        }
    }
}

proof fn lemma_stamped_at(
    cells: Seq<Option<Cell>>,
    m: MapData,
    l: LayoutData,
    rd: RealmData,
    n: int,
    x: int,
    y: int,
)
    requires
        lies_in(m, l, rd),
        0 <= n <= crate::game::map::area(l),
        0 <= x < rd.width,
        0 <= y < rd.height,
        cells.len() == rd.width * rd.height,
        forall|k: int|
            0 <= k < crate::game::map::area(l) ==> 0 <= #[trigger] crate::game::map::grid_place(
                m,
                l,
                rd.width as int,
                k,
            ) < cells.len(),
    ensures
        crate::game::map::stamped(cells, m, l, rd.width as int, n).len() == cells.len(),
        crate::game::map::stamped(cells, m, l, rd.width as int, n)[y * rd.width + x] == if in_map(
            m,
            l,
            x,
            y,
        ) && block_place(m, l, x, y) < n {
            Some(crate::game::map::cell_of(l.blockdata@[block_place(m, l, x, y)], l.pair))
        } else {
            cells[y * rd.width + x]
        },
    decreases n,
{
    crate::game::map::lemma_place(x, y, rd.width as int, rd.height as int);
    if in_map(m, l, x, y) {
        crate::game::map::lemma_place(x - m.x, y - m.y, l.width as int, l.height as int);
        crate::game::map::lemma_row(y - m.y, x - m.x, l.width as int);
    }
    if n > 0 {
        lemma_stamped_at(cells, m, l, rd, n - 1, x, y);
        let k = n - 1;
        let w = l.width as int;
        let at = crate::game::map::grid_place(m, l, rd.width as int, k);
        assert(w > 0) by (nonlinear_arith)
            requires
                0 < l.width * l.height,
                w == l.width,
                0 <= l.height,
        ;
        let (row, col) = (m.y + k / w, m.x + k % w);
        vstd::arithmetic::div_mod::lemma_fundamental_div_mod(k, w);
        assert(0 <= k % w < w);
        assert(at == row * rd.width + col);
        crate::game::map::lemma_row(row, col, rd.width as int);
        crate::game::map::lemma_row(y, x, rd.width as int);
        if at == y * rd.width + x {
            assert(row == y && col == x);
            assert(k / w < l.height) by (nonlinear_arith)
                requires
                    k < w * l.height,
                    w > 0,
                    k >= 0,
            ;
            assert(0 <= k / w) by (nonlinear_arith)
                requires
                    k >= 0,
                    w > 0,
            ;
            assert((y - m.y) * w == w * (k / w)) by (nonlinear_arith)
                requires
                    y - m.y == k / w,
            ;
            assert(block_place(m, l, x, y) == k);
        } else if in_map(m, l, x, y) && block_place(m, l, x, y) == k {
            assert(k / w == y - m.y && k % w == x - m.x);
        }
    }
}

/// A tile of an expanded realm holds the block that the last map which owns
/// it puts there, and nothing where no map owns it.
pub proof fn a_tile_holds_its_last_maps_block(
    r: Realm,
    rd: RealmData,
    layouts: Seq<LayoutData>,
    x: int,
    y: int,
)
    requires
        crate::game::map::coherent_realm(rd, layouts),
        crate::game::map::expands(r, rd, layouts),
        forall|i: int|
            0 <= i < rd.maps@.len() ==> lies_in(
                #[trigger] rd.maps@[i],
                layouts[rd.maps@[i].layout as int],
                rd,
            ),
        r.inside(x, y),
    ensures
        r.cell_at(x, y) == owned(rd, layouts, rd.maps@.len() as int, x, y),
{
    lemma_stitched_at(rd, layouts, rd.maps@.len() as int, x, y);
}

proof fn lemma_stitched_at(rd: RealmData, layouts: Seq<LayoutData>, n: int, x: int, y: int)
    requires
        crate::game::map::coherent_realm(rd, layouts),
        0 <= n <= rd.maps@.len(),
        forall|i: int|
            0 <= i < rd.maps@.len() ==> lies_in(
                #[trigger] rd.maps@[i],
                layouts[rd.maps@[i].layout as int],
                rd,
            ),
        0 <= x < rd.width,
        0 <= y < rd.height,
    ensures
        crate::game::map::stitched(rd, layouts, n).len() == rd.width * rd.height,
        crate::game::map::stitched(rd, layouts, n)[y * rd.width + x] == owned(
            rd,
            layouts,
            n,
            x,
            y,
        ),
    decreases n,
{
    crate::game::map::lemma_place(x, y, rd.width as int, rd.height as int);
    if n > 0 {
        lemma_stitched_at(rd, layouts, n - 1, x, y);
        let m = rd.maps@[n - 1];
        let l = layouts[m.layout as int];
        assert(crate::game::map::placed(m, layouts, rd.width as int, rd.width * rd.height));
        assert(lies_in(m, l, rd));
        assert(crate::game::map::area(l) >= 0) by (nonlinear_arith)
            requires
                crate::game::map::area(l) == l.width * l.height,
        ;
        lemma_stamped_at(
            crate::game::map::stitched(rd, layouts, n - 1),
            m,
            l,
            rd,
            crate::game::map::area(l),
            x,
            y,
        );
        if in_map(m, l, x, y) {
            crate::game::map::lemma_place(x - m.x, y - m.y, l.width as int, l.height as int);
        }
    }
}

// ---- the player ----------------------------------------------------------

/// A player after `k` steps under one input.
pub open spec fn after_steps(
    g: RealmGraph,
    realm: int,
    p: Player,
    input: Input,
    run: bool,
    levitate: bool,
    k: int,
) -> Player
    decreases k,
{
    if k <= 0 {
        p
    } else {
        player::stepped(
            g,
            realm,
            after_steps(g, realm, p, input, run, levitate, k - 1),
            player::no_events(),
            input,
            run,
            levitate,
        ).0
    }
}

/// Turning takes eight steps, whatever is pressed, and does not move.
pub proof fn a_turn_takes_eight_steps(
    g: RealmGraph,
    realm: int,
    p: Player,
    input: Input,
    run: bool,
    levitate: bool,
    k: int,
)
    requires
        p.motion == (Motion::Turning { steps_left: TURN_STEPS }),
        0 <= k <= 8,
    ensures
        after_steps(g, realm, p, input, run, levitate, k) == if k < 8 {
            Player { motion: Motion::Turning { steps_left: (8 - k) as u8 }, ..p }
        } else {
            Player { motion: Motion::Idle, step_loop: player::alternated(p.step_loop), ..p }
        },
    decreases k,
{
    reveal(player::stepped);
    if k > 0 {
        a_turn_takes_eight_steps(g, realm, p, input, run, levitate, k - 1);
    }
}

/// A move with `n` whole pixels to go takes `n` over its speed steps, whatever
/// is pressed: before the last of them the player keeps its tile, and the last
/// one ends the move.
pub proof fn a_move_takes_its_pixels_over_its_speed(
    g: RealmGraph,
    realm: int,
    p: Player,
    input: Input,
    run: bool,
    levitate: bool,
    n: int,
    speed: u8,
    k: int,
)
    requires
        1 <= n <= 16,
        1 <= speed,
        p.motion == (Motion::Moving {
            remaining_px: single::single_of(n as u32) as u32,
            speed,
        }),
        0 <= k,
        k * speed < n,
    ensures
        after_steps(g, realm, p, input, run, levitate, k) == (Player {
            motion: Motion::Moving {
                remaining_px: single::single_of((n - k * speed) as u32) as u32,
                speed,
            },
            ..p
        }),
        (k + 1) * speed >= n ==> single::less(
            single::single_of((n - k * speed) as u32) as u32,
            speed as int,
        ) is None,
    decreases k,
{
    reveal(player::stepped);
    assert((k + 1) * speed == k * speed + speed) by (nonlinear_arith);
    assert(0 <= k * speed) by (nonlinear_arith)
        requires
            0 <= k,
            0 <= speed,
    ;
    single::whole_distances_subtract(n - k * speed, speed as int);
    if k > 0 {
        assert((k - 1) * speed == k * speed - speed) by (nonlinear_arith);
        a_move_takes_its_pixels_over_its_speed(
            g,
            realm,
            p,
            input,
            run,
            levitate,
            n,
            speed,
            k - 1,
        );
        assert(0 <= (k - 1) * speed) by (nonlinear_arith)
            requires
                0 <= k - 1,
                0 <= speed,
        ;
        single::whole_distances_subtract(n - (k - 1) * speed, speed as int);
    } else {
        assert(0 * speed == 0);
    }
}

/// A step leaves the player on its tile or takes it to a neighbouring one that
/// lies in the realm, is not solid, and is water only for a surfer; levitating,
/// only the edge of the realm stops.
pub proof fn a_player_goes_only_where_it_may(
    g: RealmGraph,
    realm: int,
    p: Player,
    ev: StepEvents,
    input: Input,
    run: bool,
    levitate: bool,
)
    requires
        g.wf(),
        0 <= realm < g.realms@.len(),
        p.wf(),
    ensures
        ({
            let q = player::stepped(g, realm, p, ev, input, run, levitate).0;
            let r = g.realms@[realm];
            ||| (q.x == p.x && q.y == p.y)
            ||| {
                &&& (q.x as int, q.y as int) == player::ahead(p, q.facing)
                &&& r.inside(q.x as int, q.y as int)
                &&& !levitate ==> (r.cell_at(q.x as int, q.y as int) matches Some(c)
                    ==> c.collision == 0 && (g.is_surfable(c) ==> q.avatar == Avatar::Surfing))
            }
        }),
{
    reveal(player::stepped);
}

/// Nothing pressed, a standing player stays as it is.
pub proof fn a_standing_player_waits(
    g: RealmGraph,
    realm: int,
    p: Player,
    ev: StepEvents,
    input: Input,
    run: bool,
    levitate: bool,
)
    requires
        p.motion == Motion::Idle,
        player::held(input) is None,
    ensures
        player::stepped(g, realm, p, ev, input, run, levitate) == (p, ev),
{
    reveal(player::stepped);
}

/// Stairs and bridges never block: on such a tile the elevation of the player
/// does not matter. And from stairs, where it is 0, a player may go wherever
/// it may go at some elevation.
pub proof fn stairs_and_bridges_never_block(
    g: RealmGraph,
    realm: int,
    p: Player,
    elevation: u8,
    x: int,
    y: int,
    levitate: bool,
)
    ensures
        (g.realms@[realm].cell_at(x, y) matches Some(c) ==> c.elevation == 0 || c.elevation == 15)
            ==> player::enters(g, realm, p, x, y, levitate) == player::enters(
            g,
            realm,
            Player { elevation, ..p },
            x,
            y,
            levitate,
        ),
        player::enters(g, realm, p, x, y, levitate) ==> player::enters(
            g,
            realm,
            Player { elevation: 0, ..p },
            x,
            y,
            levitate,
        ),
{
}

/// Whoever finishes a step takes the elevation of the tile, stairs giving 0,
/// except on a bridge, which leaves it alone.
pub proof fn a_bridge_leaves_the_elevation(g: RealmGraph, realm: int, p: Player, ev: StepEvents)
    ensures
        g.realms@[realm].cell_at(p.x as int, p.y as int) matches Some(c) ==> player::taken(
            g,
            realm,
            p,
            ev,
        ).0.elevation == if c.elevation == 15 {
            p.elevation
        } else {
            c.elevation
        },
{
}

/// A player in motion never turns in place.
pub proof fn turning_starts_from_a_standstill(
    g: RealmGraph,
    realm: int,
    p: Player,
    ev: StepEvents,
    input: Input,
    run: bool,
    levitate: bool,
)
    requires
        p.motion is Moving,
    ensures
        !(player::stepped(g, realm, p, ev, input, run, levitate).0.motion is Turning),
{
    reveal(player::stepped);
}

/// A surfer that goes ashore is on foot; on the water it stays on its blob.
pub proof fn a_surfer_ashore_walks(
    g: RealmGraph,
    realm: int,
    p: Player,
    ev: StepEvents,
    input: Input,
    run: bool,
    levitate: bool,
)
    requires
        g.wf(),
        0 <= realm < g.realms@.len(),
        p.wf(),
        p.avatar == Avatar::Surfing,
    ensures
        ({
            let q = player::stepped(g, realm, p, ev, input, run, levitate).0;
            (q.x, q.y) != (p.x, p.y) ==> q.avatar == if g.surfable_on(
                realm,
                q.x as int,
                q.y as int,
            ) {
                Avatar::Surfing
            } else {
                Avatar::Walking
            }
        }),
{
    reveal(player::stepped);
}

/// A warp that fires is that of the player's tile. On an arrow-warp tile it
/// fires only when its direction is pressed, or rolled in on a bike that nobody
/// steers.
pub proof fn an_arrow_warp_wants_its_direction(
    g: RealmGraph,
    realm: int,
    p: Player,
    ev: StepEvents,
    input: Input,
    run: bool,
    levitate: bool,
)
    requires
        g.wf(),
        0 <= realm < g.realms@.len(),
        p.wf(),
        ev.warp is None,
    ensures
        ({
            let (q, e) = player::stepped(g, realm, p, ev, input, run, levitate);
            e.warp is Some ==> {
                &&& e.warp == g.realms@[realm].warp_on(q.x as int, q.y as int)
                &&& g.arrow_on(realm, q.x as int, q.y as int) matches Some(d) ==> {
                    ||| player::held(input) == Some(player::arrow_facing(d))
                    ||| {
                        &&& player::held(input) is None
                        &&& p.avatar is Bike
                        &&& p.facing == player::arrow_facing(d)
                    }
                }
            }
        }),
{
    reveal(player::stepped);
}

// ---- play ----------------------------------------------------------------

/// What holds all through play in a world whose warps lead somewhere.
pub open spec fn on_course(g: RealmGraph, s: State) -> bool {
    &&& s.wf()
    &&& s.realm < g.realms@.len()
    &&& crate::game::map::has_neighbours(s.player.x)
    &&& crate::game::map::has_neighbours(s.player.y)
    &&& match s.transition {
        Some(Transition::DoorOpen { .. }) => g.realms@[s.realm as int].inside(
            player::ahead(s.player, s.player.facing).0,
            player::ahead(s.player, s.player.facing).1,
        ),
        Some(Transition::FadeOut { warp, .. }) => crate::game::map::leads_somewhere(
            warp,
            g.realms@.len() as int,
        ),
        _ => true,
    }
}

proof fn lemma_first_warp(r: Realm, x: int, y: int, from: int) -> (k: int)
    requires
        0 <= from,
        r.first_warp(x, y, from) is Some,
    ensures
        from <= k < r.warps@.len(),
        r.warps@[k] == r.first_warp(x, y, from)->0,
    decreases r.warps@.len() - from,
{
    if r.warps@[from].x == x && r.warps@[from].y == y {
        from
    } else {
        lemma_first_warp(r, x, y, from + 1)
    }
}

proof fn lemma_warp_leads(g: RealmGraph, realm: int, x: int, y: int)
    requires
        g.navigable(),
        0 <= realm < g.realms@.len(),
        g.realms@[realm].warp_on(x, y) is Some,
    ensures
        crate::game::map::leads_somewhere(
            g.realms@[realm].warp_on(x, y)->0,
            g.realms@.len() as int,
        ),
{
    let k = lemma_first_warp(g.realms@[realm], x, y, 0);
    assert(crate::game::map::leads_somewhere(
        g.realms@[realm].warps@[k],
        g.realms@.len() as int,
    ));
}

/// What a step of a player leads to.
proof fn lemma_step_course(
    g: RealmGraph,
    realm: int,
    p: Player,
    ev: StepEvents,
    input: Input,
    run: bool,
    levitate: bool,
)
    requires
        g.wf(),
        g.navigable(),
        0 <= realm < g.realms@.len(),
        p.wf(),
        state::saveable(p),
        ev.warp is None,
        ev.door_enter is None,
    ensures
        ({
            let (q, e) = player::stepped(g, realm, p, ev, input, run, levitate);
            &&& q.wf()
            &&& state::saveable(q)
            &&& e.warp matches Some(w) ==> crate::game::map::leads_somewhere(
                w,
                g.realms@.len() as int,
            )
            &&& e.door_enter matches Some(xy) ==> (xy.0 as int, xy.1 as int) == player::ahead(
                q,
                q.facing,
            ) && g.realms@[realm].inside(xy.0 as int, xy.1 as int) && e.warp is None
        }),
{
    reveal(player::stepped);
    let r = g.realms@[realm];
    crate::game::map::lemma_elevations(r);
    if r.warp_on(p.x as int, p.y as int) is Some {
        lemma_warp_leads(g, realm, p.x as int, p.y as int);
    }
    assert forall|n: int| 1 <= n <= 16 implies single::is_distance(
        #[trigger] single::single_of(n as u32) as u32,
    ) by {
        single::lemma_whole(n);
    }
    if let Motion::Moving { remaining_px, speed } = p.motion {
        single::lemma_less(remaining_px, speed as int);
    }
}

/// In a world whose warps lead somewhere, play never comes to a stop: a step
/// can always be taken, and what makes that so still holds after it.
pub proof fn play_goes_on(g: RealmGraph, s: State, snapshot: Option<Seq<u8>>, input: Input)
    requires
        g.wf(),
        g.navigable(),
        on_course(g, s),
    ensures
        world::steady(g, s, input),
        on_course(g, world::turn_of(g, s, snapshot, input).curr),
{
    lemma_acted_course(g, s, input);
    reveal(world::warped);
    let t = world::turn_of(g, s, snapshot, input);
    if s.menu is Some {
        lemma_menu_course(g, s, snapshot, input);
    } else if s.transition is Some {
        lemma_passage_course(g, world::ticked(s, input));
    } else if !world::pressed(input.start, s.prev_input.start) {
        let (q, e) = world::acted(g, s, input);
        if let Some(w) = e.warp {
            crate::game::map::lemma_elevations(g.realms@[w.to_realm as int]);
        }
        assert(on_course(g, t.curr));
    }
}

proof fn lemma_acted_course(g: RealmGraph, s: State, input: Input)
    requires
        g.wf(),
        g.navigable(),
        on_course(g, s),
    ensures
        ({
            let (q, e) = world::acted(g, s, input);
            &&& q.wf()
            &&& state::saveable(q)
            &&& e.warp matches Some(w) ==> crate::game::map::leads_somewhere(
                w,
                g.realms@.len() as int,
            )
            &&& e.door_enter matches Some(xy) ==> (xy.0 as int, xy.1 as int) == player::ahead(
                q,
                q.facing,
            ) && g.realms@[s.realm as int].inside(xy.0 as int, xy.1 as int) && e.warp is None
        }),
{
    reveal(world::acted);
    let (p, ev) = world::prepared(g, s, input);
    crate::game::map::lemma_elevations(g.realms@[s.realm as int]);
    lemma_step_course(g, s.realm as int, p, ev, input, input.b, s.levitate);
}

proof fn lemma_menu_course(g: RealmGraph, s: State, snapshot: Option<Seq<u8>>, input: Input)
    requires
        g.wf(),
        on_course(g, s),
        s.menu is Some,
    ensures
        on_course(g, world::turn_of(g, s, snapshot, input).curr),
{
    if let Some(b) = snapshot {
        if let Some(l) = world::admitted(g, b) {
            state::lemma_loaded(b);
        }
    }
}

proof fn lemma_passage_course(g: RealmGraph, s: State)
    requires
        g.wf(),
        g.navigable(),
        on_course(g, s),
        s.transition is Some,
    ensures
        on_course(g, world::passage(g, s, s.transition->0).state),
{
    reveal(world::unsteered);
    reveal(world::warped);
    lemma_step_course(
        g,
        s.realm as int,
        s.player,
        player::no_events(),
        crate::types::no_input(),
        false,
        false,
    );
    match s.transition->0 {
        Transition::DoorOpen { x, y, t } => {},
        Transition::DoorWait { x, y } => {},
        Transition::FadeOut { warp, t, door } => {
            crate::game::map::lemma_elevations(g.realms@[warp.to_realm as int]);
        },
        Transition::FadeIn { t, door } => {},
        Transition::ExitWalk { door_xy } => {},
        Transition::DoorClose { x, y, t } => {},
    }
}

/// The open menu freezes the overworld: unless a save is loaded, the player
/// and the realm stay as they are.
pub proof fn the_menu_freezes_the_overworld(
    g: RealmGraph,
    s: State,
    snapshot: Option<Seq<u8>>,
    input: Input,
)
    requires
        s.menu is Some,
    ensures
        ({
            let t = world::turn_of(g, s, snapshot, input);
            ||| (t.curr.player == s.player && t.curr.realm == s.realm && t.curr.transition
                == s.transition)
            ||| (s.menu == Some(3u8) && snapshot is Some && world::admitted(g, snapshot->0) == Some(
                t.curr,
            ))
        }),
{
}

/// The choreography ignores input.
pub proof fn a_transition_ignores_input(
    g: RealmGraph,
    s: State,
    snapshot: Option<Seq<u8>>,
    one: Input,
    other: Input,
)
    requires
        s.menu is None,
        s.transition is Some,
    ensures
        ({
            let t = world::turn_of(g, s, snapshot, one);
            let u = world::turn_of(g, s, snapshot, other);
            &&& t.curr == (State { prev_input: one, ..u.curr })
            &&& t.events == u.events
            &&& t.aim == u.aim
            &&& t.snapshot == u.snapshot
        }),
{
    reveal(world::unsteered);
    reveal(world::warped);
    let (a, b) = (world::ticked(s, one), world::ticked(s, other));
    assert(a == (State { prev_input: one, ..b }));
    assert(world::unsteered(g, a) == world::unsteered(g, b));
    match s.transition->0 {
        Transition::DoorOpen { x, y, t } => {},
        Transition::DoorWait { x, y } => {},
        Transition::FadeOut { warp, t, door } => {},
        Transition::FadeIn { t, door } => {},
        Transition::ExitWalk { door_xy } => {},
        Transition::DoorClose { x, y, t } => {},
    }
}

/// Levitating, warps are instant: no choreography starts, no door is entered,
/// and a step that fires a warp ends where the warp leads, the player standing.
pub proof fn levitation_warps_at_once(
    g: RealmGraph,
    s: State,
    snapshot: Option<Seq<u8>>,
    input: Input,
)
    requires
        s.levitate,
        s.menu is None,
        s.transition is None,
    ensures
        ({
            let t = world::turn_of(g, s, snapshot, input);
            &&& t.curr.transition is None
            &&& t.events.door_enter is None
            &&& t.events.warp matches Some(w) ==> t.curr.realm == w.to_realm && t.curr.player.x
                == w.to_x && t.curr.player.y == w.to_y && t.curr.player.motion is Idle && t.prev
                == t.curr
        }),
{
    reveal(world::acted);
    reveal(world::warped);
    reveal(player::stepped);
}

/// A step that switches the realm is never interpolated.
pub proof fn a_realm_switch_is_never_interpolated(
    g: RealmGraph,
    s: State,
    snapshot: Option<Seq<u8>>,
    input: Input,
)
    ensures
        ({
            let t = world::turn_of(g, s, snapshot, input);
            t.curr.realm != s.realm ==> t.prev == t.curr
        }),
{
    reveal(world::warped);
}

/// Whether a step of the open menu loads the save slot.
pub open spec fn loads(g: RealmGraph, s: State, snapshot: Option<Seq<u8>>, input: Input) -> bool {
    let was = s.prev_input;
    &&& s.menu == Some(3u8)
    &&& world::pressed(input.a, was.a)
    &&& !world::pressed(input.b, was.b)
    &&& !world::pressed(input.start, was.start)
    &&& snapshot matches Some(b) && world::admitted(g, b) is Some
}

/// A step that fires no warp, crosses none and loads no save leaves the state
/// before it to interpolate from. Any other step leaves nothing to interpolate
/// from.
pub proof fn a_step_keeps_the_state_before_it(
    g: RealmGraph,
    s: State,
    snapshot: Option<Seq<u8>>,
    input: Input,
)
    ensures
        ({
            let t = world::turn_of(g, s, snapshot, input);
            if t.events.warp is None && world::crossing(g, s, input) is None && !loads(
                g,
                s,
                snapshot,
                input,
            ) {
                t.prev == s
            } else {
                t.prev == t.curr
            }
        }),
{
}

/// A state of play saved inside its realm is admitted again: the same realm,
/// player, camera and levitation, with nothing lost but the menu, the frame
/// counter, a transition and the last input.
pub proof fn a_saved_world_resumes(g: RealmGraph, s: State)
    requires
        s.wf(),
        s.realm < g.realms@.len(),
        g.realms@[s.realm as int].inside(s.player.x as int, s.player.y as int),
    ensures
        world::admitted(g, state::saved(s)) == Some(
            State {
                menu: None,
                ticks: 0,
                transition: None,
                prev_input: crate::types::no_input(),
                ..s
            },
        ),
{
    state::a_save_reads_back(s);
}

/// A state and its save slot after a run of inputs.
pub open spec fn played(
    g: RealmGraph,
    s: State,
    snapshot: Option<Seq<u8>>,
    inputs: Seq<Input>,
) -> (State, Option<Seq<u8>>)
    decreases inputs.len(),
{
    if inputs.len() == 0 {
        (s, snapshot)
    } else {
        let (before, slot) = played(g, s, snapshot, inputs.drop_last());
        let t = world::turn_of(g, before, slot, inputs.last());
        (t.curr, t.snapshot)
    }
}

/// Two states that differ in their frame counters alone.
pub open spec fn alike(a: State, b: State) -> bool {
    &&& a.realm == b.realm
    &&& a.player == b.player
    &&& a.cam == b.cam
    &&& a.levitate == b.levitate
    &&& a.menu == b.menu
    &&& a.transition == b.transition
    &&& a.prev_input == b.prev_input
}

/// Whether an input goes on holding a button that acts when it is pressed.
pub open spec fn holds_on(input: Input, was: Input) -> bool {
    ||| (input.start && was.start)
    ||| (input.select && was.select)
    ||| (input.a && was.a)
}

proof fn lemma_passage_alike(g: RealmGraph, a: State, b: State, tr: Transition)
    requires
        alike(a, b),
    ensures
        alike(world::passage(g, a, tr).state, world::passage(g, b, tr).state),
        world::passage(g, a, tr).events == world::passage(g, b, tr).events,
        world::passage(g, a, tr).aim == world::passage(g, b, tr).aim,
{
    assert(world::unsteered(g, a) == world::unsteered(g, b)) by {
        reveal(world::unsteered);
    }
    match tr {
        Transition::DoorOpen { x, y, t } => {},
        Transition::DoorWait { x, y } => {},
        Transition::FadeOut { warp, t, door } => {
            reveal(world::warped);
        },
        Transition::FadeIn { t, door } => {},
        Transition::ExitWalk { door_xy } => {},
        Transition::DoorClose { x, y, t } => {},
    }
}

proof fn lemma_alike(
    g: RealmGraph,
    s: State,
    r: State,
    snapshot: Option<Seq<u8>>,
    input: Input,
)
    requires
        ({
            ||| alike(s, r)
            ||| {
                &&& alike(s, State { prev_input: s.prev_input, ..r })
                &&& r.prev_input == crate::types::no_input()
                &&& !holds_on(input, s.prev_input)
                &&& s.menu is None
                &&& s.transition is None
            }
        }),
    ensures
        ({
            let t = world::turn_of(g, s, snapshot, input);
            let u = world::turn_of(g, r, snapshot, input);
            &&& alike(t.curr, u.curr)
            &&& t.snapshot == u.snapshot
            &&& t.events == u.events
            &&& t.aim == u.aim
        }),
{
    let (a, b) = (world::ticked(s, input), world::ticked(r, input));
    if s.menu is Some {
        assert(state::saved(a) =~= state::saved(b));
    } else if let Some(tr) = s.transition {
        lemma_passage_alike(g, a, b, tr);
    } else if !world::pressed(input.start, s.prev_input.start) {
        assert(world::acted(g, s, input) == world::acted(g, r, input)) by {
            reveal(world::acted);
        }
        let (p, ev) = world::acted(g, s, input);
        if let Some(w) = ev.warp {
            reveal(world::warped);
        }
    }
}

proof fn lemma_played_alike(
    g: RealmGraph,
    s: State,
    r: State,
    snapshot: Option<Seq<u8>>,
    inputs: Seq<Input>,
)
    requires
        inputs.len() > 0,
        !holds_on(inputs[0], s.prev_input),
        s.menu is None,
        s.transition is None,
        alike(s, State { prev_input: s.prev_input, ..r }),
        r.prev_input == crate::types::no_input(),
    ensures
        alike(played(g, s, snapshot, inputs).0, played(g, r, snapshot, inputs).0),
        played(g, s, snapshot, inputs).1 == played(g, r, snapshot, inputs).1,
    decreases inputs.len(),
{
    let earlier = inputs.drop_last();
    let (before, slot) = played(g, s, snapshot, earlier);
    let (other, same) = played(g, r, snapshot, earlier);
    if earlier.len() > 0 {
        assert(earlier[0] == inputs[0]);
        lemma_played_alike(g, s, r, snapshot, earlier);
    } else {
        assert(before == s && other == r && slot == snapshot && same == snapshot);
    }
    lemma_alike(g, before, other, slot, inputs.last());
}

/// A restored world goes on as the saved one would have: from a state of free
/// play, the same inputs lead to the same states, in all but the frame counter,
/// as long as no button that acts when pressed was held through the save.
pub proof fn a_restored_world_goes_on_alike(
    g: RealmGraph,
    s: State,
    snapshot: Option<Seq<u8>>,
    inputs: Seq<Input>,
)
    requires
        s.wf(),
        s.realm < g.realms@.len(),
        g.realms@[s.realm as int].inside(s.player.x as int, s.player.y as int),
        s.menu is None,
        s.transition is None,
        inputs.len() > 0,
        !holds_on(inputs[0], s.prev_input),
    ensures
        ({
            let r = world::admitted(g, state::saved(s));
            &&& r is Some
            &&& alike(played(g, s, snapshot, inputs).0, played(g, r->0, snapshot, inputs).0)
            &&& played(g, s, snapshot, inputs).1 == played(g, r->0, snapshot, inputs).1
        }),
{
    a_saved_world_resumes(g, s);
    lemma_played_alike(g, s, world::admitted(g, state::saved(s))->0, snapshot, inputs);
}

/// A state after a run of inputs.
pub open spec fn after_inputs(g: RealmGraph, s: State, inputs: Seq<Input>) -> State
    decreases inputs.len(),
{
    if inputs.len() == 0 {
        s
    } else {
        world::turn_of(g, after_inputs(g, s, inputs.drop_last()), None, inputs.last()).curr
    }
}

/// A fade out takes twelve steps. Until the last the player stays where it is;
/// the last switches the realm and puts the player where the warp leads, and is
/// the only one that leaves nothing to interpolate from.
pub proof fn a_fade_out_takes_twelve_steps(
    g: RealmGraph,
    s: State,
    inputs: Seq<Input>,
    w: Warp,
    door: bool,
)
    requires
        s.menu is None,
        s.transition == Some(Transition::FadeOut { warp: w, t: 0, door }),
        inputs.len() <= 12,
    ensures
        ({
            let e = after_inputs(g, s, inputs);
            &&& e.menu is None
            &&& inputs.len() < 12 ==> e.transition == Some(
                Transition::FadeOut { warp: w, t: inputs.len() as u8, door },
            ) && e.realm == s.realm && e.player == s.player
            &&& inputs.len() == 12 ==> e.transition == Some(Transition::FadeIn { t: 0, door })
                && e.realm == w.to_realm && e.player == player::landed(
                s.player,
                w,
                g.realms@[w.to_realm as int],
            )
            &&& inputs.len() > 0 ==> {
                let before = after_inputs(g, s, inputs.drop_last());
                world::turn_of(g, before, None, inputs.last()).prev == if inputs.len() == 12 {
                    e
                } else {
                    before
                }
            }
        }),
    decreases inputs.len(),
{
    reveal(world::warped);
    if inputs.len() > 0 {
        a_fade_out_takes_twelve_steps(g, s, inputs.drop_last(), w, door);
    }
}

/// A door takes sixteen steps to open. Until the last the player stands before
/// it; the last sets the player walking the way it faces.
pub proof fn a_door_takes_sixteen_steps_to_open(
    g: RealmGraph,
    s: State,
    inputs: Seq<Input>,
    x: i32,
    y: i32,
)
    requires
        s.menu is None,
        s.transition == Some(Transition::DoorOpen { x, y, t: 0 }),
        inputs.len() <= 16,
    ensures
        ({
            let e = after_inputs(g, s, inputs);
            &&& e.menu is None
            &&& e.realm == s.realm
            &&& inputs.len() < 16 ==> e.transition == Some(
                Transition::DoorOpen { x, y, t: inputs.len() as u8 },
            ) && e.player == s.player
            &&& inputs.len() == 16 ==> e.transition == Some(Transition::DoorWait { x, y })
                && e.player == player::forced(s.player, s.player.facing)
        }),
    decreases inputs.len(),
{
    if inputs.len() > 0 {
        a_door_takes_sixteen_steps_to_open(g, s, inputs.drop_last(), x, y);
    }
}

/// A fade in takes twelve steps. The last lets the player go, or sets it
/// walking down off the animated door that it stands on, with the door's
/// sound; no other step sounds.
pub proof fn a_fade_in_takes_twelve_steps(
    g: RealmGraph,
    s: State,
    inputs: Seq<Input>,
    door: bool,
)
    requires
        s.menu is None,
        s.transition == Some(Transition::FadeIn { t: 0, door }),
        inputs.len() <= 12,
    ensures
        ({
            let e = after_inputs(g, s, inputs);
            let on_door = g.door_on(s.realm as int, s.player.x as int, s.player.y as int) is Some;
            &&& e.menu is None
            &&& e.realm == s.realm
            &&& inputs.len() < 12 ==> e.transition == Some(
                Transition::FadeIn { t: inputs.len() as u8, door },
            ) && e.player == s.player
            &&& inputs.len() == 12 && on_door ==> e.transition == Some(
                Transition::ExitWalk { door_xy: Some((s.player.x, s.player.y)) },
            ) && e.player == player::forced(s.player, Facing::Down)
            &&& inputs.len() == 12 && !on_door ==> e.transition is None && e.player == s.player
            &&& inputs.len() > 0 ==> world::turn_of(
                g,
                after_inputs(g, s, inputs.drop_last()),
                None,
                inputs.last(),
            ).events == (StepEvents {
                sfx: if inputs.len() == 12 && on_door {
                    Some("se_door")
                } else {
                    None
                },
                ..player::no_events()
            })
        }),
    decreases inputs.len(),
{
    if inputs.len() > 0 {
        a_fade_in_takes_twelve_steps(g, s, inputs.drop_last(), door);
    }
}

/// A door takes sixteen steps to close. The player stays where it is, and the
/// last step lets it go.
pub proof fn a_door_takes_sixteen_steps_to_close(
    g: RealmGraph,
    s: State,
    inputs: Seq<Input>,
    x: i32,
    y: i32,
)
    requires
        s.menu is None,
        s.transition == Some(Transition::DoorClose { x, y, t: 0 }),
        inputs.len() <= 16,
    ensures
        ({
            let e = after_inputs(g, s, inputs);
            &&& e.menu is None
            &&& e.realm == s.realm
            &&& e.player == s.player
            &&& inputs.len() < 16 ==> e.transition == Some(
                Transition::DoorClose { x, y, t: inputs.len() as u8 },
            )
            &&& inputs.len() == 16 ==> e.transition is None
        }),
    decreases inputs.len(),
{
    if inputs.len() > 0 {
        a_door_takes_sixteen_steps_to_close(g, s, inputs.drop_last(), x, y);
    }
}

/// A state after `n` steps of its choreography.
pub open spec fn advanced(g: RealmGraph, s: State, n: int) -> State
    decreases n,
{
    if n <= 0 {
        s
    } else {
        let before = advanced(g, s, n - 1);
        match before.transition {
            Some(tr) => world::passage(g, before, tr).state,
            None => before,
        }
    }
}

/// The step of its choreography that comes `n`th.
pub open spec fn nth_move(g: RealmGraph, s: State, n: int) -> world::Move {
    let before = advanced(g, s, n - 1);
    world::passage(g, before, before.transition->0)
}

/// A door opens on the sixteenth step of the choreography, which sets the player
/// walking; until then each step only counts.
pub proof fn a_door_opens_on_the_sixteenth(g: RealmGraph, s: State, x: i32, y: i32, n: int)
    requires
        s.transition == Some(Transition::DoorOpen { x, y, t: 0 }),
        0 <= n <= 16,
    ensures
        advanced(g, s, n) == if n < 16 {
            State { transition: Some(Transition::DoorOpen { x, y, t: n as u8 }), ..s }
        } else {
            State {
                player: player::forced(s.player, s.player.facing),
                transition: Some(Transition::DoorWait { x, y }),
                ..s
            }
        },
    decreases n,
{
    if n > 0 {
        a_door_opens_on_the_sixteenth(g, s, x, y, n - 1);
    }
}

/// A fade out switches the realm on the twelfth step of the choreography, which
/// is a jump; until then each step only counts.
pub proof fn a_realm_switches_on_the_twelfth(
    g: RealmGraph,
    s: State,
    warp: Warp,
    door: bool,
    n: int,
)
    requires
        s.transition == Some(Transition::FadeOut { warp, t: 0, door }),
        0 <= n <= 12,
    ensures
        advanced(g, s, n) == if n < 12 {
            State { transition: Some(Transition::FadeOut { warp, t: n as u8, door }), ..s }
        } else {
            State {
                realm: warp.to_realm,
                player: player::landed(s.player, warp, g.realms@[warp.to_realm as int]),
                transition: Some(Transition::FadeIn { t: 0, door }),
                ..s
            }
        },
        n > 0 ==> nth_move(g, s, n).aim.jump == (n == 12),
    decreases n,
{
    if n > 0 {
        a_realm_switches_on_the_twelfth(g, s, warp, door, n - 1);
        reveal(world::warped);
    }
}

/// A fade in ends on the twelfth step of the choreography: on an animated door
/// the player walks down off it, with its sound, and anywhere else it is let go.
/// Until then each step only counts.
pub proof fn a_fade_in_ends_on_the_twelfth(g: RealmGraph, s: State, door: bool, n: int)
    requires
        s.transition == Some(Transition::FadeIn { t: 0, door }),
        0 <= n <= 12,
    ensures
        ({
            let on_door = g.door_on(s.realm as int, s.player.x as int, s.player.y as int) is Some;
            &&& advanced(g, s, n) == if n < 12 {
                State { transition: Some(Transition::FadeIn { t: n as u8, door }), ..s }
            } else if on_door {
                State {
                    player: player::forced(s.player, Facing::Down),
                    transition: Some(
                        Transition::ExitWalk { door_xy: Some((s.player.x, s.player.y)) },
                    ),
                    ..s
                }
            } else {
                State { transition: None, ..s }
            }
            &&& n > 0 ==> nth_move(g, s, n).events == (StepEvents {
                sfx: if n == 12 && on_door {
                    Some("se_door")
                } else {
                    None
                },
                ..player::no_events()
            })
        }),
    decreases n,
{
    if n > 0 {
        a_fade_in_ends_on_the_twelfth(g, s, door, n - 1);
    }
}

/// A door is closed on the sixteenth step of the choreography; until then each
/// step only counts.
pub proof fn a_door_is_closed_on_the_sixteenth(g: RealmGraph, s: State, x: i32, y: i32, n: int)
    requires
        s.transition == Some(Transition::DoorClose { x, y, t: 0 }),
        0 <= n <= 16,
    ensures
        advanced(g, s, n) == if n < 16 {
            State { transition: Some(Transition::DoorClose { x, y, t: n as u8 }), ..s }
        } else {
            State { transition: None, ..s }
        },
    decreases n,
{
    if n > 0 {
        a_door_is_closed_on_the_sixteenth(g, s, x, y, n - 1);
    }
}

} // verus!
