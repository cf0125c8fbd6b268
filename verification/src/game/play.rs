//! What a turn of play does: the menu, the rides, the doors and the warps.

use vstd::prelude::*;
use crate::game::data::WorldPack;
use crate::game::map::{RealmGraph, Warp};
use crate::game::player;
use crate::game::player::{Avatar, Facing, Motion, Player, StepEvents};
use crate::game::state;
use crate::game::state::{Camera, State, Transition};
use crate::game::world;
use crate::single;
use crate::types::Input;

verus! {

/// Whether a button is down that was not down before.
pub open spec fn fresh(now: bool, before: bool) -> bool {
    now && !before
}

// ---- the menu ------------------------------------------------------------------

/// START opens the menu at its first row while nothing else goes on; the world
/// waits.
pub proof fn start_opens_the_menu(
    g: RealmGraph,
    s: State,
    snapshot: Option<Seq<u8>>,
    input: Input,
)
    requires
        s.menu is None,
        s.transition is None,
        fresh(input.start, s.prev_input.start),
    ensures
        ({
            let t = world::turn_of(g, s, snapshot, input);
            &&& t.curr.menu == Some(0u8)
            &&& t.curr.player == s.player && t.curr.realm == s.realm && t.curr.cam == s.cam
            &&& t.curr.levitate == s.levitate && t.curr.transition is None
            &&& t.snapshot == snapshot
            &&& t.events == player::no_events()
        }),
{
}

/// Down goes to the next row and from the last to the first; up undoes it. A
/// button that is held on does nothing, and the cursor moves while nothing else
/// is pressed.
pub proof fn the_cursor_goes_round(
    g: RealmGraph,
    s: State,
    snapshot: Option<Seq<u8>>,
    input: Input,
    c: u8,
)
    requires
        s.menu == Some(c),
        c < 5,
        !fresh(input.a, s.prev_input.a),
        !fresh(input.b, s.prev_input.b),
        !fresh(input.start, s.prev_input.start),
    ensures
        ({
            let t = world::turn_of(g, s, snapshot, input);
            let down = fresh(input.down, s.prev_input.down);
            let up = fresh(input.up, s.prev_input.up);
            &&& t.curr.menu is Some
            &&& down && c < 4 ==> t.curr.menu->0 == c + 1
            &&& down && c == 4 ==> t.curr.menu->0 == 0
            &&& !down && up && c > 0 ==> t.curr.menu->0 == c - 1
            &&& !down && up && c == 0 ==> t.curr.menu->0 == 4
            &&& !down && !up ==> t.curr.menu->0 == c
            &&& t.curr.player == s.player && t.curr.realm == s.realm && t.curr.cam == s.cam
                && t.curr.levitate == s.levitate
            &&& t.snapshot == snapshot
        }),
{
}

/// B and START close the menu, and so does A on its last row, with nothing else
/// changed.
pub proof fn the_menu_closes(
    g: RealmGraph,
    s: State,
    snapshot: Option<Seq<u8>>,
    input: Input,
    c: u8,
)
    requires
        s.menu == Some(c),
        c < 5,
        fresh(input.b, s.prev_input.b) || fresh(input.start, s.prev_input.start) || c == 4
            && fresh(input.a, s.prev_input.a),
    ensures
        ({
            let t = world::turn_of(g, s, snapshot, input);
            &&& t.curr.menu is None
            &&& t.curr.player == s.player && t.curr.realm == s.realm && t.curr.cam == s.cam
                && t.curr.levitate == s.levitate
            &&& t.snapshot == snapshot
        }),
{
}

/// A on a row does what the row says: the first turns levitation on or off, the
/// second goes to the next zoom and leaves the camera in its place, the third
/// saves the state and closes the menu, the fourth goes on from what was saved.
pub proof fn a_row_does_what_it_says(
    g: RealmGraph,
    s: State,
    snapshot: Option<Seq<u8>>,
    input: Input,
    c: u8,
)
    requires
        s.menu == Some(c),
        fresh(input.a, s.prev_input.a),
        !fresh(input.b, s.prev_input.b),
        !fresh(input.start, s.prev_input.start),
    ensures
        ({
            let t = world::turn_of(g, s, snapshot, input);
            &&& c == 0 ==> t.curr.levitate == !s.levitate && t.curr.cam == s.cam && t.curr.player
                == s.player && t.curr.realm == s.realm && t.snapshot == snapshot && t.curr.menu
                is Some
            &&& c == 1 ==> t.curr.levitate == s.levitate && t.curr.cam.x == s.cam.x && t.curr.cam.y
                == s.cam.y && t.curr.player == s.player && t.curr.realm == s.realm && t.snapshot
                == snapshot && t.curr.menu is Some && forall|n: int|
                1 <= n <= 4 && s.cam.zoom == #[trigger] single::single_of(n as u32) ==> t.curr.cam.zoom
                    == single::single_of(
                    (if n == 4 {
                        1
                    } else {
                        n + 1
                    }) as u32,
                )
            &&& c == 2 ==> t.snapshot == Some(state::saved(s)) && t.curr.menu is None
                && t.curr.levitate == s.levitate && t.curr.cam == s.cam && t.curr.player == s.player
                && t.curr.realm == s.realm
            &&& c == 3 && snapshot is None ==> t.curr.player == s.player && t.curr.realm == s.realm
                && t.snapshot is None && t.curr.menu is Some
            &&& c == 3 ==> (snapshot matches Some(b) ==> t.snapshot == snapshot && match world::admitted(
                g,
                b,
            ) {
                Some(l) => t.curr == l && t.prev == l,
                None => t.curr.player == s.player && t.curr.realm == s.realm && t.curr.menu is Some,
            })
        }),
{
    let t = world::turn_of(g, s, snapshot, input);
    if c == 2 {
        assert(state::saved(world::ticked(s, input)) =~= state::saved(s));
    }
    if c == 1 {
        assert forall|n: int|
            1 <= n <= 4 && s.cam.zoom == #[trigger] single::single_of(
                n as u32,
            ) implies t.curr.cam.zoom == single::single_of(
            (if n == 4 {
                1
            } else {
                n + 1
            }) as u32,
        ) by {
            whole_zooms_follow_each_other(n);
        }
    }
}

/// The zooms follow each other from one to four, and one follows four.
pub proof fn whole_zooms_follow_each_other(n: int)
    requires
        1 <= n <= 4,
    ensures
        world::next_zoom(single::single_of(n as u32) as u32) == single::single_of(
            (if n == 4 {
                1
            } else {
                n + 1
            }) as u32,
        ),
{
    reveal_with_fuel(single::top_bit, 4);
    reveal_with_fuel(single::two_to, 25);
    assert(single::two_to(23) == 0x80_0000 && single::two_to(22) == 0x40_0000 && single::two_to(21)
        == 0x20_0000);
    assert(single::single_of(1) == 0x3F80_0000);
    assert(single::single_of(2) == 0x4000_0000);
    assert(single::single_of(3) == 0x4040_0000);
    assert(single::single_of(4) == 0x4080_0000);
    lemma_floor(0x80_0000, 0x80_0000, 1);
    lemma_floor(0x80_0000, 0x40_0000, 2);
    lemma_floor(0xC0_0000, 0x40_0000, 3);
    lemma_floor(0x80_0000, 0x20_0000, 4);
    assert(single::floor_of(0x3F80_0000) == 1);
    assert(single::floor_of(0x4000_0000) == 2);
    assert(single::floor_of(0x4040_0000) == 3);
    assert(single::floor_of(0x4080_0000) == 4);
    if n == 1 {
    } else if n == 2 {
    } else if n == 3 {
    } else {
    }
}

proof fn lemma_floor(m: int, d: int, q: int)
    requires
        d > 0,
        m == q * d,
    ensures
        m / d == q,
{
    assert(m / d == q) by (nonlinear_arith)
        requires
            d > 0,
            m == q * d,
    ;
}

/// A save that does not lie in the world is not loaded.
pub proof fn a_save_must_lie_in_the_world(g: RealmGraph, b: Seq<u8>)
    ensures
        world::admitted(g, b) matches Some(s) ==> state::loaded(b) == Some(s) && s.realm
            < g.realms@.len() && 0 <= s.player.x < g.realms@[s.realm as int].width && 0
            <= s.player.y < g.realms@[s.realm as int].height,
        state::loaded(b) matches Some(s) ==> (s.realm < g.realms@.len() && 0 <= s.player.x
            < g.realms@[s.realm as int].width && 0 <= s.player.y
            < g.realms@[s.realm as int].height ==> world::admitted(g, b) == Some(s)),
{
}

// ---- free play -------------------------------------------------------------------

/// Every turn counts a frame, round at the end, and remembers what was pressed,
/// unless it loads a save.
pub proof fn every_turn_counts_a_frame(
    g: RealmGraph,
    s: State,
    snapshot: Option<Seq<u8>>,
    input: Input,
)
    requires
        s.menu != Some(3u8),
    ensures
        ({
            let t = world::turn_of(g, s, snapshot, input);
            &&& t.curr.prev_input == input
            &&& s.ticks < u32::MAX ==> t.curr.ticks == s.ticks + 1
            &&& s.ticks == u32::MAX ==> t.curr.ticks == 0
        }),
{
    reveal(world::warped);
}

/// SELECT mounts the bike, standing, and dismounts it; on the water it does
/// nothing, and neither does holding it.
pub proof fn select_takes_the_bike(g: RealmGraph, s: State, input: Input)
    requires
        !fresh(input.a, s.prev_input.a),
    ensures
        ({
            let (p, ev) = world::prepared(g, s, input);
            &&& ev == player::no_events()
            &&& p == (Player { avatar: p.avatar, ..s.player })
            &&& !fresh(input.select, s.prev_input.select) ==> p == s.player
            &&& fresh(input.select, s.prev_input.select) ==> {
                &&& s.player.avatar == Avatar::Walking ==> p.avatar == (Avatar::Bike {
                    tier: 0,
                    momentum: 0,
                })
                &&& s.player.avatar is Bike ==> p.avatar == Avatar::Walking
                &&& s.player.avatar == Avatar::Surfing ==> p.avatar == Avatar::Surfing
            }
        }),
{
}

/// A before open water mounts the blob: a standing player hops onto the tile
/// that it faces, at its elevation, with the sound of it. Nothing is mounted
/// from the water, in motion, before land or before a solid tile.
pub proof fn facing_water_a_mounts_the_blob(g: RealmGraph, s: State, input: Input)
    requires
        fresh(input.a, s.prev_input.a),
        !fresh(input.select, s.prev_input.select),
        s.player.wf(),
    ensures
        ({
            let (p, ev) = world::prepared(g, s, input);
            let (x, y) = player::ahead(s.player, s.player.facing);
            let cell = g.realms@[s.realm as int].cell_at(x, y);
            let water = cell is Some && g.is_surfable(cell->0) && (cell->0).collision == 0;
            let mounts = s.player.motion == Motion::Idle && s.player.avatar != Avatar::Surfing
                && water;
            &&& !mounts ==> p == s.player && ev == player::no_events()
            &&& mounts ==> {
                &&& p.avatar == Avatar::Surfing
                &&& p.x == x && p.y == y && p.facing == s.player.facing
                &&& p.motion == (Motion::Moving { remaining_px: 0x4180_0000, speed: 1 })
                &&& p.elevation == if (cell->0).elevation == 0 || (cell->0).elevation == 15 {
                    s.player.elevation
                } else {
                    (cell->0).elevation
                }
                &&& p.current_map == s.player.current_map && p.step_loop == s.player.step_loop
                &&& ev == (StepEvents { sfx: Some("se_m_surf"), ..player::no_events() })
            }
        }),
{
}

/// What a step of free play finds, it begins: a door that was pushed at starts to
/// open, on its tile, with its sound; a warp starts to fade out, with the sound
/// of leaving; otherwise the step is all there is, and the camera follows.
pub proof fn free_play_begins_what_it_finds(
    g: RealmGraph,
    s: State,
    snapshot: Option<Seq<u8>>,
    input: Input,
)
    requires
        s.menu is None,
        s.transition is None,
        !s.levitate,
        !fresh(input.start, s.prev_input.start),
    ensures
        ({
            let (p0, ev0) = world::prepared(g, s, input);
            let (p, ev) = player::stepped(g, s.realm as int, p0, ev0, input, input.b, false);
            let t = world::turn_of(g, s, snapshot, input);
            &&& t.curr.player == p && t.curr.realm == s.realm && t.curr.cam == s.cam
                && !t.curr.levitate && t.curr.menu is None
            &&& t.snapshot == snapshot
            &&& t.events.warp == ev.warp && t.events.entered_map == ev.entered_map
                && t.events.door_enter == ev.door_enter
            &&& ev.warp is None && ev.door_enter is None ==> t.curr.transition is None
                && t.events.sfx == ev.sfx
            &&& ev.warp is None ==> (ev.door_enter matches Some((x, y)) ==> t.curr.transition == Some(
                Transition::DoorOpen { x, y, t: 0 },
            ) && t.events.sfx == Some("se_door"))
            &&& ev.warp matches Some(w) ==> t.curr.transition == Some(
                Transition::FadeOut { warp: w, t: 0, door: false },
            ) && t.events.sfx == Some("se_exit")
            &&& t.aim.follow && t.aim.zoom_in == input.zoom_in && t.aim.zoom_out == input.zoom_out
                && t.aim.jump == (ev.warp is Some)
        }),
{
    reveal(world::acted);
}

// ---- doors and warps -----------------------------------------------------------

/// Walking onto an open door, nobody steers; when the walk ends on the warp the
/// door's own fade begins, and where it ends without one play goes on.
pub proof fn walking_into_a_door_fades_out(g: RealmGraph, s: State, x: i32, y: i32)
    ensures
        ({
            let m = world::passage(g, s, Transition::DoorWait { x, y });
            let (p, ev) = player::stepped(
                g,
                s.realm as int,
                s.player,
                player::no_events(),
                crate::types::no_input(),
                false,
                false,
            );
            &&& m.state.player == p && m.state.realm == s.realm
            &&& ev.warp matches Some(w) ==> m.state.transition == Some(
                Transition::FadeOut { warp: w, t: 0, door: true },
            )
            &&& ev.warp is None && p.motion == Motion::Idle ==> m.state.transition is None
            &&& ev.warp is None && p.motion != Motion::Idle ==> m.state.transition == s.transition
            &&& m.aim.follow && !m.aim.jump
            &&& m.events == player::no_events()
        }),
{
    reveal(world::unsteered);
}

/// Walking off an arrival door, nobody steers; when the walk ends the door that
/// was left starts to close.
pub proof fn walking_off_a_door_closes_it(g: RealmGraph, s: State, door: Option<(i32, i32)>)
    ensures
        ({
            let m = world::passage(g, s, Transition::ExitWalk { door_xy: door });
            let p = player::stepped(
                g,
                s.realm as int,
                s.player,
                player::no_events(),
                crate::types::no_input(),
                false,
                false,
            ).0;
            &&& m.state.player == p && m.state.realm == s.realm
            &&& p.motion != Motion::Idle ==> m.state.transition == s.transition
            &&& p.motion == Motion::Idle && door is None ==> m.state.transition is None
            &&& p.motion == Motion::Idle ==> (door matches Some((x, y)) ==> m.state.transition
                == Some(Transition::DoorClose { x, y, t: 0 }))
            &&& m.aim.follow && !m.aim.jump
        }),
{
    reveal(world::unsteered);
}

/// A warp that is crossed takes the player to its realm and its tile, and the
/// camera jumps after it.
pub proof fn crossing_a_warp_changes_the_realm(
    g: RealmGraph,
    s: State,
    w: Warp,
    door: bool,
)
    ensures
        ({
            let m = world::passage(g, s, Transition::FadeOut { warp: w, t: 11, door });
            &&& m.state.realm == w.to_realm
            &&& m.state.player.x == w.to_x && m.state.player.y == w.to_y
            &&& m.state.player.motion == Motion::Idle
            &&& m.state.player.facing == s.player.facing
            &&& m.state.transition == Some(Transition::FadeIn { t: 0, door })
            &&& m.aim.follow && m.aim.jump
        }),
{
    reveal(world::warped);
}

/// Play starts where the pack says, on foot, standing, facing down, at the
/// elevation of plain ground, in the map of that tile, with nothing going on.
pub proof fn play_starts_where_the_pack_says(g: RealmGraph, pack: WorldPack, cam: Camera)
    ensures
        ({
            let s = world::first_state(g, pack, cam);
            &&& s.realm == pack.start.realm
            &&& s.player.x == pack.start.x && s.player.y == pack.start.y
            &&& s.player.facing == Facing::Down && s.player.motion == Motion::Idle
            &&& s.player.avatar == Avatar::Walking && s.player.elevation == 3
                && s.player.step_loop == 0
            &&& s.player.current_map == g.realms@[pack.start.realm as int].map_on(
                pack.start.x as int,
                pack.start.y as int,
            )
            &&& s.cam == cam
            &&& !s.levitate && s.menu is None && s.transition is None && s.ticks == 0
        }),
{
}

} // verus!
