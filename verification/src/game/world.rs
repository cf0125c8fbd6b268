//! The running world: the graph of realms, the graphics, and two sim states.
//! A step advances the player, the start menu (which freezes the overworld)
//! or the warp choreography (which ignores input), and says what the camera
//! has to do.

use vstd::prelude::*;
use crate::codec::PackError;
use crate::game::bake;
use crate::game::bake::Baked;
use crate::game::data::WorldPack;
use crate::game::map::{Realm, RealmGraph, Warp};
use crate::game::player;
use crate::game::player::{Avatar, Facing, Motion, Player, StepEvents};
use crate::game::state;
use crate::game::state::{Camera, State, Transition, DOOR_T, FADE_T, MENU_LEN};
use crate::single;
use crate::single::{bits_of, floor_bits};
use crate::types;
use crate::types::{Input, TextureId};

verus! {

/// The uploaded graphics of a pack.
pub struct Textures {
    /// One per atlas.
    pub atlases: Vec<TextureId>,
    pub player: TextureId,
    pub surf_player: TextureId,
    pub surf_blob: TextureId,
    pub bike: TextureId,
    /// One per door.
    pub doors: Vec<TextureId>,
    pub font: TextureId,
}

/// What the camera has to do after a step: follow the player, zoom, and
/// whether the step was a jump that is never interpolated.
#[derive(Clone, Copy, Debug, PartialEq, Eq, Structural)]
pub struct Aim {
    pub follow: bool,
    pub zoom_in: bool,
    pub zoom_out: bool,
    pub jump: bool,
}

/// A camera that stays where it is.
pub open spec fn at_rest() -> Aim {
    Aim { follow: false, zoom_in: false, zoom_out: false, jump: false }
}

/// A camera that follows the player.
pub open spec fn following() -> Aim {
    Aim { follow: true, zoom_in: false, zoom_out: false, jump: false }
}

pub struct World {
    pub graph: RealmGraph,
    pub baked: Baked,
    pub tex: Textures,
    pub font_widths: Vec<u8>,
    /// The save slot behind the menu's SAVE and LOAD.
    pub snapshot: Option<Vec<u8>>,
    pub prev: State,
    pub curr: State,
    /// What the last step asked of the camera.
    pub aim: Aim,
}

// ---- one step ------------------------------------------------------------

/// What a step makes of the world.
#[verifier::ext_equal]
pub struct Turn {
    pub prev: State,
    pub curr: State,
    pub snapshot: Option<Seq<u8>>,
    pub events: StepEvents,
    pub aim: Aim,
}

pub open spec fn pressed(now: bool, before: bool) -> bool {
    now && !before
}

/// A state with the input noted and the frame counted.
pub open spec fn ticked(s: State, input: Input) -> State {
    State {
        prev_input: input,
        ticks: if s.ticks == u32::MAX {
            0
        } else {
            (s.ticks + 1) as u32
        },
        ..s
    }
}

/// The remainder by four that has the sign of its argument.
pub open spec fn rest_of_four(z: int) -> int {
    if z >= 0 {
        z % 4
    } else {
        -((-z) % 4)
    }
}

/// The next of the whole zooms: one, two, three, four, and one again.
pub open spec fn next_zoom(zoom: u32) -> u32 {
    let n = rest_of_four(single::floor_of(zoom)) + 1;
    if n >= 0 {
        single::single_of(n as u32) as u32
    } else {
        (0x8000_0000 + single::single_of((-n) as u32)) as u32
    }
}

/// The state of a save that lies in the world.
pub open spec fn admitted(g: RealmGraph, b: Seq<u8>) -> Option<State> {
    match state::loaded(b) {
        None => None,
        Some(s) => if s.realm < g.realms@.len() && g.realms@[s.realm as int].inside(
            s.player.x as int,
            s.player.y as int,
        ) {
            Some(s)
        } else {
            None
        },
    }
}

/// The menu's cursor after up and down.
pub open spec fn cursor_moved(c: u8, input: Input, was: Input) -> u8 {
    if pressed(input.down, was.down) {
        ((c + 1) % MENU_LEN as int) as u8
    } else if pressed(input.up, was.up) {
        ((c + MENU_LEN - 1) % MENU_LEN as int) as u8
    } else {
        c
    }
}

/// A step of the open start menu: levitate, zoom, save, load, exit.
pub open spec fn menu_turn(
    g: RealmGraph,
    before: State,
    snapshot: Option<Seq<u8>>,
    input: Input,
    c: u8,
) -> Turn {
    let was = before.prev_input;
    let s = ticked(before, input);
    let open = State { menu: Some(cursor_moved(c, input, was)), ..s };
    let shut = State { menu: None, ..s };
    let turn = Turn {
        prev: before,
        curr: open,
        snapshot,
        events: player::no_events(),
        aim: at_rest(),
    };
    if pressed(input.b, was.b) || pressed(input.start, was.start) {
        Turn { curr: shut, ..turn }
    } else if !pressed(input.a, was.a) {
        turn
    } else if c == 0 {
        Turn { curr: State { levitate: !s.levitate, ..open }, ..turn }
    } else if c == 1 {
        Turn {
            curr: State { cam: Camera { zoom: next_zoom(s.cam.zoom), ..s.cam }, ..open },
            ..turn
        }
    } else if c == 2 {
        Turn { curr: shut, snapshot: Some(state::saved(s)), ..turn }
    } else if c == 3 {
        match snapshot {
            None => turn,
            Some(b) => match admitted(g, b) {
                None => turn,
                Some(l) => Turn { prev: l, curr: l, ..turn },
            },
        }
    } else {
        Turn { curr: shut, ..turn }
    }
}

/// A walking step that no one steers.
#[verifier::opaque]
pub open spec fn unsteered(g: RealmGraph, s: State) -> (Player, StepEvents) {
    player::stepped(
        g,
        s.realm as int,
        s.player,
        player::no_events(),
        types::no_input(),
        false,
        false,
    )
}

/// A player that a warp takes to its realm.
#[verifier::opaque]
pub open spec fn warped(g: RealmGraph, s: State, w: Warp) -> State {
    State {
        realm: w.to_realm,
        player: player::landed(s.player, w, g.realms@[w.to_realm as int]),
        ..s
    }
}

/// What a step of the overworld or of the choreography comes to.
#[derive(Clone, Copy)]
pub struct Move {
    pub state: State,
    pub events: StepEvents,
    pub aim: Aim,
}

/// A step of the warp choreography.
pub open spec fn passage(g: RealmGraph, s: State, tr: Transition) -> Move {
    let still = Move { state: s, events: player::no_events(), aim: at_rest() };
    match tr {
        Transition::DoorOpen { x, y, t } => if t + 1 >= DOOR_T {
            Move {
                state: State {
                    player: player::forced(s.player, s.player.facing),
                    transition: Some(Transition::DoorWait { x, y }),
                    ..s
                },
                ..still
            }
        } else {
            Move {
                state: State {
                    transition: Some(Transition::DoorOpen { x, y, t: (t + 1) as u8 }),
                    ..s
                },
                ..still
            }
        },
        Transition::DoorWait { x, y } => {
            let (p, ev) = unsteered(g, s);
            Move {
                state: State {
                    player: p,
                    transition: match ev.warp {
                        Some(w) => Some(Transition::FadeOut { warp: w, t: 0, door: true }),
                        None => if p.motion == Motion::Idle {
                            None
                        } else {
                            s.transition
                        },
                    },
                    ..s
                },
                aim: following(),
                ..still
            }
        },
        Transition::FadeOut { warp, t, door } => if t + 1 >= FADE_T {
            Move {
                state: State {
                    transition: Some(Transition::FadeIn { t: 0, door }),
                    ..warped(g, s, warp)
                },
                aim: Aim { jump: true, ..following() },
                ..still
            }
        } else {
            Move {
                state: State {
                    transition: Some(Transition::FadeOut { warp, t: (t + 1) as u8, door }),
                    ..s
                },
                ..still
            }
        },
        Transition::FadeIn { t, door } => if t + 1 < FADE_T {
            Move {
                state: State {
                    transition: Some(Transition::FadeIn { t: (t + 1) as u8, door }),
                    ..s
                },
                ..still
            }
        } else if g.door_on(s.realm as int, s.player.x as int, s.player.y as int) is Some {
            Move {
                state: State {
                    player: player::forced(s.player, Facing::Down),
                    transition: Some(
                        Transition::ExitWalk { door_xy: Some((s.player.x, s.player.y)) },
                    ),
                    ..s
                },
                events: StepEvents { sfx: Some("se_door"), ..player::no_events() },
                ..still
            }
        } else {
            Move { state: State { transition: None, ..s }, ..still }
        },
        Transition::ExitWalk { door_xy } => {
            let (p, ev) = unsteered(g, s);
            Move {
                state: State {
                    player: p,
                    transition: if p.motion != Motion::Idle {
                        s.transition
                    } else {
                        match door_xy {
                            Some((x, y)) => Some(Transition::DoorClose { x, y, t: 0 }),
                            None => None,
                        }
                    },
                    ..s
                },
                aim: following(),
                ..still
            }
        },
        Transition::DoorClose { x, y, t } => Move {
            state: State {
                transition: if t + 1 < DOOR_T {
                    Some(Transition::DoorClose { x, y, t: (t + 1) as u8 })
                } else {
                    None
                },
                ..s
            },
            ..still
        },
    }
}

/// Select toggles the bike, but not on water.
pub open spec fn toggled(a: Avatar) -> Avatar {
    match a {
        Avatar::Walking => Avatar::Bike { tier: 0, momentum: 0 },
        Avatar::Bike { .. } => Avatar::Walking,
        Avatar::Surfing => Avatar::Surfing,
    }
}

pub open spec fn is_passable(r: Realm, x: int, y: int) -> bool {
    match r.cell_at(x, y) {
        Some(c) => c.collision == 0,
        None => true,
    }
}

/// The player before a free step: on or off the bike, or onto the blob, with
/// the sound of mounting it.
pub open spec fn prepared(g: RealmGraph, before: State, input: Input) -> (Player, StepEvents) {
    let was = before.prev_input;
    let p = if pressed(input.select, was.select) {
        Player { avatar: toggled(before.player.avatar), ..before.player }
    } else {
        before.player
    };
    let (nx, ny) = player::ahead(p, p.facing);
    if pressed(input.a, was.a) && p.motion == Motion::Idle && p.avatar != Avatar::Surfing
        && g.surfable_on(before.realm as int, nx, ny) && is_passable(
        g.realms@[before.realm as int],
        nx,
        ny,
    ) {
        (
            player::mounted(g, before.realm as int, p),
            StepEvents { sfx: Some("se_m_surf"), ..player::no_events() },
        )
    } else {
        (p, player::no_events())
    }
}

/// The player and the events of a free step.
#[verifier::opaque]
pub open spec fn acted(g: RealmGraph, before: State, input: Input) -> (Player, StepEvents) {
    let (p, ev) = prepared(g, before, input);
    player::stepped(g, before.realm as int, p, ev, input, input.b, before.levitate)
}

/// A step of the overworld. An animated door starts to open, a warp starts to
/// fade out; levitating, a warp is instant.
pub open spec fn roaming(g: RealmGraph, before: State, input: Input) -> Move {
    let (p, ev) = acted(g, before, input);
    let s = State { player: p, ..ticked(before, input) };
    let aim = Aim {
        follow: true,
        zoom_in: input.zoom_in,
        zoom_out: input.zoom_out,
        jump: ev.warp is Some,
    };
    let (s1, ev1) = match ev.door_enter {
        Some((x, y)) => (
            State { transition: Some(Transition::DoorOpen { x, y, t: 0 }), ..s },
            StepEvents { sfx: Some("se_door"), ..ev },
        ),
        None => (s, ev),
    };
    match ev.warp {
        None => Move { state: s1, events: ev1, aim },
        Some(w) => if before.levitate {
            Move { state: warped(g, s1, w), events: ev1, aim }
        } else {
            Move {
                state: State {
                    transition: Some(Transition::FadeOut { warp: w, t: 0, door: false }),
                    ..s1
                },
                events: StepEvents { sfx: Some("se_exit"), ..ev1 },
                aim,
            }
        },
    }
}

/// The turn that a move makes: a jump leaves nothing to interpolate from.
pub open spec fn turned(before: State, snapshot: Option<Seq<u8>>, m: Move) -> Turn {
    Turn {
        prev: if m.aim.jump {
            m.state
        } else {
            before
        },
        curr: m.state,
        snapshot,
        events: m.events,
        aim: m.aim,
    }
}

/// One fixed step of the sim.
pub open spec fn turn_of(
    g: RealmGraph,
    before: State,
    snapshot: Option<Seq<u8>>,
    input: Input,
) -> Turn {
    match before.menu {
        Some(c) => menu_turn(g, before, snapshot, input, c),
        None => match before.transition {
            Some(tr) => turned(before, snapshot, passage(g, ticked(before, input), tr)),
            None => if pressed(input.start, before.prev_input.start) {
                turned(
                    before,
                    snapshot,
                    Move {
                        state: State { menu: Some(0), ..ticked(before, input) },
                        events: player::no_events(),
                        aim: at_rest(),
                    },
                )
            } else {
                turned(before, snapshot, roaming(g, before, input))
            },
        },
    }
}

/// The warp that a step crosses, if it crosses one.
pub open spec fn crossing(g: RealmGraph, before: State, input: Input) -> Option<Warp> {
    if before.menu is Some {
        None
    } else {
        match before.transition {
            Some(Transition::FadeOut { warp, t, .. }) => if t + 1 >= FADE_T {
                Some(warp)
            } else {
                None
            },
            Some(_) => None,
            None => if pressed(input.start, before.prev_input.start) || !before.levitate {
                None
            } else {
                acted(g, before, input).1.warp
            },
        }
    }
}

/// Whether a step of the choreography looks at the tiles around the player.
pub open spec fn sets_off(tr: Transition) -> bool {
    match tr {
        Transition::DoorOpen { t, .. } => t + 1 >= DOOR_T,
        Transition::FadeIn { t, .. } => t + 1 >= FADE_T,
        Transition::DoorWait { .. } => true,
        Transition::ExitWalk { .. } => true,
        _ => false,
    }
}

/// Whether a step looks at the tiles around the player: not with the menu open
/// or opening, nor while the choreography only counts.
pub open spec fn looks_around(before: State, input: Input) -> bool {
    before.menu is None && match before.transition {
        Some(tr) => sets_off(tr),
        None => !pressed(input.start, before.prev_input.start),
    }
}

/// Whether a step can be taken: the tiles that it looks at have coordinates,
/// and a warp that is crossed leads to a realm.
pub open spec fn steady(g: RealmGraph, before: State, input: Input) -> bool {
    &&& looks_around(before, input) ==> crate::game::map::has_neighbours(before.player.x)
        && crate::game::map::has_neighbours(before.player.y)
    &&& crossing(g, before, input) matches Some(w) ==> w.to_realm < g.realms@.len()
}

pub open spec fn bytes_of(v: Option<Vec<u8>>) -> Option<Seq<u8>> {
    match v {
        Some(b) => Some(b@),
        None => None,
    }
}

/// The music that belongs to a state: the surf and bike tunes before that of
/// the map.
pub open spec fn music_of(g: RealmGraph, s: State) -> Option<Seq<char>> {
    match s.player.avatar {
        Avatar::Surfing => Some("MUS_SURF"@),
        Avatar::Bike { .. } => Some("MUS_CYCLING"@),
        Avatar::Walking => match s.player.current_map {
            None => None,
            Some(m) => if m < g.realms@[s.realm as int].maps@.len() {
                Some(g.realms@[s.realm as int].maps@[m as int].music@)
            } else {
                None
            },
        },
    }
}

/// The state at the start of a pack's world.
pub open spec fn first_state(g: RealmGraph, pack: WorldPack, cam: Camera) -> State {
    State {
        realm: pack.start.realm,
        player: Player {
            x: pack.start.x,
            y: pack.start.y,
            facing: Facing::Down,
            motion: Motion::Idle,
            step_loop: 0,
            avatar: Avatar::Walking,
            elevation: 3,
            current_map: g.realms@[pack.start.realm as int].map_on(
                pack.start.x as int,
                pack.start.y as int,
            ),
        },
        cam,
        levitate: false,
        menu: None,
        ticks: 0,
        transition: None,
        prev_input: types::no_input(),
    }
}

fn add_bytes(b: &Vec<u8>) -> (r: Vec<u8>)
    ensures
        r@ == b@,
{
    let mut r: Vec<u8> = Vec::new();
    let mut i: usize = 0;
    while i < b.len()
        invariant
            i <= b@.len(),
            r@ == b@.take(i as int),
        decreases b.len() - i,
    {
        r.push(b[i]);
        assert(b@.take(i + 1) =~= b@.take(i as int).push(b@[i as int]));
        i += 1;
    }
    assert(b@.take(i as int) =~= b@);
    r
}

fn zoom_after(zoom: u32) -> (r: u32)
    ensures
        r == next_zoom(zoom),
{
    let z: i32 = floor_bits(zoom);
    let n: i64 = if z >= 0 { z as i64 % 4 } else { -((-(z as i64)) % 4) } + 1;
    if n >= 0 {
        bits_of(n as u32)
    } else {
        let b: u32 = bits_of((-n) as u32);
        proof {
            single::lemma_whole(-n as int);
        }
        0x8000_0000 + b
    }
}

/// Every step keeps a player that a save can hold.
pub proof fn lemma_stepped_saveable(
    g: RealmGraph,
    realm: int,
    p: Player,
    ev: StepEvents,
    input: Input,
    run: bool,
    levitate: bool,
)
    requires
        g.wf(),
        0 <= realm < g.realms@.len(),
        state::saveable(p),
        player::motion_ok(player::stepped(g, realm, p, ev, input, run, levitate).0.motion),
    ensures
        state::saveable(player::stepped(g, realm, p, ev, input, run, levitate).0),
{
    reveal(player::stepped);
    crate::game::map::lemma_elevations(g.realms@[realm]);
}

impl World {
    /// What every step keeps.
    pub open spec fn wf(&self) -> bool {
        &&& self.graph.wf()
        &&& self.baked.wf()
        &&& self.tex.atlases@.len() == self.baked.atlases@.len()
        &&& self.tex.doors@.len() == self.graph.doors@.len()
        &&& self.curr.wf()
        &&& self.curr.realm < self.graph.realms@.len()
    }

    /// A world at the start of its pack, with the graphics that were baked of
    /// that pack and uploaded.
    pub fn new(pack: &WorldPack, baked: Baked, tex: Textures, cam: Camera) -> (w: World)
        requires
            crate::game::coherence::holds_together(*pack),
            bake::is_baked(baked, *pack),
            tex.atlases@.len() == baked.atlases@.len(),
            tex.doors@.len() == pack.doors@.len(),
        ensures
            w.wf(),
            w.graph.realms@.len() == pack.realms@.len(),
            forall|i: int|
                0 <= i < w.graph.realms@.len() ==> crate::game::map::expands(
                    #[trigger] w.graph.realms@[i],
                    pack.realms@[i],
                    pack.layouts@,
                ),
            w.graph.pairs@ == pack.pairs@,
            w.graph.behaviors@.len() == pack.tilesets@.len(),
            forall|i: int|
                0 <= i < pack.tilesets@.len() ==> (#[trigger] w.graph.behaviors@[i])@ == Seq::new(
                    pack.tilesets@[i].attributes@.len(),
                    |k: int| (pack.tilesets@[i].attributes@[k] % 256) as u8,
                ),
            w.graph.surfable == pack.surfable,
            w.graph.warp_dir == pack.warp_dir,
            w.graph.doors@ == Seq::new(
                pack.doors@.len(),
                |i: int| (pack.doors@[i].tileset, pack.doors@[i].metatile),
            ),
            w.baked == baked,
            bake::is_baked(w.baked, *pack),
            w.tex == tex,
            w.font_widths@ == pack.font_widths@,
            w.snapshot is None,
            w.curr == first_state(w.graph, *pack, cam),
            w.prev == w.curr,
            w.aim == at_rest(),
    {
        proof {
            bake::lemma_baked_wf(baked, *pack);
        }
        let graph = RealmGraph::from_pack(pack);
        let start = &pack.start;
        let player = Player::spawn(start.x, start.y, graph.realm(start.realm));
        let s = State {
            realm: start.realm,
            player,
            cam,
            levitate: false,
            menu: None,
            ticks: 0,
            transition: None,
            prev_input: Input::default(),
        };
        World {
            graph,
            baked,
            tex,
            font_widths: add_bytes(&pack.font_widths),
            snapshot: None,
            prev: s,
            curr: s,
            aim: Aim { follow: false, zoom_in: false, zoom_out: false, jump: false },
        }
    }

    pub fn state(&self) -> (s: &State)
        ensures
            *s == self.curr,
    {
        &self.curr
    }

    pub fn graph(&self) -> (g: &RealmGraph)
        ensures
            *g == self.graph,
    {
        &self.graph
    }

    /// What should be playing right now.
    pub fn current_music(&self) -> (m: Option<&str>)
        requires
            self.wf(),
        ensures
            match m {
                Some(n) => music_of(self.graph, self.curr) == Some(n@),
                None => music_of(self.graph, self.curr) is None,
            },
    {
        match self.curr.player.avatar {
            Avatar::Surfing => Some("MUS_SURF"),
            Avatar::Bike { .. } => Some("MUS_CYCLING"),
            Avatar::Walking => match self.curr.player.current_map {
                None => None,
                Some(m) => {
                    let maps = &self.graph.realm(self.curr.realm).maps;
                    if (m as usize) < maps.len() {
                        Some(maps[m as usize].music.as_str())
                    } else {
                        None
                    }
                },
            },
        }
    }

    /// The save of the current state.
    pub fn save_state(&self) -> (b: Vec<u8>)
        ensures
            b@ == state::saved(self.curr),
    {
        self.curr.to_bytes()
    }

    /// Restore a saved state. A load is a jump that is never interpolated.
    pub fn load_state(&mut self, bytes: &[u8]) -> (res: Result<(), PackError>)
        requires
            old(self).wf(),
        ensures
            final(self).wf(),
            match admitted(old(self).graph, bytes@) {
                Some(s) => res is Ok && *final(self) == (World { prev: s, curr: s, ..*old(self) }),
                None => *final(self) == *old(self) && (res matches Err(e) && e.0@ == if state::loaded(
                    bytes@,
                ) is None {
                    "bad save state"@
                } else {
                    "save state out of world bounds"@
                }),
            },
    {
        let s = match State::from_bytes(bytes) {
            Ok(s) => s,
            Err(e) => return Err(e),
        };
        if s.realm as usize >= self.graph.realms.len() || !self.graph.realm(s.realm).in_bounds(
            s.player.x,
            s.player.y,
        ) {
            return Err(PackError("save state out of world bounds"));
        }
        self.curr = s;
        self.prev = s;
        Ok(())
    }

    /// Point the camera. After a jump there is nothing to interpolate.
    pub fn look(&mut self, cam: Camera)
        ensures
            *final(self) == (World {
                curr: State { cam, ..old(self).curr },
                prev: if old(self).aim.jump {
                    State { cam, ..old(self).prev }
                } else {
                    old(self).prev
                },
                ..*old(self)
            }),
    {
        self.curr.cam = cam;
        if self.aim.jump {
            self.prev.cam = cam;
        }
    }

    /// The player and the events of a free step.
    fn act(&self, input: Input) -> (r: (Player, StepEvents))
        requires
            self.wf(),
            crate::game::map::has_neighbours(self.curr.player.x),
            crate::game::map::has_neighbours(self.curr.player.y),
        ensures
            r == acted(self.graph, self.curr, input),
            r.0.wf(),
            state::saveable(r.0),
    {
        proof {
            reveal(acted);
        }
        let was = self.curr.prev_input;
        let realm: u16 = self.curr.realm;
        let mut p = self.curr.player;
        let mut events = StepEvents::default();
        if input.select && !was.select {
            p.avatar = match p.avatar {
                Avatar::Walking => Avatar::Bike { tier: 0, momentum: 0 },
                Avatar::Bike { .. } => Avatar::Walking,
                Avatar::Surfing => Avatar::Surfing,
            };
        }
        if input.a && !was.a && p.motion == Motion::Idle && p.avatar != Avatar::Surfing {
            let (dx, dy): (i32, i32) = p.facing.delta();
            let nx: i32 = p.x + dx;
            let ny: i32 = p.y + dy;
            if self.graph.surfable_at(realm, nx, ny) && self.graph.realm(realm).passable(nx, ny) {
                p.mount_surf(&self.graph, realm);
                events.sfx = Some("se_m_surf");
            }
        }
        let ghost (p1, ev1) = (p, events);
        assert((p, events) == prepared(self.graph, self.curr, input));
        p.step(input, &self.graph, realm, input.b, self.curr.levitate, &mut events);
        proof {
            crate::game::map::lemma_elevations(self.graph.realms@[realm as int]);
            lemma_stepped_saveable(
                self.graph,
                realm as int,
                p1,
                ev1,
                input,
                input.b,
                self.curr.levitate,
            );
        }
        (p, events)
    }

    /// Whether a step can be taken.
    pub fn can_step(&self, input: Input) -> (b: bool)
        requires
            self.wf(),
        ensures
            b == steady(self.graph, self.curr, input),
    {
        let (x, y): (i32, i32) = (self.curr.player.x, self.curr.player.y);
        let amid = i32::MIN < x && x < i32::MAX && i32::MIN < y && y < i32::MAX;
        if self.curr.menu.is_some() {
            return true;
        }
        let w = match self.curr.transition {
            Some(Transition::FadeOut { warp, t, door: _ }) => if t + 1 >= FADE_T {
                warp
            } else {
                return true;
            },
            Some(Transition::DoorOpen { x: _, y: _, t }) => return amid || t + 1 < DOOR_T,
            Some(Transition::FadeIn { t, door: _ }) => return amid || t + 1 < FADE_T,
            Some(Transition::DoorClose { .. }) => return true,
            Some(_) => return amid,
            None => {
                if input.start && !self.curr.prev_input.start {
                    return true;
                }
                if !amid || !self.curr.levitate {
                    return amid;
                }
                match self.act(input).1.warp {
                    Some(w) => w,
                    None => return true,
                }
            },
        };
        (w.to_realm as usize) < self.graph.realms.len()
    }

    /// Advance one fixed step.
    pub fn step(&mut self, input: Input) -> (events: StepEvents)
        requires
            old(self).wf(),
            steady(old(self).graph, old(self).curr, input),
        ensures
            final(self).wf(),
            final(self).graph == old(self).graph,
            final(self).baked == old(self).baked,
            final(self).tex == old(self).tex,
            final(self).font_widths == old(self).font_widths,
            (Turn {
                prev: final(self).prev,
                curr: final(self).curr,
                snapshot: bytes_of(final(self).snapshot),
                events,
                aim: final(self).aim,
            }) == turn_of(
                old(self).graph,
                old(self).curr,
                bytes_of(old(self).snapshot),
                input,
            ),
    {
        let was = self.curr.prev_input;
        let before = self.curr;
        if self.curr.menu.is_some() {
            self.prev = before;
            self.aim = Aim { follow: false, zoom_in: false, zoom_out: false, jump: false };
            self.tick(input);
            self.step_menu(input, was);
            return StepEvents::default();
        }
        let m = if let Some(tr) = before.transition {
            self.tick(input);
            let s = self.curr;
            advance_transition(&self.graph, s, tr)
        } else if input.start && !was.start {
            self.tick(input);
            let mut s = self.curr;
            s.menu = Some(0);
            Move {
                state: s,
                events: StepEvents::default(),
                aim: Aim { follow: false, zoom_in: false, zoom_out: false, jump: false },
            }
        } else {
            self.roam(input)
        };
        self.prev = if m.aim.jump { m.state } else { before };
        self.curr = m.state;
        self.aim = m.aim;
        m.events
    }

    /// A step of the overworld.
    fn roam(&self, input: Input) -> (m: Move)
        requires
            self.wf(),
            self.curr.menu is None,
            self.curr.transition is None,
            !pressed(input.start, self.curr.prev_input.start),
            steady(self.graph, self.curr, input),
        ensures
            m == roaming(self.graph, self.curr, input),
            m.state.wf(),
            m.state.realm < self.graph.realms@.len(),
    {
        let (player, ev): (Player, StepEvents) = self.act(input);
        let was = self.curr;
        let s = State {
            prev_input: input,
            ticks: if was.ticks == u32::MAX { 0 } else { was.ticks + 1 },
            player,
            ..was
        };
        let aim = Aim {
            follow: true,
            zoom_in: input.zoom_in,
            zoom_out: input.zoom_out,
            jump: ev.warp.is_some(),
        };
        assert(s == (State { player, ..ticked(self.curr, input) }));
        let (s1, ev1): (State, StepEvents) = match ev.door_enter {
            Some((x, y)) => (
                State { transition: Some(Transition::DoorOpen { x, y, t: 0 }), ..s },
                StepEvents { sfx: Some("se_door"), ..ev },
            ),
            None => (s, ev),
        };
        match ev.warp {
            None => Move { state: s1, events: ev1, aim },
            Some(w) => if was.levitate {
                Move { state: cross(&self.graph, s1, w), events: ev1, aim }
            } else {
                Move {
                    state: State {
                        transition: Some(Transition::FadeOut { warp: w, t: 0, door: false }),
                        ..s1
                    },
                    events: StepEvents { sfx: Some("se_exit"), ..ev1 },
                    aim,
                }
            },
        }
    }

    fn tick(&mut self, input: Input)
        ensures
            *final(self) == (World { curr: ticked(old(self).curr, input), ..*old(self) }),
    {
        self.curr.prev_input = input;
        self.curr.ticks = if self.curr.ticks == u32::MAX { 0 } else { self.curr.ticks + 1 };
    }

    fn step_menu(&mut self, input: Input, was: Input)
        requires
            old(self).wf(),
            old(self).curr.menu is Some,
            old(self).prev.prev_input == was,
            old(self).curr == ticked(old(self).prev, input),
            old(self).aim == at_rest(),
        ensures
            final(self).wf(),
            final(self).graph == old(self).graph,
            final(self).baked == old(self).baked,
            final(self).tex == old(self).tex,
            final(self).font_widths == old(self).font_widths,
            (Turn {
                prev: final(self).prev,
                curr: final(self).curr,
                snapshot: bytes_of(final(self).snapshot),
                events: player::no_events(),
                aim: final(self).aim,
            }) == menu_turn(
                old(self).graph,
                old(self).prev,
                bytes_of(old(self).snapshot),
                input,
                old(self).curr.menu->0,
            ),
    {
        let cursor: u8 = match self.curr.menu {
            Some(c) => c,
            None => 0,
        };
        if input.up && !was.up {
            self.curr.menu = Some((cursor + MENU_LEN - 1) % MENU_LEN);
        }
        if input.down && !was.down {
            self.curr.menu = Some((cursor + 1) % MENU_LEN);
        }
        if (input.b && !was.b) || (input.start && !was.start) {
            self.curr.menu = None;
        } else if input.a && !was.a {
            if cursor == 0 {
                self.curr.levitate = !self.curr.levitate;
            } else if cursor == 1 {
                self.curr.cam.zoom = zoom_after(self.curr.cam.zoom);
            } else if cursor == 2 {
                self.snapshot = Some(self.curr.to_bytes());
                self.curr.menu = None;
            } else if cursor == 3 {
                let snap = match &self.snapshot {
                    Some(b) => Some(add_bytes(b)),
                    None => None,
                };
                if let Some(b) = snap {
                    let _ = self.load_state(b.as_slice());
                }
            } else {
                self.curr.menu = None;
            }
        }
    }
}

/// A step of the warp choreography.
#[verifier::rlimit(60)]
pub fn advance_transition(g: &RealmGraph, s: State, tr: Transition) -> (m: Move)
    requires
        g.wf(),
        s.wf(),
        s.realm < g.realms@.len(),
        s.transition == Some(tr),
        sets_off(tr) ==> crate::game::map::has_neighbours(s.player.x)
            && crate::game::map::has_neighbours(s.player.y),
        tr matches Transition::FadeOut { warp, t, .. } ==> t + 1 < FADE_T || warp.to_realm
            < g.realms@.len(),
    ensures
        m == passage(*g, s, tr),
        m.state.wf(),
        m.state.realm < g.realms@.len(),
{
    let still = Aim { follow: false, zoom_in: false, zoom_out: false, jump: false };
    let follow = Aim { follow: true, zoom_in: false, zoom_out: false, jump: false };
    let events = StepEvents::default();
    match tr {
        Transition::DoorOpen { x, y, t } => if t + 1 >= DOOR_T {
            let mut player = s.player;
            player.force_move(s.player.facing);
            let transition = Some(Transition::DoorWait { x, y });
            Move { state: State { player, transition, ..s }, events, aim: still }
        } else {
            let transition = Some(Transition::DoorOpen { x, y, t: t + 1 });
            Move { state: State { transition, ..s }, events, aim: still }
        },
        Transition::DoorWait { x: _, y: _ } => {
            let (player, ev): (Player, StepEvents) = step_unsteered(g, s);
            let transition = match ev.warp {
                Some(w) => Some(Transition::FadeOut { warp: w, t: 0, door: true }),
                None => if player.motion == Motion::Idle {
                    None
                } else {
                    s.transition
                },
            };
            Move { state: State { player, transition, ..s }, events, aim: follow }
        },
        Transition::FadeOut { warp, t, door } => if t + 1 >= FADE_T {
            let there = cross(g, s, warp);
            let transition = Some(Transition::FadeIn { t: 0, door });
            let jump = Aim { follow: true, zoom_in: false, zoom_out: false, jump: true };
            Move { state: State { transition, ..there }, events, aim: jump }
        } else {
            let transition = Some(Transition::FadeOut { warp, t: t + 1, door });
            Move { state: State { transition, ..s }, events, aim: still }
        },
        Transition::FadeIn { t, door } => if t + 1 < FADE_T {
            let transition = Some(Transition::FadeIn { t: t + 1, door });
            Move { state: State { transition, ..s }, events, aim: still }
        } else if g.door_at(s.realm, s.player.x, s.player.y).is_some() {
            // walk down off the exterior door and close it behind
            let mut player = s.player;
            player.force_move(Facing::Down);
            let transition = Some(
                Transition::ExitWalk { door_xy: Some((s.player.x, s.player.y)) },
            );
            let events = StepEvents { sfx: Some("se_door"), ..events };
            Move { state: State { player, transition, ..s }, events, aim: still }
        } else {
            Move { state: State { transition: None, ..s }, events, aim: still }
        },
        Transition::ExitWalk { door_xy } => {
            let (player, _): (Player, StepEvents) = step_unsteered(g, s);
            let transition = if player.motion != Motion::Idle {
                s.transition
            } else {
                match door_xy {
                    Some((x, y)) => Some(Transition::DoorClose { x, y, t: 0 }),
                    None => None,
                }
            };
            Move { state: State { player, transition, ..s }, events, aim: follow }
        },
        Transition::DoorClose { x, y, t } => {
            let transition = if t + 1 < DOOR_T {
                Some(Transition::DoorClose { x, y, t: t + 1 })
            } else {
                None
            };
            Move { state: State { transition, ..s }, events, aim: still }
        },
    }
}

/// Take a player through a warp.
fn cross(g: &RealmGraph, before: State, w: Warp) -> (s: State)
    requires
        g.wf(),
        before.wf(),
        w.to_realm < g.realms@.len(),
    ensures
        s == warped(*g, before, w),
        s.wf(),
        s.realm == w.to_realm,
{
    proof {
        reveal(warped);
        crate::game::map::lemma_elevations(g.realms@[w.to_realm as int]);
    }
    let mut s = before;
    s.realm = w.to_realm;
    s.player.apply_warp(w, g.realm(w.to_realm));
    s
}

fn step_unsteered(g: &RealmGraph, s: State) -> (r: (Player, StepEvents))
    requires
        g.wf(),
        s.wf(),
        s.realm < g.realms@.len(),
        crate::game::map::has_neighbours(s.player.x),
        crate::game::map::has_neighbours(s.player.y),
    ensures
        r == unsteered(*g, s),
        state::saveable(r.0),
{
    proof {
        reveal(unsteered);
    }
    let mut ev = StepEvents::default();
    let mut p = s.player;
    p.step(Input::default(), g, s.realm, false, false, &mut ev);
    proof {
        lemma_stepped_saveable(
            *g,
            s.realm as int,
            s.player,
            player::no_events(),
            types::no_input(),
            false,
            false,
        );
    }
    (p, ev)
}

} // verus!
