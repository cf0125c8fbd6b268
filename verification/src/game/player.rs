//! Player movement on the fixed-step sim.
//!
//! - Movement is tile by tile. Pressing a direction the player is not facing
//!   turns first (8 frames); pressing the faced direction commits a one-tile
//!   move. The tile coordinate updates at move start, and the glide covers
//!   the remaining pixels over the following steps.
//! - In motion, turning is instant, and a held direction chains straight into
//!   the next tile. The Mach bike also coasts.
//! - Collision, elevation and surfable water decide which tiles can be
//!   entered.

use vstd::prelude::*;
use crate::game::map::{MapIdx, Realm, RealmGraph, RealmId, Warp};
use crate::single;
use crate::single::{bits_of, take_away, EIGHT, SIX, SIXTEEN};
use crate::types::Input;

verus! {

/// Walking: 1 px per frame, 16 frames per tile.
pub const WALK_PX_PER_STEP: u8 = 1;

/// Running: 2 px per frame, 8 frames per tile.
pub const RUN_PX_PER_STEP: u8 = 2;

/// The Mach bike's top tier: 4 px per frame, 4 frames per tile.
pub const BIKE_TOP_PX_PER_STEP: u8 = 4;

/// How long a turn in place takes.
pub const TURN_STEPS: u8 = 8;

/// What the player is riding. The Mach bike carries its speed tier: 1, 2, 4
/// px per frame, climbing one tier per tile while pedaling and coasting back
/// down when the pad is released.
#[derive(Clone, Copy, Debug, PartialEq, Eq, Structural)]
pub enum Avatar {
    Walking,
    Surfing,
    /// `tier` selects the speed; `momentum` is how many tiles the bike coasts
    /// after the pad is released, one tier down per tile. A single tapped
    /// tile leaves momentum at 0.
    Bike { tier: u8, momentum: u8 },
}

#[derive(Clone, Copy, Debug, PartialEq, Eq, Structural)]
pub enum Facing {
    Up,
    Down,
    Left,
    Right,
}

#[derive(Clone, Copy, Debug, PartialEq, Eq, Structural)]
pub enum Motion {
    Idle,
    Turning { steps_left: u8 },
    /// `remaining_px` counts from 16 down along the current facing (the bits
    /// of a single). `speed` is locked at move start.
    Moving { remaining_px: u32, speed: u8 },
}

#[derive(Clone, Copy, Debug, PartialEq, Eq, Structural)]
pub struct Player {
    /// Tile coords, updated at move start.
    pub x: i32,
    pub y: i32,
    pub facing: Facing,
    pub motion: Motion,
    /// Alternates each completed step or turn; picks the walk frame.
    pub step_loop: u8,
    pub avatar: Avatar,
    /// Updated from each tile stood on (except bridges); mismatches block
    /// movement.
    pub elevation: u8,
    /// The map the player is standing in (None = outside any map).
    pub current_map: Option<MapIdx>,
}

/// What a step of the sim gave rise to.
#[derive(Clone, Copy, Debug, PartialEq)]
pub struct StepEvents {
    /// Player crossed into a different map of the active realm this step.
    pub entered_map: Option<MapIdx>,
    /// Player finished a step onto a warp tile: switch realms.
    pub warp: Option<Warp>,
    /// Player pushed against an animated door with a warp.
    pub door_enter: Option<(i32, i32)>,
    /// A sound effect to play.
    pub sfx: Option<&'static str>,
}

/// Nothing happened.
pub open spec fn no_events() -> StepEvents {
    StepEvents { entered_map: None, warp: None, door_enter: None, sfx: None }
}

impl Default for StepEvents {
    fn default() -> (e: StepEvents)
        ensures
            e == no_events(),
    {
        StepEvents { entered_map: None, warp: None, door_enter: None, sfx: None }
    }
}

// ---- the rules -----------------------------------------------------------

pub open spec fn delta_of(f: Facing) -> (int, int) {
    match f {
        Facing::Up => (0, -1),
        Facing::Down => (0, 1),
        Facing::Left => (-1, 0),
        Facing::Right => (1, 0),
    }
}

/// The tile that a player would enter.
pub open spec fn ahead(p: Player, dir: Facing) -> (int, int) {
    (p.x + delta_of(dir).0, p.y + delta_of(dir).1)
}

/// The held direction: up before down before left before right.
pub open spec fn held(input: Input) -> Option<Facing> {
    if input.up {
        Some(Facing::Up)
    } else if input.down {
        Some(Facing::Down)
    } else if input.left {
        Some(Facing::Left)
    } else if input.right {
        Some(Facing::Right)
    } else {
        None
    }
}

/// Whether a player can step onto a tile: collision, the split between
/// walkers and surfers (a surfer may go ashore), then the elevation match
/// (transitions and bridges always pass). Levitating, only the edge of the
/// realm stops.
pub open spec fn enters(g: RealmGraph, realm: int, p: Player, x: int, y: int, levitate: bool) -> bool {
    let r = g.realms@[realm];
    r.inside(x, y) && (levitate || match r.cell_at(x, y) {
        None => true,
        Some(c) => if c.collision != 0 {
            false
        } else if (p.avatar == Avatar::Surfing) != g.is_surfable(c) {
            p.avatar == Avatar::Surfing
        } else if c.elevation != 0 && c.elevation != 15 && p.elevation != 0 {
            c.elevation == p.elevation
        } else {
            true
        },
    })
}

/// The speed of a move that starts now.
pub open spec fn speed_of(a: Avatar, run: bool) -> u8 {
    match a {
        Avatar::Walking => if run {
            RUN_PX_PER_STEP
        } else {
            WALK_PX_PER_STEP
        },
        Avatar::Surfing => RUN_PX_PER_STEP,
        Avatar::Bike { tier, .. } => if tier == 0 {
            WALK_PX_PER_STEP
        } else if tier == 1 {
            RUN_PX_PER_STEP
        } else {
            BIKE_TOP_PX_PER_STEP
        },
    }
}

/// After a pedaled move begins: the momentum of the tier that chose its
/// speed, then the next tier.
pub open spec fn pedaled(a: Avatar) -> Avatar {
    match a {
        Avatar::Bike { tier, .. } => Avatar::Bike {
            tier: if tier == 0 {
                1
            } else {
                2
            },
            momentum: (tier + tier / 2) as u8,
        },
        other => other,
    }
}

/// A bike that stands.
pub open spec fn stilled(a: Avatar) -> Avatar {
    match a {
        Avatar::Bike { .. } => Avatar::Bike { tier: 0, momentum: 0 },
        other => other,
    }
}

/// A bike one tier down, if it still rolls.
pub open spec fn coasted(a: Avatar) -> Option<Avatar> {
    match a {
        Avatar::Bike { tier, momentum } => if momentum > 0 {
            Some(
                Avatar::Bike {
                    tier: if momentum - 1 < 2 {
                        (momentum - 1) as u8
                    } else {
                        2
                    },
                    momentum: (momentum - 1) as u8,
                },
            )
        } else {
            None
        },
        _ => None,
    }
}

/// A move onto the tile ahead. A surfer that lands goes on foot. The first
/// move from a standstill covers its first step at once.
pub open spec fn moving(
    g: RealmGraph,
    realm: int,
    p: Player,
    dir: Facing,
    run: bool,
    full: bool,
    pedaling: bool,
) -> Player {
    let (nx, ny) = ahead(p, dir);
    let ashore = p.avatar == Avatar::Surfing && !g.surfable_on(realm, nx, ny);
    let avatar = if ashore {
        Avatar::Walking
    } else {
        p.avatar
    };
    let speed = speed_of(avatar, run);
    Player {
        x: nx as i32,
        y: ny as i32,
        facing: dir,
        motion: Motion::Moving {
            remaining_px: if full {
                SIXTEEN
            } else {
                single::single_of((16 - speed) as u32) as u32
            },
            speed,
        },
        avatar: if pedaling {
            pedaled(avatar)
        } else {
            avatar
        },
        ..p
    }
}

/// A forced single step at walk speed.
pub open spec fn forced(p: Player, dir: Facing) -> Player {
    Player {
        x: ahead(p, dir).0 as i32,
        y: ahead(p, dir).1 as i32,
        facing: dir,
        motion: Motion::Moving { remaining_px: SIXTEEN, speed: WALK_PX_PER_STEP },
        ..p
    }
}

/// A player on the surf blob, hopping onto the water ahead.
pub open spec fn mounted(g: RealmGraph, realm: int, p: Player) -> Player {
    let (nx, ny) = ahead(p, p.facing);
    let elevation = match g.realms@[realm].cell_at(nx, ny) {
        Some(c) => if c.elevation != 0 && c.elevation != 15 {
            c.elevation
        } else {
            p.elevation
        },
        None => p.elevation,
    };
    forced(Player { avatar: Avatar::Surfing, elevation, ..p }, p.facing)
}

/// The direction that an arrow-warp tile wants.
pub open spec fn arrow_facing(d: u8) -> Facing {
    if d == 1 {
        Facing::Down
    } else if d == 2 {
        Facing::Up
    } else if d == 3 {
        Facing::Right
    } else {
        Facing::Left
    }
}

/// The warp that pressing a direction on an arrow-warp tile fires.
pub open spec fn arrow_warp_of(g: RealmGraph, realm: int, p: Player, dir: Facing) -> Option<Warp> {
    match g.arrow_on(realm, p.x as int, p.y as int) {
        None => None,
        Some(d) => if dir == arrow_facing(d) {
            g.realms@[realm].warp_on(p.x as int, p.y as int)
        } else {
            None
        },
    }
}

/// The elevation after standing on a tile: a bridge leaves it alone.
pub open spec fn elevation_on(r: Realm, x: int, y: int, was: u8) -> u8 {
    match r.cell_at(x, y) {
        Some(c) => if c.elevation != 15 {
            c.elevation
        } else {
            was
        },
        None => was,
    }
}

/// A finished step: the map stood in (the last one, outside any), the
/// elevation, and the warp of the tile unless it waits for an arrow press.
pub open spec fn taken(g: RealmGraph, realm: int, p: Player, ev: StepEvents) -> (
    Player,
    StepEvents,
) {
    let r = g.realms@[realm];
    let (x, y) = (p.x as int, p.y as int);
    let here = r.map_on(x, y);
    (
        Player {
            current_map: if here is Some {
                here
            } else {
                p.current_map
            },
            elevation: elevation_on(r, x, y, p.elevation),
            ..p
        },
        StepEvents {
            entered_map: if here is Some && here != p.current_map {
                here
            } else {
                ev.entered_map
            },
            warp: if g.arrow_on(realm, x, y) is None {
                r.warp_on(x, y)
            } else {
                ev.warp
            },
            ..ev
        },
    )
}

/// Whether pushing at a tile opens an animated door.
pub open spec fn opens_door(g: RealmGraph, realm: int, x: int, y: int, levitate: bool) -> bool {
    !levitate && g.realms@[realm].warp_on(x, y) is Some && g.door_on(realm, x, y) is Some
}

/// The low bit turned.
pub open spec fn alternated(n: u8) -> u8 {
    if n % 2 == 0 {
        (n + 1) as u8
    } else {
        (n - 1) as u8
    }
}

/// A step from a standstill.
pub open spec fn from_idle(
    g: RealmGraph,
    realm: int,
    p: Player,
    ev: StepEvents,
    input: Input,
    run: bool,
    levitate: bool,
) -> (Player, StepEvents) {
    match held(input) {
        None => (p, ev),
        Some(dir) => if p.facing != dir {
            (
                Player {
                    facing: dir,
                    avatar: stilled(p.avatar),
                    motion: Motion::Turning { steps_left: TURN_STEPS },
                    ..p
                },
                ev,
            )
        } else if arrow_warp_of(g, realm, p, dir) is Some {
            (p, StepEvents { warp: arrow_warp_of(g, realm, p, dir), ..ev })
        } else {
            let (nx, ny) = ahead(p, dir);
            if opens_door(g, realm, nx, ny, levitate) {
                (p, StepEvents { door_enter: Some((nx as i32, ny as i32)), ..ev })
            } else if enters(g, realm, p, nx, ny, levitate) {
                (moving(g, realm, p, dir, run, false, true), ev)
            } else {
                (Player { avatar: stilled(p.avatar), ..p }, ev)
            }
        },
    }
}

/// What follows a finished move: a held direction chains on, a released bike
/// coasts forward.
pub open spec fn chained(
    g: RealmGraph,
    realm: int,
    p: Player,
    ev: StepEvents,
    input: Input,
    run: bool,
    levitate: bool,
) -> (Player, StepEvents) {
    let rolls = held(input) is None && coasted(p.avatar) is Some;
    let q = if rolls {
        Player { avatar: coasted(p.avatar)->0, ..p }
    } else {
        p
    };
    let dir = if rolls {
        Some(p.facing)
    } else {
        held(input)
    };
    match dir {
        None => (Player { avatar: stilled(q.avatar), ..q }, ev),
        Some(dir) => if arrow_warp_of(g, realm, q, dir) is Some {
            (q, StepEvents { warp: arrow_warp_of(g, realm, q, dir), ..ev })
        } else {
            let (nx, ny) = ahead(q, dir);
            if opens_door(g, realm, nx, ny, levitate) {
                (
                    Player { facing: dir, ..q },
                    StepEvents { door_enter: Some((nx as i32, ny as i32)), ..ev },
                )
            } else if enters(g, realm, q, nx, ny, levitate) {
                (moving(g, realm, q, dir, run && !rolls, true, !rolls), ev)
            } else {
                (Player { facing: dir, avatar: stilled(q.avatar), ..q }, ev)
            }
        },
    }
}

/// One fixed step of the player.
#[verifier::opaque]
pub open spec fn stepped(
    g: RealmGraph,
    realm: int,
    p: Player,
    ev: StepEvents,
    input: Input,
    run: bool,
    levitate: bool,
) -> (Player, StepEvents) {
    match p.motion {
        Motion::Idle => from_idle(g, realm, p, ev, input, run, levitate),
        Motion::Turning { steps_left } => if steps_left == 1 {
            (Player { step_loop: alternated(p.step_loop), motion: Motion::Idle, ..p }, ev)
        } else {
            (Player { motion: Motion::Turning { steps_left: (steps_left - 1) as u8 }, ..p }, ev)
        },
        Motion::Moving { remaining_px, speed } => match single::less(remaining_px, speed as int) {
            Some(left) => (
                Player { motion: Motion::Moving { remaining_px: left, speed }, ..p },
                ev,
            ),
            None => {
                let (q, e) = taken(
                    g,
                    realm,
                    Player { motion: Motion::Idle, step_loop: alternated(p.step_loop), ..p },
                    ev,
                );
                if e.warp is None && e.door_enter is None {
                    chained(g, realm, q, e, input, run, levitate)
                } else {
                    (q, e)
                }
            },
        },
    }
}

/// Landing from a warp: facing kept, motion reset.
pub open spec fn landed(p: Player, w: Warp, target: Realm) -> Player {
    Player {
        x: w.to_x,
        y: w.to_y,
        motion: Motion::Idle,
        current_map: target.map_on(w.to_x as int, w.to_y as int),
        elevation: elevation_on(target, w.to_x as int, w.to_y as int, p.elevation),
        ..p
    }
}

pub open spec fn motion_ok(m: Motion) -> bool {
    match m {
        Motion::Idle => true,
        Motion::Turning { steps_left } => steps_left >= 1,
        Motion::Moving { remaining_px, speed } => single::is_distance(remaining_px) && 1 <= speed
            <= 4,
    }
}

pub open spec fn avatar_ok(a: Avatar) -> bool {
    match a {
        Avatar::Bike { tier, .. } => tier <= 170,
        _ => true,
    }
}

impl Player {
    /// What every step keeps.
    pub open spec fn wf(self) -> bool {
        &&& crate::game::map::has_neighbours(self.x)
        &&& crate::game::map::has_neighbours(self.y)
        &&& motion_ok(self.motion)
        &&& avatar_ok(self.avatar)
    }
}

// ---- moving --------------------------------------------------------------

impl Facing {
    pub fn delta(self) -> (d: (i32, i32))
        ensures
            (d.0 as int, d.1 as int) == delta_of(self),
            -1 <= d.0 <= 1,
            -1 <= d.1 <= 1,
    {
        match self {
            Facing::Up => (0, -1),
            Facing::Down => (0, 1),
            Facing::Left => (-1, 0),
            Facing::Right => (1, 0),
        }
    }
}

/// The held direction.
pub fn held_direction(input: Input) -> (r: Option<Facing>)
    ensures
        r == held(input),
{
    if input.up {
        Some(Facing::Up)
    } else if input.down {
        Some(Facing::Down)
    } else if input.left {
        Some(Facing::Left)
    } else if input.right {
        Some(Facing::Right)
    } else {
        None
    }
}

fn turn_bit(n: u8) -> (r: u8)
    ensures
        r == alternated(n),
{
    if n % 2 == 0 {
        n + 1
    } else {
        n - 1
    }
}

impl Player {
    pub fn spawn(x: i32, y: i32, realm: &Realm) -> (p: Player)
        requires
            realm.wf(),
        ensures
            p == (Player {
                x,
                y,
                facing: Facing::Down,
                motion: Motion::Idle,
                step_loop: 0,
                avatar: Avatar::Walking,
                elevation: 3,
                current_map: realm.map_on(x as int, y as int),
            }),
    {
        Player {
            x,
            y,
            facing: Facing::Down,
            motion: Motion::Idle,
            step_loop: 0,
            avatar: Avatar::Walking,
            elevation: 3,
            current_map: realm.map_at(x, y),
        }
    }

    fn next_tile(&self, dir: Facing) -> (n: (i32, i32))
        requires
            self.wf(),
        ensures
            (n.0 as int, n.1 as int) == ahead(*self, dir),
    {
        let (dx, dy): (i32, i32) = dir.delta();
        (self.x + dx, self.y + dy)
    }

    /// Can the player step onto (nx, ny)?
    pub fn can_enter(
        &self,
        g: &RealmGraph,
        realm: RealmId,
        nx: i32,
        ny: i32,
        levitate: bool,
    ) -> (b: bool)
        requires
            g.wf(),
            realm < g.realms@.len(),
        ensures
            b == enters(*g, realm as int, *self, nx as int, ny as int, levitate),
    {
        let r = g.realm(realm);
        if !r.in_bounds(nx, ny) {
            return false;
        }
        if levitate {
            return true;
        }
        let cell = match r.cell(nx, ny) {
            None => return true,
            Some(c) => c,
        };
        if cell.collision != 0 {
            return false;
        }
        let surf = g.surfable(cell);
        let surfing = self.avatar == Avatar::Surfing;
        if surfing != surf {
            return surfing && !surf;
        }
        if cell.elevation != 0 && cell.elevation != 15 && self.elevation != 0 {
            return cell.elevation == self.elevation;
        }
        true
    }

    pub fn speed(&self, run: bool) -> (s: u8)
        ensures
            s == speed_of(self.avatar, run),
            1 <= s <= 4,
    {
        match self.avatar {
            Avatar::Walking => if run {
                RUN_PX_PER_STEP
            } else {
                WALK_PX_PER_STEP
            },
            Avatar::Surfing => RUN_PX_PER_STEP,
            Avatar::Bike { tier, momentum: _ } => if tier == 0 {
                WALK_PX_PER_STEP
            } else if tier == 1 {
                RUN_PX_PER_STEP
            } else {
                BIKE_TOP_PX_PER_STEP
            },
        }
    }

    fn bike_accelerate(&mut self)
        requires
            avatar_ok(old(self).avatar),
        ensures
            *final(self) == (Player { avatar: pedaled(old(self).avatar), ..*old(self) }),
            avatar_ok(final(self).avatar),
    {
        if let Avatar::Bike { tier, momentum: _ } = self.avatar {
            self.avatar = Avatar::Bike {
                tier: if tier == 0 { 1 } else { 2 },
                momentum: tier + tier / 2,
            };
        }
    }

    fn bike_still(&mut self)
        ensures
            *final(self) == (Player { avatar: stilled(old(self).avatar), ..*old(self) }),
    {
        if let Avatar::Bike { .. } = self.avatar {
            self.avatar = Avatar::Bike { tier: 0, momentum: 0 };
        }
    }

    /// Begin a move onto the tile ahead, which the caller has validated.
    fn begin_move(
        &mut self,
        g: &RealmGraph,
        realm: RealmId,
        dir: Facing,
        run: bool,
        full: bool,
        pedaling: bool,
    )
        requires
            g.wf(),
            realm < g.realms@.len(),
            old(self).wf(),
            g.realms@[realm as int].inside(ahead(*old(self), dir).0, ahead(*old(self), dir).1),
        ensures
            *final(self) == moving(*g, realm as int, *old(self), dir, run, full, pedaling),
            final(self).wf(),
    {
        let (nx, ny): (i32, i32) = self.next_tile(dir);
        self.facing = dir;
        if self.avatar == Avatar::Surfing && !g.surfable_at(realm, nx, ny) {
            self.avatar = Avatar::Walking;
        }
        let speed: u8 = self.speed(run);
        self.x = nx;
        self.y = ny;
        proof {
            single::lemma_whole(16 - speed);
        }
        let remaining: u32 = if full { SIXTEEN } else { bits_of(16 - speed as u32) };
        self.motion = Motion::Moving { remaining_px: remaining, speed };
        if pedaling {
            self.bike_accelerate();
        }
    }

    /// Forced single step (door walk-ins, warp arrivals): no collision, no
    /// chaining, walk speed.
    pub fn force_move(&mut self, dir: Facing)
        requires
            old(self).wf(),
        ensures
            *final(self) == forced(*old(self), dir),
    {
        let (nx, ny): (i32, i32) = self.next_tile(dir);
        self.facing = dir;
        self.x = nx;
        self.y = ny;
        self.motion = Motion::Moving { remaining_px: SIXTEEN, speed: WALK_PX_PER_STEP };
    }

    /// Mount the surf blob onto the faced water tile (caller validated).
    pub fn mount_surf(&mut self, g: &RealmGraph, realm: RealmId)
        requires
            g.wf(),
            realm < g.realms@.len(),
            old(self).wf(),
        ensures
            *final(self) == mounted(*g, realm as int, *old(self)),
    {
        let (nx, ny): (i32, i32) = self.next_tile(self.facing);
        self.avatar = Avatar::Surfing;
        if let Some(cell) = g.realm(realm).cell(nx, ny) {
            if cell.elevation != 0 && cell.elevation != 15 {
                self.elevation = cell.elevation;
            }
        }
        let dir = self.facing;
        self.force_move(dir);
    }

    /// Standing on an arrow-warp tile and pressing its direction fires the
    /// warp.
    fn arrow_warp(&self, g: &RealmGraph, realm: RealmId, dir: Facing) -> (r: Option<Warp>)
        requires
            g.wf(),
            realm < g.realms@.len(),
        ensures
            r == arrow_warp_of(*g, realm as int, *self, dir),
    {
        let d: u8 = match g.arrow_dir_at(realm, self.x, self.y) {
            None => return None,
            Some(d) => d,
        };
        let wanted = if d == 1 {
            Facing::Down
        } else if d == 2 {
            Facing::Up
        } else if d == 3 {
            Facing::Right
        } else {
            Facing::Left
        };
        if dir == wanted {
            g.realm(realm).warp_at(self.x, self.y)
        } else {
            None
        }
    }

    /// Refresh which map we are standing in, report a change, check for a
    /// warp edge, and track elevation.
    fn step_taken(&mut self, g: &RealmGraph, realm: RealmId, events: &mut StepEvents)
        requires
            g.wf(),
            realm < g.realms@.len(),
        ensures
            (*final(self), *final(events)) == taken(*g, realm as int, *old(self), *old(events)),
    {
        let r = g.realm(realm);
        let here = r.map_at(self.x, self.y);
        if let Some(h) = here {
            let new = match self.current_map {
                Some(c) => c != h,
                None => true,
            };
            if new {
                events.entered_map = here;
            }
            self.current_map = here;
        }
        if let Some(cell) = r.cell(self.x, self.y) {
            if cell.elevation != 15 {
                self.elevation = cell.elevation;
            }
        }
        if g.arrow_dir_at(realm, self.x, self.y).is_none() {
            events.warp = r.warp_at(self.x, self.y);
        }
    }

    fn door_ahead(g: &RealmGraph, realm: RealmId, nx: i32, ny: i32, levitate: bool) -> (b: bool)
        requires
            g.wf(),
            realm < g.realms@.len(),
        ensures
            b == opens_door(*g, realm as int, nx as int, ny as int, levitate),
    {
        !levitate && g.realm(realm).warp_at(nx, ny).is_some() && g.door_at(
            realm,
            nx,
            ny,
        ).is_some()
    }

    fn step_idle(
        &mut self,
        input: Input,
        g: &RealmGraph,
        realm: RealmId,
        run: bool,
        levitate: bool,
        events: &mut StepEvents,
    )
        requires
            g.wf(),
            realm < g.realms@.len(),
            old(self).wf(),
        ensures
            (*final(self), *final(events)) == from_idle(
                *g,
                realm as int,
                *old(self),
                *old(events),
                input,
                run,
                levitate,
            ),
            final(self).wf(),
    {
        let dir = match held_direction(input) {
            None => return ,
            Some(d) => d,
        };
        if self.facing != dir {
            self.facing = dir;
            self.bike_still();
            self.motion = Motion::Turning { steps_left: TURN_STEPS };
        } else if let Some(w) = self.arrow_warp(g, realm, dir) {
            events.warp = Some(w);
        } else {
            let (nx, ny): (i32, i32) = self.next_tile(dir);
            if Player::door_ahead(g, realm, nx, ny, levitate) {
                events.door_enter = Some((nx, ny));
            } else if self.can_enter(g, realm, nx, ny, levitate) {
                self.begin_move(g, realm, dir, run, false, true);
            } else {
                self.bike_still();
            }
        }
    }

    fn step_chain(
        &mut self,
        input: Input,
        g: &RealmGraph,
        realm: RealmId,
        run: bool,
        levitate: bool,
        events: &mut StepEvents,
    )
        requires
            g.wf(),
            realm < g.realms@.len(),
            old(self).wf(),
        ensures
            (*final(self), *final(events)) == chained(
                *g,
                realm as int,
                *old(self),
                *old(events),
                input,
                run,
                levitate,
            ),
            final(self).wf(),
    {
        let pressed = held_direction(input);
        let mut rolls = false;
        if pressed.is_none() {
            if let Avatar::Bike { tier: _, momentum } = self.avatar {
                if momentum > 0 {
                    let m: u8 = momentum - 1;
                    self.avatar = Avatar::Bike { tier: if m < 2 { m } else { 2 }, momentum: m };
                    rolls = true;
                }
            }
        }
        let dir = if rolls {
            self.facing
        } else {
            match pressed {
                Some(d) => d,
                None => {
                    self.bike_still();
                    return ;
                },
            }
        };
        if let Some(w) = self.arrow_warp(g, realm, dir) {
            events.warp = Some(w);
            return ;
        }
        let (nx, ny): (i32, i32) = self.next_tile(dir);
        if Player::door_ahead(g, realm, nx, ny, levitate) {
            self.facing = dir;
            events.door_enter = Some((nx, ny));
        } else if self.can_enter(g, realm, nx, ny, levitate) {
            self.begin_move(g, realm, dir, run && !rolls, true, !rolls);
        } else {
            self.facing = dir;
            self.bike_still();
        }
    }

    /// One fixed sim step. `run` = B held; `levitate` = walk through
    /// everything.
    pub fn step(
        &mut self,
        input: Input,
        g: &RealmGraph,
        realm: RealmId,
        run: bool,
        levitate: bool,
        events: &mut StepEvents,
    )
        requires
            g.wf(),
            realm < g.realms@.len(),
            old(self).wf(),
        ensures
            (*final(self), *final(events)) == stepped(
                *g,
                realm as int,
                *old(self),
                *old(events),
                input,
                run,
                levitate,
            ),
            final(self).wf(),
    {
        proof {
            reveal(stepped);
        }
        match self.motion {
            Motion::Idle => self.step_idle(input, g, realm, run, levitate, events),
            Motion::Turning { steps_left } => {
                let left: u8 = steps_left - 1;
                if left == 0 {
                    self.step_loop = turn_bit(self.step_loop);
                    self.motion = Motion::Idle;
                } else {
                    self.motion = Motion::Turning { steps_left: left };
                }
            },
            Motion::Moving { remaining_px, speed } => match take_away(remaining_px, speed as u32) {
                Some(left) => {
                    self.motion = Motion::Moving { remaining_px: left, speed };
                },
                None => {
                    self.motion = Motion::Idle;
                    self.step_loop = turn_bit(self.step_loop);
                    self.step_taken(g, realm, events);
                    if events.warp.is_none() && events.door_enter.is_none() {
                        self.step_chain(input, g, realm, run, levitate, events);
                    }
                },
            },
        }
    }

    /// Apply a warp edge: land in the target realm.
    pub fn apply_warp(&mut self, warp: Warp, target: &Realm)
        requires
            target.wf(),
        ensures
            *final(self) == landed(*old(self), warp, *target),
    {
        self.x = warp.to_x;
        self.y = warp.to_y;
        self.motion = Motion::Idle;
        self.current_map = target.map_at(self.x, self.y);
        if let Some(cell) = target.cell(self.x, self.y) {
            if cell.elevation != 15 {
                self.elevation = cell.elevation;
            }
        }
    }

    /// Whether a foot frame shows this frame: the first half of a walked
    /// tile, the first 10 px of a run one, the first half of a turn.
    pub fn anim_walking(&self) -> (b: bool)
        ensures
            b == shows_foot(self.motion),
    {
        match self.motion {
            Motion::Moving { remaining_px, speed } => if speed >= RUN_PX_PER_STEP {
                remaining_px > SIX
            } else {
                remaining_px > EIGHT
            },
            Motion::Turning { steps_left } => steps_left > TURN_STEPS / 2,
            Motion::Idle => false,
        }
    }

    /// True mid-glide at running speed.
    pub fn anim_running(&self) -> (b: bool)
        ensures
            b == runs(self.motion),
    {
        match self.motion {
            Motion::Moving { remaining_px: _, speed } => speed >= RUN_PX_PER_STEP,
            _ => false,
        }
    }
}

pub open spec fn shows_foot(m: Motion) -> bool {
    match m {
        Motion::Moving { remaining_px, speed } => if speed >= RUN_PX_PER_STEP {
            remaining_px > SIX
        } else {
            remaining_px > EIGHT
        },
        Motion::Turning { steps_left } => steps_left > TURN_STEPS / 2,
        Motion::Idle => false,
    }
}

pub open spec fn runs(m: Motion) -> bool {
    m matches Motion::Moving { speed, .. } && speed >= RUN_PX_PER_STEP
}

} // verus!
