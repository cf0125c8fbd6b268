//! What a frame shows, as plain draws: the tiles of a range, the player, and an
//! animated door. Where the interpolated player and the camera put them on the
//! screen is the renderer's business.

use vstd::prelude::*;
use crate::game::bake;
use crate::game::bake::{CellRef, MetatileDraw, NO_CELL};
use crate::game::data::WorldPack;
use crate::game::player;
use crate::game::player::{Avatar, Facing, Player};
use crate::game::state::{State, Transition};
use crate::game::ui::Item;
use crate::game::world::{Textures, World};
use crate::types::{Flip, TextureId};

verus! {

pub const LAYER_BG: i16 = 0;

pub const LAYER_BG_TOP: i16 = 1;

pub const LAYER_PLAYER: i16 = 10;

pub const LAYER_FG: i16 = 20;

/// What a draw is placed by: a tile, or the player's interpolated place.
#[derive(Clone, Copy, Debug, PartialEq, Eq, Structural)]
pub enum Anchor {
    Tile { x: i32, y: i32 },
    Player,
}

/// A rectangle of a texture, in pixels.
#[derive(Clone, Copy, Debug, PartialEq, Eq, Structural)]
pub struct Cut {
    pub x: u32,
    pub y: u32,
    pub w: u32,
    pub h: u32,
}

/// One draw: a cut of a texture, `left` pixels to the left of its anchor,
/// `rise` pixels above it and `bob` below, so many tiles wide and high.
#[derive(Clone, Copy, Debug, PartialEq, Eq, Structural)]
pub struct Sprite {
    pub tex: TextureId,
    pub src: Cut,
    pub anchor: Anchor,
    pub left: u32,
    pub rise: u32,
    pub bob: i32,
    pub tiles_w: u32,
    pub tiles_h: u32,
    pub layer: i16,
    pub flip: Flip,
}

// ---- tiles ---------------------------------------------------------------

pub open spec fn cell_cut(r: CellRef) -> Cut {
    Cut {
        x: (r.0 % bake::PER_ATLAS % bake::PER_ROW * 16) as u32,
        y: (r.0 % bake::PER_ATLAS / bake::PER_ROW * 16) as u32,
        w: 16,
        h: 16,
    }
}

/// A baked cell on a tile.
pub open spec fn cell_sprite(t: Textures, r: CellRef, x: int, y: int, layer: i16) -> Sprite {
    Sprite {
        tex: t.atlases@[(r.0 / bake::PER_ATLAS) as int],
        src: cell_cut(r),
        anchor: Anchor::Tile { x: x as i32, y: y as i32 },
        left: 0,
        rise: 0,
        bob: 0,
        tiles_w: 1,
        tiles_h: 1,
        layer,
        flip: Flip::Straight,
    }
}

/// A metatile on a tile: its bottom layer, then its top layer, which covers the
/// player or not.
pub open spec fn metatile_sprites(t: Textures, d: MetatileDraw, x: int, y: int) -> Seq<Sprite> {
    let bottom = if d.bottom.0 != NO_CELL {
        seq![cell_sprite(t, d.bottom, x, y, LAYER_BG)]
    } else {
        seq![]
    };
    let layer = if d.top_above_player {
        LAYER_FG
    } else {
        LAYER_BG_TOP
    };
    if d.top.0 != NO_CELL {
        bottom.push(cell_sprite(t, d.top, x, y, layer))
    } else {
        bottom
    }
}

/// What a tile of the active realm shows.
pub open spec fn tile_sprites(w: World, x: int, y: int) -> Seq<Sprite> {
    match w.graph.realms@[w.curr.realm as int].cell_at(x, y) {
        None => seq![],
        Some(c) => metatile_sprites(w.tex, w.baked.drawn(c.pair as int, c.metatile as int), x, y),
    }
}

/// The tiles of a row from `x0` up to `x`.
pub open spec fn row_sprites(w: World, x0: int, x: int, y: int) -> Seq<Sprite>
    decreases x - x0,
{
    if x <= x0 {
        seq![]
    } else {
        row_sprites(w, x0, x - 1, y) + tile_sprites(w, x - 1, y)
    }
}

/// The rows from `y0` up to `y`.
pub open spec fn area_sprites(w: World, x0: int, x1: int, y0: int, y: int) -> Seq<Sprite>
    decreases y - y0,
{
    if y <= y0 {
        seq![]
    } else {
        area_sprites(w, x0, x1, y0, y - 1) + row_sprites(w, x0, x1, y - 1)
    }
}

// ---- the player ----------------------------------------------------------

/// The frame of a standing player in the sheets.
pub open spec fn stand_frame(f: Facing) -> u32 {
    match f {
        Facing::Down => 0,
        Facing::Up => 1,
        _ => 2,
    }
}

/// The two walk frames of a facing, by the step loop.
pub open spec fn walk_frame(f: Facing, step_loop: u8) -> u32 {
    let second = step_loop % 2 == 1;
    match f {
        Facing::Down => if second {
            4
        } else {
            3
        },
        Facing::Up => if second {
            6
        } else {
            5
        },
        _ => if second {
            8
        } else {
            7
        },
    }
}

/// Facing right is facing left, mirrored.
pub open spec fn side_flip(f: Facing) -> Flip {
    match f {
        Facing::Right => Flip::H,
        _ => Flip::Straight,
    }
}

/// The frame of a player: a foot forward in the first part of a stride, but
/// never while levitating.
pub open spec fn body_frame(p: Player, levitate: bool) -> u32 {
    if !levitate && player::shows_foot(p.motion) {
        walk_frame(p.facing, p.step_loop)
    } else {
        stand_frame(p.facing)
    }
}

/// Whether what hovers is in the lower half of its bob: sixteen frames each.
pub open spec fn in_bob(ticks: u32) -> bool {
    ticks / 16 % 2 == 1
}

/// The place of a facing in the sheet of the surf blob.
pub open spec fn surf_frame(f: Facing) -> u32 {
    match f {
        Facing::Down => 0,
        Facing::Up => 1,
        _ => 2,
    }
}

/// A frame of 32 by 32 pixels.
pub open spec fn big_cut(frame: u32) -> Cut {
    Cut { x: (frame * 32) as u32, y: 0, w: 32, h: 32 }
}

/// The player as it rides: the blob and its rider, the bike, or on foot, where
/// running has a row of its own.
pub open spec fn player_sprites(t: Textures, s: State) -> Seq<Sprite> {
    let p = s.player;
    let hover = if s.levitate && in_bob(s.ticks) {
        -1i32
    } else {
        0i32
    };
    match p.avatar {
        Avatar::Surfing => {
            let bob = if in_bob(s.ticks) {
                1i32
            } else {
                0i32
            };
            let blob = Sprite {
                tex: t.surf_blob,
                src: big_cut(surf_frame(p.facing)),
                anchor: Anchor::Player,
                left: 8,
                rise: 0,
                bob,
                tiles_w: 2,
                tiles_h: 2,
                layer: 9,
                flip: side_flip(p.facing),
            };
            let rider = Sprite {
                tex: t.surf_player,
                src: big_cut((2 * surf_frame(p.facing)) as u32),
                rise: 6,
                layer: LAYER_PLAYER,
                ..blob
            };
            seq![blob, rider]
        },
        Avatar::Bike { .. } => seq![
            Sprite {
                tex: t.bike,
                src: big_cut(body_frame(p, s.levitate)),
                anchor: Anchor::Player,
                left: 8,
                rise: 0,
                bob: hover,
                tiles_w: 2,
                tiles_h: 2,
                layer: LAYER_PLAYER,
                flip: side_flip(p.facing),
            },
        ],
        Avatar::Walking => seq![
            Sprite {
                tex: t.player,
                src: Cut {
                    x: (body_frame(p, s.levitate) * 16) as u32,
                    y: if !s.levitate && player::runs(p.motion) {
                        32
                    } else {
                        0
                    },
                    w: 16,
                    h: 32,
                },
                anchor: Anchor::Player,
                left: 0,
                rise: 0,
                bob: hover,
                tiles_w: 1,
                tiles_h: 2,
                layer: LAYER_PLAYER,
                flip: side_flip(p.facing),
            },
        ],
    }
}

// ---- doors ---------------------------------------------------------------

/// The animated door in progress: its tile and its frame, if it shows one.
pub open spec fn door_frame(s: State) -> Option<(i32, i32, u32)> {
    match s.transition {
        Some(Transition::DoorOpen { x, y, t }) => if t < 4 {
            None
        } else {
            Some((x, y, if t / 4 - 1 < 2 { (t / 4 - 1) as u32 } else { 2 }))
        },
        Some(Transition::DoorWait { x, y }) => Some((x, y, 2)),
        Some(Transition::FadeOut { door, .. }) => if door {
            Some((s.player.x, s.player.y, 2))
        } else {
            None
        },
        Some(Transition::ExitWalk { door_xy }) => match door_xy {
            Some((x, y)) => Some((x, y, 2)),
            None => None,
        },
        Some(Transition::DoorClose { x, y, t }) => if t / 4 > 2 {
            None
        } else {
            Some((x, y, (2 - t / 4) as u32))
        },
        _ => None,
    }
}

/// The door and the tile above it, under the player.
pub open spec fn door_sprites(w: World) -> Seq<Sprite> {
    match door_frame(w.curr) {
        None => seq![],
        Some((x, y, frame)) => match w.graph.door_on(w.curr.realm as int, x as int, y as int) {
            None => seq![],
            Some(d) => seq![
                Sprite {
                    tex: w.tex.doors@[d as int],
                    src: Cut { x: 0, y: (frame * 32) as u32, w: 16, h: 32 },
                    anchor: Anchor::Tile { x, y: (y - 1) as i32 },
                    left: 0,
                    rise: 0,
                    bob: 0,
                    tiles_w: 1,
                    tiles_h: 2,
                    layer: 8,
                    flip: Flip::Straight,
                },
            ],
        },
    }
}

/// What a frame shows of the tiles from (x0, y0) up to (x1, y1).
pub open spec fn scene_sprites(w: World, x0: int, y0: int, x1: int, y1: int) -> Seq<Sprite> {
    area_sprites(w, x0, x1, y0, y1) + player_sprites(w.tex, w.curr) + door_sprites(w)
}

/// A fade in progress: whether it fades out, and how many of its frames are
/// over.
pub open spec fn fade_of(s: State) -> Option<(bool, u8)> {
    match s.transition {
        Some(Transition::FadeOut { t, .. }) => Some((true, t)),
        Some(Transition::FadeIn { t, .. }) => Some((false, t)),
        _ => None,
    }
}

fn sprite_of(t: &Textures, r: CellRef, x: i32, y: i32, layer: i16) -> (s: Sprite)
    requires
        r.0 / bake::PER_ATLAS < t.atlases@.len(),
    ensures
        s == cell_sprite(*t, r, x as int, y as int, layer),
{
    let (sx, sy, w, h): (u32, u32, u32, u32) = r.src();
    Sprite {
        tex: t.atlases[r.atlas()],
        src: Cut { x: sx, y: sy, w, h },
        anchor: Anchor::Tile { x, y },
        left: 0,
        rise: 0,
        bob: 0,
        tiles_w: 1,
        tiles_h: 1,
        layer,
        flip: Flip::Straight,
    }
}

fn flip_for(f: Facing) -> (r: Flip)
    ensures
        r == side_flip(f),
{
    match f {
        Facing::Right => Flip::H,
        _ => Flip::Straight,
    }
}

fn frame_for(p: &Player, levitate: bool) -> (f: u32)
    ensures
        f == body_frame(*p, levitate),
        f <= 8,
{
    if !levitate && p.anim_walking() {
        let second: u32 = if p.step_loop % 2 == 1 { 1 } else { 0 };
        match p.facing {
            Facing::Down => 3 + second,
            Facing::Up => 5 + second,
            _ => 7 + second,
        }
    } else {
        match p.facing {
            Facing::Down => 0,
            Facing::Up => 1,
            _ => 2,
        }
    }
}

proof fn lemma_last_door(doors: Seq<(u16, u16)>, key: (u16, u16), n: int)
    requires
        0 <= n <= doors.len(),
    ensures
        crate::game::map::last_door(doors, key, n) matches Some(d) ==> d < n,
    decreases n,
{
    if n > 0 {
        lemma_last_door(doors, key, n - 1);
    }
}

impl World {
    fn show_tile(&self, x: i32, y: i32, out: &mut Vec<Sprite>)
        requires
            self.wf(),
        ensures
            final(out)@ == old(out)@ + tile_sprites(*self, x as int, y as int),
    {
        let c = match self.graph.realm(self.curr.realm).cell(x, y) {
            None => {
                assert(out@ =~= old(out)@ + tile_sprites(*self, x as int, y as int));
                return ;
            },
            Some(c) => c,
        };
        let d = self.baked.draw(c.pair, c.metatile);
        if d.bottom.0 != NO_CELL {
            out.push(sprite_of(&self.tex, d.bottom, x, y, LAYER_BG));
        }
        if d.top.0 != NO_CELL {
            let layer: i16 = if d.top_above_player { LAYER_FG } else { LAYER_BG_TOP };
            out.push(sprite_of(&self.tex, d.top, x, y, layer));
        }
        assert(out@ =~= old(out)@ + tile_sprites(*self, x as int, y as int));
    }

    fn show_player(&self, out: &mut Vec<Sprite>)
        ensures
            final(out)@ == old(out)@ + player_sprites(self.tex, self.curr),
    {
        let s = &self.curr;
        let p = &s.player;
        let low = s.ticks / 16 % 2 == 1;
        let hover: i32 = if s.levitate && low { -1 } else { 0 };
        let flip = flip_for(p.facing);
        match p.avatar {
            Avatar::Surfing => {
                let bob: i32 = if low { 1 } else { 0 };
                let frame: u32 = match p.facing {
                    Facing::Down => 0,
                    Facing::Up => 1,
                    _ => 2,
                };
                let blob = Sprite {
                    tex: self.tex.surf_blob,
                    src: Cut { x: frame * 32, y: 0, w: 32, h: 32 },
                    anchor: Anchor::Player,
                    left: 8,
                    rise: 0,
                    bob,
                    tiles_w: 2,
                    tiles_h: 2,
                    layer: LAYER_PLAYER - 1,
                    flip,
                };
                let rider = Sprite {
                    tex: self.tex.surf_player,
                    src: Cut { x: 2 * frame * 32, y: 0, w: 32, h: 32 },
                    rise: 6,
                    layer: LAYER_PLAYER,
                    ..blob
                };
                out.push(blob);
                out.push(rider);
            },
            Avatar::Bike { .. } => {
                let frame: u32 = frame_for(p, s.levitate);
                out.push(
                    Sprite {
                        tex: self.tex.bike,
                        src: Cut { x: frame * 32, y: 0, w: 32, h: 32 },
                        anchor: Anchor::Player,
                        left: 8,
                        rise: 0,
                        bob: hover,
                        tiles_w: 2,
                        tiles_h: 2,
                        layer: LAYER_PLAYER,
                        flip,
                    },
                );
            },
            Avatar::Walking => {
                let frame: u32 = frame_for(p, s.levitate);
                let row: u32 = if !s.levitate && p.anim_running() { 32 } else { 0 };
                out.push(
                    Sprite {
                        tex: self.tex.player,
                        src: Cut { x: frame * 16, y: row, w: 16, h: 32 },
                        anchor: Anchor::Player,
                        left: 0,
                        rise: 0,
                        bob: hover,
                        tiles_w: 1,
                        tiles_h: 2,
                        layer: LAYER_PLAYER,
                        flip,
                    },
                );
            },
        }
        assert(out@ =~= old(out)@ + player_sprites(self.tex, self.curr));
    }

    fn door_shown(&self) -> (r: Option<(i32, i32, u32)>)
        ensures
            r == door_frame(self.curr),
            r matches Some(d) ==> d.2 <= 2,
    {
        match self.curr.transition {
            Some(Transition::DoorOpen { x, y, t }) => if t < 4 {
                None
            } else if t / 4 - 1 < 2 {
                Some((x, y, (t / 4 - 1) as u32))
            } else {
                Some((x, y, 2))
            },
            Some(Transition::DoorWait { x, y }) => Some((x, y, 2)),
            Some(Transition::FadeOut { warp: _, t: _, door }) => if door {
                Some((self.curr.player.x, self.curr.player.y, 2))
            } else {
                None
            },
            Some(Transition::ExitWalk { door_xy }) => match door_xy {
                Some((x, y)) => Some((x, y, 2)),
                None => None,
            },
            Some(Transition::DoorClose { x, y, t }) => if t / 4 > 2 {
                None
            } else {
                Some((x, y, (2 - t / 4) as u32))
            },
            _ => None,
        }
    }

    fn show_door(&self, out: &mut Vec<Sprite>)
        requires
            self.wf(),
        ensures
            final(out)@ == old(out)@ + door_sprites(*self),
    {
        if let Some((x, y, frame)) = self.door_shown() {
            if let Some(d) = self.graph.door_at(self.curr.realm, x, y) {
                proof {
                    let c = self.graph.realms@[self.curr.realm as int].cell_at(
                        x as int,
                        y as int,
                    )->0;
                    lemma_last_door(
                        self.graph.doors@,
                        (self.graph.tileset_of(c).0 as u16, c.metatile),
                        self.graph.doors@.len() as int,
                    );
                }
                out.push(
                    Sprite {
                        tex: self.tex.doors[d as usize],
                        src: Cut { x: 0, y: frame * 32, w: 16, h: 32 },
                        anchor: Anchor::Tile { x, y: y - 1 },
                        left: 0,
                        rise: 0,
                        bob: 0,
                        tiles_w: 1,
                        tiles_h: 2,
                        layer: LAYER_PLAYER - 2,
                        flip: Flip::Straight,
                    },
                );
            }
        }
        assert(out@ =~= old(out)@ + door_sprites(*self));
    }

    /// What a frame shows of the tiles from (x0, y0) up to (x1, y1).
    pub fn scene(&self, x0: i32, y0: i32, x1: i32, y1: i32) -> (out: Vec<Sprite>)
        requires
            self.wf(),
        ensures
            out@ == scene_sprites(*self, x0 as int, y0 as int, x1 as int, y1 as int),
    {
        let mut out: Vec<Sprite> = Vec::new();
        let mut y: i32 = y0;
        while y < y1
            invariant
                self.wf(),
                y0 <= y,
                y0 <= y1 ==> y <= y1,
                y0 > y1 ==> y == y0,
                out@ == area_sprites(*self, x0 as int, x1 as int, y0 as int, y as int),
            decreases y1 - y,
        {
            let ghost before = out@;
            let mut x: i32 = x0;
            while x < x1
                invariant
                    self.wf(),
                    x0 <= x,
                    x0 <= x1 ==> x <= x1,
                    x0 > x1 ==> x == x0,
                    out@ == before + row_sprites(*self, x0 as int, x as int, y as int),
                decreases x1 - x,
            {
                let ghost was = row_sprites(*self, x0 as int, x as int, y as int);
                self.show_tile(x, y, &mut out);
                assert(before + was + tile_sprites(*self, x as int, y as int) =~= before + (was
                    + tile_sprites(*self, x as int, y as int)));
                x += 1;
            }
            proof {
                if x0 > x1 {
                    assert(row_sprites(*self, x0 as int, x1 as int, y as int) =~= seq![]);
                }
            }
            y += 1;
        }
        proof {
            if y0 > y1 {
                assert(area_sprites(*self, x0 as int, x1 as int, y0 as int, y1 as int) =~= seq![]);
            }
        }
        self.show_player(&mut out);
        self.show_door(&mut out);
        out
    }

    /// The fade in progress.
    pub fn fade(&self) -> (r: Option<(bool, u8)>)
        ensures
            r == fade_of(self.curr),
    {
        match self.curr.transition {
            Some(Transition::FadeOut { warp: _, t, door: _ }) => Some((true, t)),
            Some(Transition::FadeIn { t, door: _ }) => Some((false, t)),
            _ => None,
        }
    }

    /// The rows of the start menu; the zoom's label is the caller's.
    pub fn menu_items(&self, zoom_label: Vec<u8>) -> (items: Vec<Item>)
        ensures
            items@.len() == 5,
            items@[0].label@ == if self.curr.levitate {
                levitate_on()
            } else {
                levitate_off()
            },
            items@[0].enabled,
            items@[1].label == zoom_label,
            items@[1].enabled,
            items@[2].label@ == seq![83u8, 65u8, 86u8, 69u8],
            items@[2].enabled,
            items@[3].label@ == seq![76u8, 79u8, 65u8, 68u8],
            items@[3].enabled == (self.snapshot is Some),
            items@[4].label@ == seq![69u8, 88u8, 73u8, 84u8],
            items@[4].enabled,
    {
        // LEVITATE: ON, LEVITATE: OFF, SAVE, LOAD, EXIT
        let levitate: Vec<u8> = if self.curr.levitate {
            vec![76, 69, 86, 73, 84, 65, 84, 69, 58, 32, 79, 78]
        } else {
            vec![76, 69, 86, 73, 84, 65, 84, 69, 58, 32, 79, 70, 70]
        };
        assert(levitate@ =~= if self.curr.levitate {
            levitate_on()
        } else {
            levitate_off()
        });
        let save: Vec<u8> = vec![83, 65, 86, 69];
        assert(save@ =~= seq![83u8, 65u8, 86u8, 69u8]);
        let load: Vec<u8> = vec![76, 79, 65, 68];
        assert(load@ =~= seq![76u8, 79u8, 65u8, 68u8]);
        let exit: Vec<u8> = vec![69, 88, 73, 84];
        assert(exit@ =~= seq![69u8, 88u8, 73u8, 84u8]);
        let mut items: Vec<Item> = Vec::new();
        items.push(Item { label: levitate, enabled: true });
        items.push(Item { label: zoom_label, enabled: true });
        items.push(Item { label: save, enabled: true });
        items.push(Item { label: load, enabled: self.snapshot.is_some() });
        items.push(Item { label: exit, enabled: true });
        items
    }
}

/// The text `LEVITATE: ON`.
pub open spec fn levitate_on() -> Seq<u8> {
    seq![76u8, 69u8, 86u8, 73u8, 84u8, 65u8, 84u8, 69u8, 58u8, 32u8, 79u8, 78u8]
}

/// The text `LEVITATE: OFF`.
pub open spec fn levitate_off() -> Seq<u8> {
    seq![76u8, 69u8, 86u8, 73u8, 84u8, 65u8, 84u8, 69u8, 58u8, 32u8, 79u8, 70u8, 70u8]
}

// ---- laws ----------------------------------------------------------------

/// Whether a draw is of a tile in a window, and not among the player's.
pub open spec fn is_tile_in(s: Sprite, x0: int, y0: int, x1: int, y1: int) -> bool {
    &&& s.anchor matches Anchor::Tile { x, y } && x0 <= x < x1 && y0 <= y < y1
    &&& s.layer == LAYER_BG || s.layer == LAYER_BG_TOP || s.layer == LAYER_FG
}

proof fn lemma_row_in(w: World, x0: int, x: int, y: int)
    requires
        i32::MIN <= x0,
        x <= i32::MAX,
        i32::MIN <= y <= i32::MAX,
    ensures
        row_sprites(w, x0, x, y).len() <= 2 * (if x0 < x { x - x0 } else { 0 }),
        forall|i: int|
            0 <= i < row_sprites(w, x0, x, y).len() ==> is_tile_in(
                #[trigger] row_sprites(w, x0, x, y)[i],
                x0,
                y,
                x,
                y + 1,
            ),
    decreases x - x0,
{
    if x0 < x {
        lemma_row_in(w, x0, x - 1, y);
        let had = row_sprites(w, x0, x - 1, y);
        let new = tile_sprites(w, x - 1, y);
        let all = row_sprites(w, x0, x, y);
        assert(all == had + new);
        assert forall|i: int| 0 <= i < all.len() implies is_tile_in(
            #[trigger] all[i],
            x0,
            y,
            x,
            y + 1,
        ) by {
            if i < had.len() {
                assert(all[i] == had[i]);
            } else {
                assert(all[i] == new[i - had.len()]);
            }
        }
    }
}

proof fn lemma_area_in(w: World, x0: int, x1: int, y0: int, y: int)
    requires
        i32::MIN <= x0 <= x1 <= i32::MAX,
        i32::MIN <= y0,
        y <= i32::MAX,
    ensures
        area_sprites(w, x0, x1, y0, y).len() <= 2 * (x1 - x0) * (if y0 < y { y - y0 } else { 0 }),
        forall|i: int|
            0 <= i < area_sprites(w, x0, x1, y0, y).len() ==> is_tile_in(
                #[trigger] area_sprites(w, x0, x1, y0, y)[i],
                x0,
                y0,
                x1,
                y,
            ),
    decreases y - y0,
{
    if y0 < y {
        lemma_area_in(w, x0, x1, y0, y - 1);
        lemma_row_in(w, x0, x1, y - 1);
        let had = area_sprites(w, x0, x1, y0, y - 1);
        let new = row_sprites(w, x0, x1, y - 1);
        let all = area_sprites(w, x0, x1, y0, y);
        assert(all == had + new);
        assert(2 * (x1 - x0) * (y - y0) == 2 * (x1 - x0) * (y - 1 - y0) + 2 * (x1 - x0))
            by (nonlinear_arith);
        assert forall|i: int| 0 <= i < all.len() implies is_tile_in(
            #[trigger] all[i],
            x0,
            y0,
            x1,
            y,
        ) by {
            if i < had.len() {
                assert(all[i] == had[i]);
            } else {
                assert(all[i] == new[i - had.len()]);
            }
        }
    } else {
        assert(2 * (x1 - x0) * 0 == 0);
    }
}

/// A scene is culled to its window: but for the player, its blob and a door,
/// everything drawn is a tile in the window, at most twice each, below or above
/// the player but never among its own layers.
pub proof fn a_scene_is_culled(w: World, x0: i32, y0: i32, x1: i32, y1: i32)
    requires
        x0 <= x1,
        y0 <= y1,
    ensures
        ({
            let all = scene_sprites(w, x0 as int, y0 as int, x1 as int, y1 as int);
            let tiles = area_sprites(w, x0 as int, x1 as int, y0 as int, y1 as int);
            &&& tiles.len() <= 2 * (x1 - x0) * (y1 - y0)
            &&& all.len() <= tiles.len() + 3
            &&& forall|i: int|
                0 <= i < tiles.len() ==> all[i] == tiles[i] && is_tile_in(
                    #[trigger] tiles[i],
                    x0 as int,
                    y0 as int,
                    x1 as int,
                    y1 as int,
                )
        }),
{
    lemma_area_in(w, x0 as int, x1 as int, y0 as int, y1 as int);
    if y0 == y1 {
        assert(2 * (x1 - x0) * 0 == 0);
    }
}

/// Whether a draw puts an image of the atlases on a tile.
pub open spec fn puts(w: World, s: Sprite, img: Seq<u8>, x: int, y: int, layer: i16) -> bool {
    exists|a: int|
        0 <= a < w.baked.atlases@.len() && bake::cut_out(
            w.baked.atlases@[a].rgba@,
            s.src.x as int,
            s.src.y as int,
        ) == img && s == (Sprite {
            tex: #[trigger] w.tex.atlases@[a],
            src: Cut { w: 16, h: 16, ..s.src },
            anchor: Anchor::Tile { x: x as i32, y: y as i32 },
            left: 0,
            rise: 0,
            bob: 0,
            tiles_w: 1,
            tiles_h: 1,
            layer,
            flip: Flip::Straight,
        })
}

/// Whether draws show two layers on a tile, the top over or under the player,
/// and leave out one that is clear.
pub open spec fn show_layers(
    w: World,
    s: Seq<Sprite>,
    bottom: Seq<u8>,
    top: Seq<u8>,
    above: bool,
    x: int,
    y: int,
) -> bool {
    let n: int = if bake::is_clear(bottom) {
        0
    } else {
        1
    };
    let k: int = if bake::is_clear(top) {
        0
    } else {
        1
    };
    &&& s.len() == n + k
    &&& n == 1 ==> puts(w, s[0], bottom, x, y, LAYER_BG)
    &&& k == 1 ==> puts(
        w,
        s[n],
        top,
        x,
        y,
        if above {
            LAYER_FG
        } else {
            LAYER_BG_TOP
        },
    )
}

/// In a world with the graphics of a pack, a tile shows the two layers of its
/// metatile as the tilesets of its pair draw them, and nothing where there is no
/// such tile, pair or metatile.
pub proof fn a_tile_shows_its_metatile(w: World, pack: WorldPack, x: int, y: int)
    requires
        bake::bakeable(pack),
        bake::is_baked(w.baked, pack),
    ensures
        match w.graph.realms@[w.curr.realm as int].cell_at(x, y) {
            None => tile_sprites(w, x, y).len() == 0,
            Some(c) => if c.pair >= pack.pairs@.len() {
                tile_sprites(w, x, y).len() == 0
            } else {
                let (p, s) = pack.pairs@[c.pair as int];
                let (prim, sec) = (pack.tilesets@[p as int], pack.tilesets@[s as int]);
                let id = c.metatile as int;
                if id >= bake::metatile_count(sec) {
                    tile_sprites(w, x, y).len() == 0
                } else {
                    match bake::entries_of(prim, sec, id) {
                        None => tile_sprites(w, x, y).len() == 0,
                        Some(es) => show_layers(
                            w,
                            tile_sprites(w, x, y),
                            bake::layer(es.subrange(0, 4), prim, sec),
                            bake::layer(es.subrange(4, 8), prim, sec),
                            bake::covers_player(prim, sec, id),
                            x,
                            y,
                        ),
                    }
                }
            },
        },
{
    bake::lemma_baked_wf(w.baked, pack);
    if let Some(c) = w.graph.realms@[w.curr.realm as int].cell_at(x, y) {
        if c.pair < pack.pairs@.len() {
            let (p, s) = pack.pairs@[c.pair as int];
            let (prim, sec) = (pack.tilesets@[p as int], pack.tilesets@[s as int]);
            assert(w.baked.tables@[c.pair as int]@.len() == bake::metatile_count(sec));
            if c.metatile < bake::metatile_count(sec) {
                let d = w.baked.drawn(c.pair as int, c.metatile as int);
                bake::the_atlases_hold_what_is_drawn(
                    w.baked,
                    pack,
                    c.pair as int,
                    c.metatile as int,
                );
                if let Some(es) = bake::entries_of(prim, sec, c.metatile as int) {
                    let bottom = bake::layer(es.subrange(0, 4), prim, sec);
                    let top = bake::layer(es.subrange(4, 8), prim, sec);
                    let above = if d.top_above_player {
                        LAYER_FG
                    } else {
                        LAYER_BG_TOP
                    };
                    if !bake::is_clear(bottom) {
                        lemma_puts(w, d.bottom, bottom, x, y, LAYER_BG);
                    }
                    if !bake::is_clear(top) {
                        lemma_puts(w, d.top, top, x, y, above);
                    }
                }
            }
        }
    }
}

proof fn lemma_puts(w: World, r: CellRef, img: Seq<u8>, x: int, y: int, layer: i16)
    requires
        bake::is_found(w.baked, r, img),
        !bake::is_clear(img),
    ensures
        puts(w, cell_sprite(w.tex, r, x, y, layer), img, x, y, layer),
{
    let a = (r.0 / bake::PER_ATLAS) as int;
    let s = cell_sprite(w.tex, r, x, y, layer);
    assert(s.tex == w.tex.atlases@[a]);
}

} // verus!
