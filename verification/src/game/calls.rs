//! What the calls of the world give back, whatever they are called with.

use vstd::prelude::*;
use crate::game::bake;
use crate::game::bake::{Baked, CellRef};
use crate::game::data::WorldPack;
use crate::game::map::{Cell, Realm, RealmGraph};
use crate::game::player::{Avatar, Facing, Motion, Player};
use crate::game::state;
use crate::game::state::{Camera, State};
use crate::game::ui::Item;
use crate::game::world;
use crate::game::world::{Textures, World};

verus! {

/// A metatile of a world that was made of a pack behaves as the lower byte of its
/// attributes says: the primary tileset's for the first 512, the secondary's
/// for the others.
pub proof fn a_metatile_behaves_as_its_attributes_say(pack: WorldPack, g: RealmGraph, c: Cell)
    requires
        crate::game::map::coherent_realms(pack),
        call_ensures(RealmGraph::from_pack, (&pack,), g),
        c.pair < pack.pairs@.len(),
    ensures
        ({
            let pair = pack.pairs@[c.pair as int];
            let prim = pack.tilesets@[pair.0 as int].attributes@;
            let sec = pack.tilesets@[pair.1 as int].attributes@;
            &&& c.metatile < 512 && pair.0 < pack.tilesets@.len() && c.metatile < prim.len()
                ==> g.behavior_of(c) == prim[c.metatile as int] as int % 256
            &&& c.metatile >= 512 && pair.1 < pack.tilesets@.len() && c.metatile - 512 < sec.len()
                ==> g.behavior_of(c) == sec[c.metatile - 512] as int % 256
        }),
{
    let pair = pack.pairs@[c.pair as int];
    if c.metatile < 512 && pair.0 < pack.tilesets@.len() {
        let b = g.behaviors@[pair.0 as int]@;
        assert(b.len() == pack.tilesets@[pair.0 as int].attributes@.len());
    }
    if c.metatile >= 512 && pair.1 < pack.tilesets@.len() {
        let b = g.behaviors@[pair.1 as int]@;
        assert(b.len() == pack.tilesets@[pair.1 as int].attributes@.len());
    }
}

/// A world that was made of a pack has the doors, the waters and the arrows of the
/// pack.
pub proof fn a_world_has_the_doors_of_its_pack(pack: WorldPack, g: RealmGraph, i: int)
    requires
        crate::game::map::coherent_realms(pack),
        call_ensures(RealmGraph::from_pack, (&pack,), g),
        0 <= i < pack.doors@.len(),
    ensures
        g.doors@.len() == pack.doors@.len(),
        g.doors@[i].0 == pack.doors@[i].tileset,
        g.doors@[i].1 == pack.doors@[i].metatile,
        g.surfable@ == pack.surfable@,
        g.warp_dir@ == pack.warp_dir@,
        g.realms@.len() == pack.realms@.len(),
{
}

/// A tile can be passed where its block is not solid or there is none.
pub proof fn what_is_not_solid_can_be_passed(r: Realm, x: i32, y: i32, b: bool)
    requires
        r.wf(),
        call_ensures(Realm::passable, (&r, x, y), b),
    ensures
        r.cell_at(x as int, y as int) is None ==> b,
        r.cell_at(x as int, y as int) matches Some(c) ==> b == (c.collision == 0),
{
}

/// A player appears on foot, standing, facing down, at the height of plain ground,
/// in the map of its tile.
pub proof fn a_player_appears_on_foot(x: i32, y: i32, r: Realm, p: Player)
    requires
        r.wf(),
        call_ensures(Player::spawn, (x, y, &r), p),
    ensures
        p.x == x && p.y == y,
        p.facing == Facing::Down && p.motion == Motion::Idle && p.avatar == Avatar::Walking,
        p.step_loop == 0 && p.elevation == 3,
        p.current_map == r.map_on(x as int, y as int),
{
}

/// Opposite ways undo each other, and each goes one tile.
pub proof fn opposite_ways_undo_each_other(
    up: (i32, i32),
    down: (i32, i32),
    left: (i32, i32),
    right: (i32, i32),
)
    requires
        call_ensures(Facing::delta, (Facing::Up,), up),
        call_ensures(Facing::delta, (Facing::Down,), down),
        call_ensures(Facing::delta, (Facing::Left,), left),
        call_ensures(Facing::delta, (Facing::Right,), right),
    ensures
        up.0 == 0 && up.1 == -1,
        down.0 == 0 && down.1 == 1,
        left.0 == -1 && left.1 == 0,
        right.0 == 1 && right.1 == 0,
{
}

/// The references of an atlas go along its rows of 128 squares, 128 rows to an
/// atlas.
pub proof fn references_go_along_the_rows(
    r: CellRef,
    a: usize,
    src: (u32, u32, u32, u32),
)
    requires
        call_ensures(CellRef::atlas, (r,), a),
        call_ensures(CellRef::src, (r,), src),
    ensures
        src.2 == 16 && src.3 == 16,
        src.0 % 16 == 0 && src.1 % 16 == 0,
        src.0 < 2048 && src.1 < 2048,
        16384 * a + 128 * (src.1 / 16) + src.0 / 16 == r.0,
{
}

/// A new world is at the start of its pack, with nothing saved, and plays in each
/// of its maps the music that the pack gives the map.
pub proof fn a_new_world_is_at_the_start_of_its_pack(
    pack: WorldPack,
    baked: Baked,
    tex: Textures,
    cam: Camera,
    w: World,
    s: State,
    m: u16,
)
    requires
        crate::game::coherence::holds_together(pack),
        bake::is_baked(baked, pack),
        tex.atlases@.len() == baked.atlases@.len(),
        tex.doors@.len() == pack.doors@.len(),
        call_ensures(World::new, (&pack, baked, tex, cam), w),
    ensures
        w.curr.realm == pack.start.realm,
        w.curr.player.x == pack.start.x && w.curr.player.y == pack.start.y,
        w.curr.player.facing == Facing::Down && w.curr.player.avatar == Avatar::Walking,
        w.curr.cam == cam && w.prev == w.curr && w.snapshot is None,
        w.baked == baked && w.tex == tex && w.font_widths@ == pack.font_widths@,
        s.realm < pack.realms@.len() && s.player.avatar == Avatar::Walking && s.player.current_map
            == Some(m) && m < pack.realms@[s.realm as int].maps@.len() ==> world::music_of(
            w.graph,
            s,
        ) == Some(pack.realms@[s.realm as int].maps@[m as int].music@),
{
    if s.realm < pack.realms@.len() && s.player.avatar == Avatar::Walking && s.player.current_map
        == Some(m) && m < pack.realms@[s.realm as int].maps@.len() {
        crate::game::rules::the_music_is_that_of_the_pack(w.graph, pack, s, m);
    }
}

/// The menu has its five rows in order, the fourth of which can be chosen where
/// something was saved.
pub proof fn the_menu_has_five_rows(w: World, zoom: Vec<u8>, items: Vec<Item>)
    requires
        call_ensures(World::menu_items, (&w, zoom), items),
    ensures
        items@.len() == 5,
        w.curr.levitate ==> items@[0].label@.len() == 12 && items@[0].label@[10] as char == 'O'
            && items@[0].label@[11] as char == 'N',
        !w.curr.levitate ==> items@[0].label@.len() == 13 && items@[0].label@[11] as char == 'F'
            && items@[0].label@[12] as char == 'F',
        items@[1].label == zoom,
        items@[2].label@[0] as char == 'S' && items@[2].label@[1] as char == 'A' && items@[2].label@[2]
            as char == 'V' && items@[2].label@[3] as char == 'E',
        items@[3].label@[0] as char == 'L' && items@[3].label@[1] as char == 'O' && items@[3].label@[2]
            as char == 'A' && items@[3].label@[3] as char == 'D',
        items@[4].label@[0] as char == 'E' && items@[4].label@[1] as char == 'X' && items@[4].label@[2]
            as char == 'I' && items@[4].label@[3] as char == 'T',
        items@[0].enabled && items@[1].enabled && items@[2].enabled && items@[4].enabled,
        items@[3].enabled == (w.snapshot is Some),
{
}

/// A save is refused where it has another length, another beginning, or a code
/// that stands for nothing.
pub proof fn what_is_no_save_is_refused(b: Seq<u8>)
    ensures
        b.len() != 37 ==> state::loaded(b) is None,
        b.len() == 37 && (b[0] as char != 'E' || b[1] as char != 'S' || b[2] != 3)
            ==> state::loaded(b) is None,
        b.len() == 37 && b[13] > 3 ==> state::loaded(b) is None,
        b.len() == 37 && (b[35] % 16 > 4 || b[35] >= 64) ==> state::loaded(b) is None,
        b.len() == 37 && b[14] % 16 > 3 ==> state::loaded(b) is None,
        state::loaded(b) matches Some(s) ==> s.menu is None && s.transition is None && s.ticks == 0,
{
}

} // verus!
