//! The simulation: warps, doors, the menu, surfing, the bike, saves.

use emerald::game::bake::{bake, CellRef, ATLAS_SIZE};
use emerald::game::coherence::coherent;
use emerald::game::data::{
    DoorData, Image, LayoutData, MapData, RealmData, Start, TilesetData, WarpData, WorldPack,
};
use emerald::game::map::Warp;
use emerald::game::player::{Avatar, Facing, Motion, Player, StepEvents};
use emerald::game::scene::{Sprite, LAYER_BG_TOP, LAYER_PLAYER};
use emerald::game::state::{Camera, State, Transition};
use emerald::game::world::{advance_transition, Textures, World};
use emerald::types::{Input, TextureId};

/// The place of the player's tile in world pixels, mid-glide too.
fn world_px(p: &Player) -> (f32, f32) {
    let (tx, ty) = (p.x as f32 * 16.0, p.y as f32 * 16.0);
    match p.motion {
        Motion::Moving { remaining_px, .. } => {
            let (dx, dy) = p.facing.delta();
            let left = f32::from_bits(remaining_px);
            (tx - dx as f32 * left, ty - dy as f32 * left)
        }
        _ => (tx, ty),
    }
}

fn camera_on(p: &Player, zoom: f32) -> Camera {
    let (px, py) = world_px(p);
    Camera { x: (px + 8.0).to_bits(), y: (py + 8.0).to_bits(), zoom: zoom.to_bits() }
}

/// One step, and the camera after it.
fn step(w: &mut World, input: Input) -> StepEvents {
    assert!(w.can_step(input));
    let ev = w.step(input);
    let mut cam = w.curr.cam;
    let mut zoom = f32::from_bits(cam.zoom);
    if w.aim.zoom_in {
        zoom = (zoom * 1.02).min(6.0);
    }
    if w.aim.zoom_out {
        zoom = (zoom / 1.02).max(0.5);
    }
    cam.zoom = zoom.to_bits();
    if w.aim.follow {
        cam = camera_on(&w.curr.player, zoom);
    }
    w.look(cam);
    ev
}

/// Every draw of the active realm.
fn scene(w: &World) -> Vec<Sprite> {
    let r = w.graph.realm(w.curr.realm);
    w.scene(0, 0, r.width, r.height)
}

/// A miniature but complete pack: one tileset (2 tiles, 1 palette), two
/// overworld maps sharing a layout, a house realm, a door warp at (5, 5) and
/// an exit mat.
fn test_pack() -> WorldPack {
    let mut tiles_4bpp = vec![0x11u8; 32]; // tile 0: all color 1
    tiles_4bpp.extend([0x22u8; 32]); // tile 1: all color 2
    let mut palettes = [[0u8; 4]; 256];
    palettes[1] = [40, 200, 40, 255];
    palettes[2] = [200, 200, 40, 255];
    // metatiles: 0 land, 1 floor (covered top), 2 water, 3 door
    let mut metatiles = vec![0u16; 8];
    metatiles[4..8].copy_from_slice(&[0x3FF; 4]);
    metatiles.extend([1u16; 8]); // 1: floor
    metatiles.extend([0u16; 8]); // 2: water (looks like land, is water)
    metatiles.extend([1u16; 8]); // 3: door
    metatiles.extend([1u16; 8]); // 4: interior exit (south-arrow warp)
    let ts = TilesetData {
        name: "gTileset_Fixture".into(),
        is_secondary: false,
        tiles_4bpp,
        palettes,
        metatiles,
        attributes: vec![0, 1 << 12, 0x10, 0, 0x11],
    };
    // land at elevation 3; the eastern strip x>=25 is water at elevation
    // 1 (surfable behavior 0x10); the door tile gets stamped after
    let blockdata = |w: u32, h: u32, mt: u16| -> Vec<u16> {
        vec![(3 << 12) | mt; (w * h) as usize]
    };
    WorldPack {
        tilesets: vec![ts],
        pairs: vec![(0, 0)],
        layouts: vec![
            LayoutData {
                id: "LAYOUT_HALF".into(),
                width: 30,
                height: 40,
                pair: 0,
                blockdata: {
                    let mut b = blockdata(30, 40, 0);
                    for y in 0..40 {
                        for x in 25..30 {
                            b[y * 30 + x] = (1 << 12) | 2; // water, elevation 1
                        }
                    }
                    b[5 * 30 + 5] = 3; // the animated door (elevation 0)
                    b
                },
            },
            LayoutData {
                id: "LAYOUT_HOUSE".into(),
                width: 9,
                height: 8,
                pair: 0,
                blockdata: {
                    let mut b = blockdata(9, 8, 1);
                    b[7 * 9 + 4] = (3 << 12) | 4; // the exit arrow tile
                    b
                },
            },
        ],
        realms: vec![
            RealmData {
                width: 60,
                height: 40,
                maps: vec![
                    MapData {
                        id: "MAP_WEST".into(),
                        music: "MUS_W".into(),
                        layout: 0,
                        x: 0,
                        y: 0,
                        warps: vec![WarpData {
                            x: 5,
                            y: 5,
                            to_realm: 1,
                            to_x: 4,
                            to_y: 7,
                        }],
                    },
                    MapData {
                        id: "MAP_EAST".into(),
                        music: "MUS_E".into(),
                        layout: 0,
                        x: 30,
                        y: 0,
                        warps: vec![],
                    },
                ],
            },
            RealmData {
                width: 9,
                height: 8,
                maps: vec![MapData {
                    id: "MAP_HOUSE".into(),
                    music: "MUS_W".into(),
                    layout: 1,
                    x: 0,
                    y: 0,
                    warps: vec![WarpData { x: 4, y: 7, to_realm: 0, to_x: 5, to_y: 5 }],
                }],
            },
        ],
        player: Image { rgba: vec![128; 144 * 64 * 4], w: 144, h: 64 },
        font: Image { rgba: vec![200; 96 * 16 * 16 * 4], w: 96 * 16, h: 16 },
        font_widths: vec![6; 96],
        surf_player: Image { rgba: vec![1; 192 * 32 * 4], w: 192, h: 32 },
        surf_blob: Image { rgba: vec![2; 96 * 32 * 4], w: 96, h: 32 },
        bike: Image { rgba: vec![3; 288 * 32 * 4], w: 288, h: 32 },
        doors: vec![DoorData {
            tileset: 0,
            metatile: 3,
            frames: Image { rgba: vec![4; 16 * 96 * 4], w: 16, h: 96 },
        }],
        surfable: {
            let mut m = [0u8; 32];
            m[0x10 / 8] |= 1 << (0x10 % 8); // fixture water behavior 0x10
            m
        },
        warp_dir: {
            let mut m = [0u8; 256];
            m[0x11] = 1; // behavior 0x11: south-arrow warp (interior exits)
            m
        },
        start: Start { realm: 0, x: 10, y: 10 },
    }
}
fn test_world() -> World {
    world_of(test_pack())
}

fn world_of(pack: WorldPack) -> World {
    let pack = WorldPack::from_bytes(&pack.to_bytes()).unwrap();
    assert!(coherent(&pack));
    let baked = bake(&pack);
    let tex = Textures {
        atlases: vec![TextureId(0)],
        player: TextureId(1),
        surf_player: TextureId(2),
        surf_blob: TextureId(3),
        bike: TextureId(4),
        doors: vec![TextureId(5)],
        font: TextureId(6),
    };
    let cam = Camera { x: 168.0f32.to_bits(), y: 168.0f32.to_bits(), zoom: 2.0f32.to_bits() };
    World::new(&pack, baked, tex, cam)
}

#[test]
fn sim_is_deterministic_for_a_given_input_sequence() {
    let script = |world: &mut World| {
        for i in 0..200u32 {
            let input = Input {
                right: i % 3 != 0,
                down: i % 5 == 0,
                zoom_in: i % 7 == 0,
                ..Default::default()
            };
            step(world, input);
        }
    };
    let mut a = test_world();
    let mut b = test_world();
    script(&mut a);
    script(&mut b);
    assert_eq!(a.curr, b.curr, "fixed-step sim must be deterministic");
}

#[test]
fn step_interpolation_state() {
    let mut world = test_world();
    let before = world.curr;
    step(&mut world, Input { right: true, ..Default::default() });
    assert_eq!(world.prev, before, "prev must hold the pre-step state");
    assert_ne!(world.curr.player, before.player);
}

#[test]
fn warp_switches_realm_and_never_interpolates_across() {
    let mut world = test_world();
    // steer the player just below the door, then walk up into it
    let mut warped = false;
    for _ in 0..500 {
        let p = &world.state().player;
        let input = if p.y > 6 {
            Input { up: true, ..Default::default() }
        } else if p.x > 5 {
            Input { left: true, ..Default::default() }
        } else {
            Input { up: true, ..Default::default() }
        };
        let ev = step(&mut world, input);
        if ev.warp.is_some() || world.curr.transition.is_some() {
            warped = true;
            break;
        }
    }
    assert!(warped, "route to the door must fire the warp");
    // the warp now runs the fade choreography: realm switches mid-fade
    // full door choreography: open 16 + walk in 16 + fade 12+12 + the
    // arrival walk off the mat
    let mut fade_steps = 0;
    while world.curr.transition.is_some() {
        step(&mut world, Input::default());
        fade_steps += 1;
        assert!(fade_steps < 150, "transition must finish");
        if world.curr.realm == 1 {
            assert_eq!(world.prev.realm, 1, "no interpolation across a warp");
        }
    }
    assert!(fade_steps >= 40, "the choreography takes real frames");
    assert_eq!(world.curr.realm, 1, "active realm switched to the interior");
    // arrivals stand exactly where the warp put them (no auto-step)
    assert_eq!((world.curr.player.x, world.curr.player.y), (4, 7));
    // rendering now draws the interior realm, bounded by its small size
    let sprites = scene(&world);
    let interior = world.graph.realm(1);
    // house metatile has bottom + covered top = up to 2 draws per cell
    assert!(sprites.len() <= (interior.width * interior.height * 2 + 1) as usize);
    // covered tops must sit below the player layer
    assert!(sprites
        .iter()
        .filter(|q| q.layer == LAYER_BG_TOP)
        .all(|q| q.layer < LAYER_PLAYER));
}

#[test]
fn save_load_roundtrips_and_continues_deterministically() {
    let mut a = test_world();
    // wander into a mid-glide, mid-zoom state
    for i in 0..37u32 {
        step(&mut a, Input { right: true, zoom_in: i % 2 == 0, ..Default::default() });
    }
    let save = a.save_state();
    // transient fields (menu/ticks/prev input) are not saved; the saved
    // portion must roundtrip byte-exactly
    assert_eq!(State::from_bytes(&save).unwrap().to_bytes(), save, "roundtrip");

    // diverge a, then restore into a fresh world
    for _ in 0..50 {
        step(&mut a, Input { up: true, ..Default::default() });
    }
    let mut b = test_world();
    b.load_state(&save).unwrap();
    assert_eq!(b.prev, b.curr, "a load never interpolates");

    // the restored sim continues exactly like the saved one
    let mut a2 = test_world();
    a2.load_state(&save).unwrap();
    for _ in 0..50 {
        step(&mut a2, Input { down: true, ..Default::default() });
        step(&mut b, Input { down: true, ..Default::default() });
    }
    assert_eq!(a2.curr, b.curr);

    // corrupt saves are rejected
    assert!(State::from_bytes(&save[..10]).is_err());
    let mut evil = save.clone();
    evil[3] = 0xFF;
    evil[4] = 0xFF; // realm 65535
    assert!(b.load_state(&evil).is_err());
}

#[test]
fn b_runs_at_prets_running_speed_with_the_running_row() {
    let mut world = test_world();
    // face down (spawn facing) and hold B+down: 32 held steps = 4 tiles
    // at running speed (8 frames per tile, chained gaplessly)
    let run = Input { down: true, b: true, ..Default::default() };
    let (_, py0) = world_px(&world.curr.player);
    step(&mut world, run);
    assert!(world.curr.player.anim_running());
    let sprites = scene(&world);
    let rider = sprites.iter().find(|q| q.src.h == 32).unwrap();
    assert_eq!(rider.src.y, 32, "running uses the second sprite row");
    for _ in 0..31 {
        step(&mut world, run);
    }
    let (_, py1) = world_px(&world.curr.player);
    assert_eq!(py1 - py0, 64.0, "running: 8 frames per tile, chained");
    while world.curr.player.motion != Motion::Idle {
        step(&mut world, Input::default());
    }

    // walking: 32 held steps = 32 px = 2 tiles (16 frames per tile)
    let walk = Input { down: true, ..Default::default() };
    let (_, py0) = world_px(&world.curr.player);
    for _ in 0..32 {
        step(&mut world, walk);
    }
    let (_, py1) = world_px(&world.curr.player);
    assert_eq!(py1 - py0, 32.0, "walking: 16 frames per tile, chained");
}

#[test]
fn start_menu_opens_navigates_and_toggles_levitate() {
    let mut world = test_world();
    let press = |w: &mut World, input: Input| {
        step(w, input);
        step(w, Input::default()); // release
    };
    press(&mut world, Input { start: true, ..Default::default() });
    assert_eq!(world.curr.menu, Some(0), "Enter opens the menu");

    // movement is frozen while the menu is open (Emerald behavior);
    // left/right don't move the cursor, so they prove it cleanly
    let (x0, y0) = (world.curr.player.x, world.curr.player.y);
    for _ in 0..20 {
        step(&mut world, Input { right: true, ..Default::default() });
    }
    assert_eq!((world.curr.player.x, world.curr.player.y), (x0, y0));
    assert_eq!(world.curr.menu, Some(0));
    step(&mut world, Input::default());

    // A on LEVITATE toggles it and keeps the menu open
    press(&mut world, Input { a: true, ..Default::default() });
    assert!(world.curr.levitate);
    assert_eq!(world.curr.menu, Some(0));

    // cursor wraps; B closes
    press(&mut world, Input { up: true, ..Default::default() });
    assert_eq!(world.curr.menu, Some(4));
    press(&mut world, Input { b: true, ..Default::default() });
    assert_eq!(world.curr.menu, None);

    // levitate: straight through the solid boulder at (20, 10), walk
    // right from (19, 10), and the sprite bobs instead of walking
    world.curr.player.x = 19;
    world.curr.player.y = 10;
    world.curr.player.facing = Facing::Right;
    world.prev = world.curr;
    for _ in 0..40 {
        step(&mut world, Input { right: true, ..Default::default() });
    }
    assert!(world.curr.player.x > 20, "levitation walks through collision");
    let sprites = scene(&world);
    let rider = sprites.iter().find(|q| q.src.h == 32).unwrap();
    assert_eq!(rider.src.y, 0, "levitating never uses the running row");

    // menu SAVE then LOAD restores the snapshot position
    press(&mut world, Input { start: true, ..Default::default() });
    press(&mut world, Input { down: true, ..Default::default() });
    press(&mut world, Input { down: true, ..Default::default() });
    press(&mut world, Input { a: true, ..Default::default() }); // SAVE closes
    let saved = (world.curr.player.x, world.curr.player.y);
    for _ in 0..60 {
        step(&mut world, Input { down: true, ..Default::default() });
    }
    assert_ne!((world.curr.player.x, world.curr.player.y), saved);
    press(&mut world, Input { start: true, ..Default::default() });
    for _ in 0..3 {
        press(&mut world, Input { down: true, ..Default::default() });
    }
    press(&mut world, Input { a: true, ..Default::default() }); // LOAD
    assert_eq!((world.curr.player.x, world.curr.player.y), saved);
    assert!(world.curr.levitate, "levitate survives save/load");
}

#[test]
fn water_blocks_walkers_but_surfing_works_end_to_end() {
    let mut world = test_world();
    // stand just west of the water strip at x=25 and face it
    world.curr.player.x = 24;
    world.curr.player.y = 10;
    world.curr.player.facing = Facing::Right;
    world.prev = world.curr;

    // walking into water: blocked (elevation 1 vs walker at 3)
    for _ in 0..30 {
        step(&mut world, Input { right: true, ..Default::default() });
    }
    assert_eq!(world.curr.player.x, 24, "water must block walkers");

    // A mounts the blob and hops on; MUS_SURF overrides the map music
    let ev = step(&mut world, Input { a: true, ..Default::default() });
    assert_eq!(ev.sfx, Some("se_m_surf"));
    assert_eq!(world.curr.player.avatar, Avatar::Surfing);
    assert_eq!(world.current_music(), Some("MUS_SURF"));
    for _ in 0..20 {
        step(&mut world, Input::default());
    }
    assert_eq!(world.curr.player.x, 25, "mounted onto the water");
    assert_eq!(world.curr.player.elevation, 1);

    // surfing moves at 8 frames per tile
    let (px0, _) = world_px(&world.curr.player);
    for _ in 0..16 {
        step(&mut world, Input { right: true, ..Default::default() });
    }
    let (px1, _) = world_px(&world.curr.player);
    assert_eq!(px1 - px0, 32.0, "surf speed = 2 px per frame");

    // heading back to shore dismounts automatically
    for _ in 0..60 {
        step(&mut world, Input { left: true, ..Default::default() });
    }
    assert_eq!(world.curr.player.avatar, Avatar::Walking);
    assert!(world.curr.player.x < 25);
    assert_eq!(world.curr.player.elevation, 3);
}

#[test]
fn mach_bike_accelerates_and_coasts_like_the_real_one() {
    let mut world = test_world();
    // Select toggles the bike; MUS_CYCLING overrides
    step(&mut world, Input { select: true, ..Default::default() });
    assert!(matches!(world.curr.player.avatar, Avatar::Bike { tier: 0, .. }));
    assert_eq!(world.current_music(), Some("MUS_CYCLING"));
    step(&mut world, Input::default());

    // tile 1 at 16 frames, tile 2 at 8, tile 3+ at 4 (three tiers)
    let hold = Input { down: true, ..Default::default() };
    let y0 = world_px(&world.curr.player).1;
    for _ in 0..16 {
        step(&mut world, hold);
    }
    assert_eq!(world_px(&world.curr.player).1 - y0, 16.0, "tier 0 = walk speed");
    for _ in 0..8 {
        step(&mut world, hold);
    }
    assert_eq!(world_px(&world.curr.player).1 - y0, 32.0, "tier 1 = 2 px/frame");
    for _ in 0..4 {
        step(&mut world, hold);
    }
    assert_eq!(world_px(&world.curr.player).1 - y0, 48.0, "tier 2 = 4 px/frame");

    // release from top speed: the in-flight tile finishes, then
    // the momentum coasts 3 more tiles at 4, 2, 1 px per frame
    let mut coasted = 0.0;
    let y1 = world_px(&world.curr.player).1;
    for _ in 0..80 {
        step(&mut world, Input::default());
        if world.curr.player.motion == Motion::Idle {
            coasted = world_px(&world.curr.player).1 - y1;
            break;
        }
    }
    assert_eq!(coasted, 64.0, "coasts down through the tiers");
    assert!(matches!(world.curr.player.avatar, Avatar::Bike { tier: 0, .. }));

    // a single tap moves exactly one tile, momentum is still 0
    step(&mut world, Input { down: true, ..Default::default() });
    let y2 = world_px(&world.curr.player).1;
    let mut steps = 0;
    while world.curr.player.motion != Motion::Idle {
        step(&mut world, Input::default());
        steps += 1;
        assert!(steps < 40);
    }
    assert_eq!(world_px(&world.curr.player).1 - y2, 15.0, "tap = one tile, no coast");

    step(&mut world, Input { select: true, ..Default::default() });
    assert_eq!(world.curr.player.avatar, Avatar::Walking);

    // Select works mid-stride: toggling while a tile is in flight
    // switches the avatar without interrupting the move
    step(&mut world, Input { down: true, ..Default::default() });
    assert_ne!(world.curr.player.motion, Motion::Idle);
    step(&mut world, Input { down: true, select: true, ..Default::default() });
    assert!(matches!(world.curr.player.avatar, Avatar::Bike { .. }));
    assert_ne!(world.curr.player.motion, Motion::Idle);
}

#[test]
fn door_roundtrip_matches_the_real_games_choreography() {
    let mut world = test_world();
    // inside the house after the door entry (same route as the warp test)
    world.curr.player.x = 5;
    world.curr.player.y = 6;
    world.curr.player.facing = Facing::Up;
    world.prev = world.curr;
    let ev = step(&mut world, Input { up: true, ..Default::default() });
    assert_eq!(ev.door_enter, Some((5, 5)), "walking up into the door");
    assert_eq!(ev.sfx, Some("se_door"));
    assert!(matches!(world.curr.transition, Some(Transition::DoorOpen { .. })));
    let mut n = 0;
    while world.curr.transition.is_some() {
        step(&mut world, Input::default());
        n += 1;
        assert!(n < 150);
    }
    assert_eq!(world.curr.realm, 1);
    assert_eq!((world.curr.player.x, world.curr.player.y), (4, 7), "standing on the exit");

    // walking around the interior, including BACK ONTO the exit tile,
    // must not warp; only pressing down while standing on it does
    // 15 held steps + release: exactly one tile (holding through the
    // boundary would chain into a second)
    for _ in 0..15 {
        step(&mut world, Input { up: true, ..Default::default() });
    }
    for _ in 0..3 {
        step(&mut world, Input::default());
    }
    assert_eq!((world.curr.player.x, world.curr.player.y), (4, 6));
    assert!(world.curr.transition.is_none());
    // hold down: walk onto the exit tile and keep pressing, the arrow
    // warp fires from the continued press, fading back outside
    let mut out_sfx = false;
    for _ in 0..240 {
        let ev = step(&mut world, Input { down: true, ..Default::default() });
        if ev.sfx == Some("se_exit") {
            out_sfx = true;
        }
        if world.curr.realm == 0 && world.curr.transition.is_none() {
            break;
        }
    }
    assert!(out_sfx, "leaving plays the exit sound");
    assert_eq!(world.curr.realm, 0);
    assert_eq!(
        (world.curr.player.x, world.curr.player.y),
        (5, 6),
        "auto-stepped down off the door"
    );

    // levitate skips all of it: instant warp, no transition
    world.curr.levitate = true;
    world.prev = world.curr;
    for _ in 0..40 {
        step(&mut world, Input { up: true, ..Default::default() });
        assert!(world.curr.transition.is_none(), "levitate warps stay instant");
        if world.curr.realm == 1 {
            break;
        }
    }
    assert_eq!(world.curr.realm, 1, "levitate walked through the door tile");

    // and levitate still EXITS: the arrow warp fires instantly too
    for _ in 0..80 {
        step(&mut world, Input { down: true, ..Default::default() });
        assert!(world.curr.transition.is_none(), "levitate warps stay instant");
        if world.curr.realm == 0 {
            break;
        }
    }
    assert_eq!(world.curr.realm, 0, "levitate exits through the arrow tile");
}

#[test]
fn bake_dedupes_and_renders_the_fixture() {
    let pack = test_pack();
    let baked = bake(&pack);
    assert_eq!(baked.atlases.len(), 1);
    let d0 = baked.draw(0, 0);
    assert_ne!(d0.bottom, CellRef::none());
    assert_eq!(d0.top, CellRef::none(), "out-of-range top tile is empty");
    let d1 = baked.draw(0, 1);
    assert!(!d1.top_above_player, "layer type 1 (covered) stays below the player");
    // atlas pixel of metatile 0 bottom = palette color 1
    let src = d0.bottom.src();
    let at = ((src.1 * ATLAS_SIZE + src.0) * 4) as usize;
    assert_eq!(&baked.atlases[0].rgba[at..at + 4], &[40, 200, 40, 255]);
}

#[test]
fn a_save_is_thirty_seven_bytes() {
    let mut world = test_world();
    let save = world.save_state();
    assert_eq!(save.len(), 37);
    assert_eq!(State::from_bytes(&save[..36]).unwrap_err().0, "bad save state");
    let mut far = save.clone();
    far[3] = 0xFF;
    assert_eq!(world.load_state(&far).unwrap_err().0, "save state out of world bounds");
    let mut magic = save.clone();
    magic[0] ^= 1;
    assert_eq!(world.load_state(&magic).unwrap_err().0, "bad save state");
    assert_eq!(world.curr, test_world().curr, "a refused save changes nothing");
}

/// Every state of a ride, braked and begun anew.
fn ride(w: &mut World, n: u32) {
    step(w, Input { select: n == 0, down: n % 60 < 40, ..Default::default() });
}

#[test]
fn a_save_keeps_a_ride_whole() {
    let mut world = test_world();
    let (mut top, mut rolling) = (false, false);
    for n in 0..180 {
        ride(&mut world, n);
        let s = world.curr;
        let save = s.to_bytes();
        let r = State::from_bytes(&save).unwrap();
        assert_eq!(save.len(), 37);
        assert_eq!(r.player, s.player, "step {n}");
        assert_eq!((r.realm, r.cam, r.levitate), (s.realm, s.cam, s.levitate));
        assert_eq!((r.menu, r.ticks, r.transition, r.prev_input), (None, 0, None, Input::default()));
        assert_eq!(r.to_bytes(), save);
        top = top || matches!(s.player.motion, Motion::Moving { speed: 4, .. });
        rolling = rolling || matches!(s.player.avatar, Avatar::Bike { tier: 2, momentum: 2 });
    }
    assert!(top && rolling);
}

#[test]
fn a_restored_ride_goes_on_alike() {
    for n in 1..60 {
        let mut saved = test_world();
        for i in 0..n {
            ride(&mut saved, i);
        }
        let mut restored = test_world();
        restored.load_state(&saved.save_state()).unwrap();
        for i in n..n + 80 {
            ride(&mut saved, i);
            ride(&mut restored, i);
            assert_eq!(restored.curr.player, saved.curr.player, "{n}, then {i}");
            assert_eq!(restored.curr.cam, saved.curr.cam);
        }
    }
}

#[test]
fn the_codes_of_a_save() {
    let base = test_world().curr;
    let code = |motion: Motion, avatar: Avatar| {
        let player = Player { motion, avatar, ..base.player };
        let s = State { player, ..base };
        let b = s.to_bytes();
        assert_eq!(State::from_bytes(&b).unwrap().player, player);
        (b[14], b[35])
    };
    let moving = |speed: u8| Motion::Moving { remaining_px: 16f32.to_bits(), speed };
    assert_eq!(code(Motion::Idle, Avatar::Walking), (0, 0));
    assert_eq!(code(Motion::Turning { steps_left: 8 }, Avatar::Surfing), (1, 1));
    assert_eq!(code(moving(1), Avatar::Bike { tier: 0, momentum: 0 }), (2, 2));
    assert_eq!(code(moving(2), Avatar::Bike { tier: 1, momentum: 1 }), (3, 3));
    assert_eq!(code(moving(4), Avatar::Bike { tier: 2, momentum: 3 }), (35, 4));
    assert_eq!(code(moving(4), Avatar::Bike { tier: 2, momentum: 1 }), (35, 36));
    assert_eq!(code(moving(1), Avatar::Bike { tier: 1, momentum: 0 }), (2, 51));

    let mut last = base;
    last.player.current_map = Some(u16::MAX);
    assert_eq!(State::from_bytes(&last.to_bytes()).unwrap().player, last.player);
    last.player.current_map = None;
    assert_eq!(State::from_bytes(&last.to_bytes()).unwrap().player, last.player);

    let good = base.to_bytes();
    for (at, bad) in [(13, 4), (14, 1), (14, 2), (14, 4), (14, 255), (35, 5), (35, 66), (35, 255)] {
        let mut b = good.clone();
        b[at] = bad;
        assert_eq!(State::from_bytes(&b).unwrap_err().0, "bad save state", "{at}: {bad}");
    }
}

#[test]
fn a_door_closes_in_sixteen_steps() {
    let mut world = test_world();
    world.curr.transition = Some(Transition::DoorClose { x: 5, y: 5, t: 0 });
    let player = world.curr.player;
    for t in 1..16 {
        let ev = step(&mut world, Input { right: true, ..Default::default() });
        assert_eq!(ev, StepEvents::default());
        assert_eq!(world.curr.transition, Some(Transition::DoorClose { x: 5, y: 5, t }));
    }
    step(&mut world, Input { right: true, ..Default::default() });
    assert_eq!(world.curr.transition, None);
    assert_eq!(world.curr.player, player);
}

#[test]
fn leaving_a_door_sounds_with_the_walk() {
    let mut world = test_world();
    world.curr.player.x = 5;
    world.curr.player.y = 5;
    world.curr.transition = Some(Transition::FadeIn { t: 0, door: true });
    for _ in 0..11 {
        assert_eq!(step(&mut world, Input::default()).sfx, None);
    }
    assert_eq!(step(&mut world, Input::default()).sfx, Some("se_door"));
    assert_eq!(world.curr.transition, Some(Transition::ExitWalk { door_xy: Some((5, 5)) }));
    assert_eq!(world.curr.player.facing, Facing::Down);
}

#[test]
fn the_menu_cycles_the_whole_zooms() {
    let mut world = test_world();
    let mut press = |input: Input| {
        step(&mut world, input);
        step(&mut world, Input::default());
        f32::from_bits(world.curr.cam.zoom)
    };
    press(Input { start: true, ..Default::default() });
    press(Input { down: true, ..Default::default() });
    let a = Input { a: true, ..Default::default() };
    assert_eq!([press(a), press(a), press(a), press(a)], [3.0, 4.0, 1.0, 2.0]);
}

#[test]
fn a_fade_takes_twelve_frames_each_way() {
    let mut world = test_world();
    world.curr.realm = 1;
    world.curr.player.x = 4;
    world.curr.player.y = 7;
    world.prev = world.curr;
    let ev = step(&mut world, Input { down: true, ..Default::default() });
    assert_eq!(ev.sfx, Some("se_exit"));
    assert_eq!(world.fade(), Some((true, 0)));
    let mut seen = Vec::new();
    while world.curr.transition.is_some() && seen.len() < 100 {
        seen.push(world.fade());
        step(&mut world, Input { up: true, ..Default::default() });
    }
    assert_eq!(seen[11], Some((true, 11)));
    assert_eq!(seen[12], Some((false, 0)));
    assert_eq!(seen[23], Some((false, 11)));
    assert_eq!(seen[24], None, "then the player walks off the door");
    assert_eq!(world.fade(), None);
}

#[test]
fn the_scene_shows_what_lies_in_the_window() {
    let world = test_world();
    assert_eq!(scene(&world).len(), 60 * 40 + 400 + 2 + 1, "tiles, the tops of water and doors, the player");
    assert_eq!(world.scene(0, 0, 3, 2).len(), 7);
    assert_eq!(world.scene(-5, -5, 0, 0).len(), 1, "only the player");
    let items = world.menu_items(b"ZOOM: 2x".to_vec());
    assert_eq!(items.len(), 5);
    assert_eq!(items[0].label, b"LEVITATE: OFF".to_vec());
    assert_eq!(items[1].label, b"ZOOM: 2x".to_vec());
    assert!(items[2].enabled && !items[3].enabled && items[4].enabled);
}

#[test]
fn a_broken_pack_is_told_apart() {
    let mut pack = test_pack();
    assert!(coherent(&pack));
    pack.start.realm = 2;
    assert!(!coherent(&pack));
    let mut pack = test_pack();
    pack.layouts[0].blockdata.pop();
    assert!(!coherent(&pack));
    let mut pack = test_pack();
    pack.realms[0].maps[1].x = 31;
    assert!(!coherent(&pack), "a map past its realm");
}

#[test]
fn stairs_give_no_elevation_and_bridges_keep_it() {
    let mut pack = test_pack();
    for (x, elevation) in [(11, 15u16), (12, 5), (13, 0), (14, 5)] {
        pack.layouts[0].blockdata[10 * 30 + x] = elevation << 12;
    }
    let mut world = world_of(pack);
    world.curr.player.facing = Facing::Right;
    let right = Input { right: true, ..Default::default() };
    for _ in 0..40 {
        step(&mut world, right);
    }
    assert_eq!((world.curr.player.x, world.curr.player.elevation), (11, 3), "a bridge, then a cliff");
    let p = world.curr.player;
    assert!(!p.can_enter(&world.graph, 0, 12, 10, false));
    assert!(p.can_enter(&world.graph, 0, 12, 10, true));
    assert!(p.can_enter(&world.graph, 0, 13, 10, false));
    world.curr.player.x = 12;
    world.curr.player.elevation = 5;
    for _ in 0..15 {
        step(&mut world, right);
    }
    step(&mut world, Input::default());
    assert_eq!(world.curr.player.x, 13);
    assert_eq!(world.curr.player.elevation, 0, "stairs");
    assert!(world.curr.player.can_enter(&world.graph, 0, 12, 10, false));
    assert!(world.curr.player.can_enter(&world.graph, 0, 14, 10, false));
}

#[test]
fn a_cell_is_baked_once() {
    let pack = test_pack();
    let baked = bake(&pack);
    // metatiles 1, 3 and 4 look alike, and so do land and water
    assert_eq!(baked.draw(0, 1).bottom, baked.draw(0, 3).bottom);
    assert_eq!(baked.draw(0, 0).bottom, baked.draw(0, 2).bottom);
    assert_ne!(baked.draw(0, 0).bottom, baked.draw(0, 1).bottom);
    assert_eq!(baked.draw(0, 500).bottom, CellRef::none());
    assert_eq!(baked.draw(9, 0).bottom, CellRef::none());
}

/// The color of a draw's whole cut, where it has but one.
fn color_of(w: &World, s: &Sprite) -> Option<[u8; 4]> {
    assert_eq!(s.tex, w.tex.atlases[0]);
    let rgba = &w.baked.atlases[0].rgba;
    let at = |x: u32, y: u32| {
        let i = ((y * ATLAS_SIZE + x) * 4) as usize;
        [rgba[i], rgba[i + 1], rgba[i + 2], rgba[i + 3]]
    };
    let first = at(s.src.x, s.src.y);
    let one = (0..16).all(|y| (0..16).all(|x| at(s.src.x + x, s.src.y + y) == first));
    one.then_some(first)
}

#[test]
fn a_tile_shows_its_metatile() {
    let mut world = test_world();
    let (land, floor) = ([40, 200, 40, 255], [200, 200, 40, 255]);
    let tile = |w: &World, x: i32, y: i32| -> Vec<(Option<[u8; 4]>, i16)> {
        w.scene(x, y, x + 1, y + 1)
            .iter()
            .filter(|s| s.layer != LAYER_PLAYER)
            .map(|s| (color_of(w, s), s.layer))
            .collect()
    };
    assert_eq!(tile(&world, 3, 3), vec![(Some(land), 0)], "the top of land is clear");
    assert_eq!(tile(&world, 5, 5), vec![(Some(floor), 0), (Some(floor), 20)], "a door");
    world.curr.realm = 1;
    assert_eq!(tile(&world, 0, 0), vec![(Some(floor), 0), (Some(floor), 1)], "a covered top");
    assert_eq!(tile(&world, 20, 20), vec![], "no tile");
}

#[test]
fn a_step_looks_around_only_where_it_must() {
    let mut world = test_world();
    world.curr.player.x = i32::MAX;
    let start = Input { start: true, ..Default::default() };
    assert!(!world.can_step(Input::default()));
    assert!(world.can_step(start), "the menu can be opened");
    world.step(start);
    assert!(world.can_step(Input::default()), "and stays open");
    world.step(Input { b: true, ..Default::default() });
    world.curr.menu = None;
    world.curr.transition = Some(Transition::DoorClose { x: 5, y: 5, t: 15 });
    assert!(world.can_step(Input::default()));
    world.curr.transition = Some(Transition::DoorOpen { x: 5, y: 5, t: 14 });
    assert!(world.can_step(Input::default()));
    world.step(Input::default());
    assert!(!world.can_step(Input::default()), "there is no tile to walk to");
}

#[test]
fn the_choreography_keeps_time() {
    let world = test_world();
    let begin = |tr: Transition| State { transition: Some(tr), ..world.curr };
    let run = |mut s: State| {
        let first = std::mem::discriminant(&s.transition.unwrap());
        let mut n = 0;
        let mut sfx = None;
        while s.transition.is_some_and(|t| std::mem::discriminant(&t) == first) {
            let m = advance_transition(&world.graph, s, s.transition.unwrap());
            s = m.state;
            sfx = m.events.sfx;
            n += 1;
        }
        (n, s.transition, sfx, s.player)
    };
    let warp = Warp { x: 5, y: 5, to_realm: 1, to_x: 4, to_y: 7 };
    let (n, next, _, p) = run(begin(Transition::DoorOpen { x: 10, y: 11, t: 0 }));
    assert_eq!((n, next), (16, Some(Transition::DoorWait { x: 10, y: 11 })));
    assert_eq!((p.x, p.y), (10, 11));
    let (n, next, _, p) = run(begin(Transition::FadeOut { warp, t: 0, door: true }));
    assert_eq!((n, next), (12, Some(Transition::FadeIn { t: 0, door: true })));
    assert_eq!((p.x, p.y), (4, 7));
    let (n, next, sfx, _) = run(begin(Transition::FadeIn { t: 0, door: true }));
    assert_eq!((n, next, sfx), (12, None, None), "no door here");
    let mut s = begin(Transition::FadeIn { t: 0, door: true });
    (s.player.x, s.player.y) = (5, 5);
    let (n, next, sfx, p) = run(s);
    assert_eq!((n, next), (12, Some(Transition::ExitWalk { door_xy: Some((5, 5)) })));
    assert_eq!((sfx, p.y), (Some("se_door"), 6));
    let (n, next, _, p) = run(begin(Transition::DoorClose { x: 5, y: 5, t: 0 }));
    assert_eq!((n, next, p), (16, None, world.curr.player));
}

#[test]
fn levitation_warps_at_once() {
    let mut world = test_world();
    world.curr.levitate = true;
    world.curr.player.x = 5;
    world.curr.player.y = 6;
    world.curr.player.facing = Facing::Up;
    for _ in 0..40 {
        let ev = step(&mut world, Input { up: true, ..Default::default() });
        assert_eq!((ev.door_enter, world.curr.transition), (None, None));
        if ev.warp.is_some() {
            break;
        }
    }
    assert_eq!(world.curr.realm, 1);
    let p = world.curr.player;
    assert_eq!((p.x, p.y, p.motion), (4, 7, Motion::Idle));
    assert_eq!(world.prev, world.curr);
}
