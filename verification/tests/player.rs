//! The player on the small hand-made world.

use emerald::game::map::{RealmGraph, OVERWORLD};
use emerald::game::player::{Facing, Motion, Player, StepEvents, TURN_STEPS};
use emerald::types::Input;

fn world_px(p: &Player) -> (f32, f32) {
    let (tx, ty) = (p.x as f32 * 16.0, p.y as f32 * 16.0);
    match p.motion {
        Motion::Moving { remaining_px, .. } => {
            let (dx, dy) = p.facing.delta();
            let left = f32::from_bits(remaining_px);
            (tx - dx as f32 * left, ty - dy as f32 * left)
        }
        _ => (tx, ty),
    }
}

fn press(dir: Facing) -> Input {
    match dir {
        Facing::Up => Input { up: true, ..Default::default() },
        Facing::Down => Input { down: true, ..Default::default() },
        Facing::Left => Input { left: true, ..Default::default() },
        Facing::Right => Input { right: true, ..Default::default() },
    }
}

#[test]
fn turning_takes_eight_steps_and_does_not_move() {
    let graph = RealmGraph::synthetic();
    let world = graph.realm(OVERWORLD);
    let mut p = Player::spawn(10, 10, world);
    let mut ev = StepEvents::default();
    p.step(press(Facing::Left), &graph, OVERWORLD, false, false, &mut ev);
    assert_eq!(p.facing, Facing::Left);
    assert!(matches!(p.motion, Motion::Turning { steps_left: TURN_STEPS }));
    for _ in 0..TURN_STEPS {
        p.step(press(Facing::Left), &graph, OVERWORLD, false, false, &mut ev);
    }
    // turn finished, still on the same tile, next step starts the move
    assert_eq!((p.x, p.y), (10, 10));
}

#[test]
fn moving_updates_tile_at_start_and_glides() {
    let graph = RealmGraph::synthetic();
    let world = graph.realm(OVERWORLD);
    let mut p = Player::spawn(10, 10, world);
    let mut ev = StepEvents::default();
    p.step(press(Facing::Down), &graph, OVERWORLD, false, false, &mut ev); // already facing down so move
    assert_eq!((p.x, p.y), (10, 11), "tile updates at move start");
    let (_, py) = world_px(&p);
    assert!(py < 11.0 * 16.0, "glide starts behind the target tile");
    // release the pad: the glide finishes without chaining into a new tile
    let mut steps = 1;
    while p.motion != Motion::Idle {
        p.step(Input::default(), &graph, OVERWORLD, false, false, &mut ev);
        steps += 1;
        assert!(steps < 60, "move must terminate");
    }
    assert_eq!(world_px(&p), (10.0 * 16.0, 11.0 * 16.0));
    // walking speed: 16 frames per tile
    assert_eq!(steps, 16);

    // held direction chains gaplessly: 32 more steps = exactly 32 px
    // (the tile COORD runs one ahead, it updates at each move start)
    let (_, py0) = world_px(&p);
    for _ in 0..32 {
        p.step(press(Facing::Down), &graph, OVERWORLD, false, false, &mut ev);
    }
    let (_, py1) = world_px(&p);
    assert_eq!(py1 - py0, 32.0, "no idle gap between chained tiles");

    // mid-motion turns are instant, no Turning state while moving
    p.step(press(Facing::Down), &graph, OVERWORLD, false, false, &mut ev);
    assert!(matches!(p.motion, Motion::Moving { .. }));
    for _ in 0..40 {
        p.step(press(Facing::Right), &graph, OVERWORLD, false, false, &mut ev);
        assert!(
            !matches!(p.motion, Motion::Turning { .. }),
            "no turn-in-place while in motion"
        );
    }
    assert_eq!(p.facing, Facing::Right);
    assert!(p.x > 10, "kept moving in the new direction without a pause");
}

#[test]
fn crossing_a_map_boundary_fires_entered_map() {
    let graph = RealmGraph::synthetic();
    let world = graph.realm(OVERWORLD);
    // spawn just west of the SYNTH_EAST border at x=30
    let mut p = Player::spawn(29, 10, world);
    assert_eq!(p.current_map, Some(0));
    let mut entered = None;
    for _ in 0..40 {
        let mut ev = StepEvents::default();
        p.step(press(Facing::Right), &graph, OVERWORLD, false, false, &mut ev);
        if ev.entered_map.is_some() {
            entered = ev.entered_map;
            break;
        }
    }
    assert_eq!(entered, Some(1), "walking east must enter SYNTH_EAST");
    assert_eq!(p.current_map, Some(1));
}

#[test]
fn cannot_leave_the_overworld_bounds() {
    let graph = RealmGraph::synthetic();
    let world = graph.realm(OVERWORLD);
    let mut p = Player::spawn(0, 0, world);
    let mut ev = StepEvents::default();
    p.step(press(Facing::Up), &graph, OVERWORLD, false, false, &mut ev); // turn
    for _ in 0..TURN_STEPS {
        p.step(press(Facing::Up), &graph, OVERWORLD, false, false, &mut ev);
    }
    p.step(press(Facing::Up), &graph, OVERWORLD, false, false, &mut ev); // would move off-grid
    assert_eq!((p.x, p.y), (0, 0));
    assert_eq!(p.motion, Motion::Idle);
}

#[test]
fn collision_blocks_movement() {
    let graph = RealmGraph::synthetic();
    let world = graph.realm(OVERWORLD);
    // the synthetic boulder sits at (20, 10); approach from the left
    let mut p = Player::spawn(19, 10, world);
    let mut ev = StepEvents::default();
    p.step(press(Facing::Right), &graph, OVERWORLD, false, false, &mut ev); // turn
    for _ in 0..TURN_STEPS {
        p.step(press(Facing::Right), &graph, OVERWORLD, false, false, &mut ev);
    }
    p.step(press(Facing::Right), &graph, OVERWORLD, false, false, &mut ev); // blocked move attempt
    assert_eq!((p.x, p.y), (19, 10), "boulder tile must block");
    assert_eq!(p.motion, Motion::Idle);
}

#[test]
fn stepping_onto_a_warp_tile_fires_the_warp_edge() {
    let graph = RealmGraph::synthetic();
    let world = graph.realm(OVERWORLD);
    // the synthetic door is at (5, 5); approach from (5, 4)
    let mut p = Player::spawn(5, 4, world);
    let mut warp = None;
    for _ in 0..20 {
        let mut ev = StepEvents::default();
        p.step(press(Facing::Down), &graph, OVERWORLD, false, false, &mut ev);
        if ev.warp.is_some() {
            warp = ev.warp;
            break;
        }
    }
    let w = warp.expect("stepping on the door tile must fire its warp");
    assert_eq!(w.to_realm, 1);
    p.apply_warp(w, graph.realm(w.to_realm));
    assert_eq!((p.x, p.y), (4, 6));
    assert_eq!(p.motion, Motion::Idle);
    assert_eq!(p.current_map, Some(0), "inside the house map now");
}
