//! Singles by their bits, text, and the menu's layout.

use emerald::game::bake::CellRef;
use emerald::game::bake::{PER_ATLAS, PER_ROW};
use emerald::game::map::{Cell, RealmGraph, OVERWORLD};
use emerald::game::player::{held_direction, Facing};
use emerald::game::ui::{Item, Piece, Ui};
use emerald::single::{bits_of, bits_of_1024ths, floor_bits, take_away};
use emerald::text::{
    chars_of, find_last, parse_number, split, split_lines, split_once, split_whitespace, string_of,
    strip_prefix, trim, trim_start_matches,
};
use emerald::types::{Input, Rgba, TextureId};

#[test]
fn cellref_src_walks_the_atlas_grid() {
    assert_eq!(CellRef(0).src(), (0, 0, 16, 16));
    assert_eq!(CellRef(0).atlas(), 0);
    assert_eq!(CellRef(PER_ROW).src(), (0, 16, 16, 16));
    assert_eq!(CellRef(PER_ATLAS + 1).atlas(), 1);
    assert_eq!(CellRef(PER_ATLAS + 1).src(), (16, 0, 16, 16));
}

#[test]
fn singles() {
    for n in [0u32, 1, 2, 3, 16, 8000, 44100, 16777215, 16777217, 16777219, u32::MAX] {
        assert_eq!(bits_of(n), (n as f32).to_bits(), "{n}");
        assert_eq!(bits_of_1024ths(n), (n as f32 / 1024.0).to_bits(), "{n}");
    }
    for (px, n) in [(16.0f32, 1u32), (1.0, 1), (0.5, 1), (2.5, 2), (4.0, 4), (15.75, 4)] {
        let left = px - n as f32;
        let want = if left > 0.0 { Some(left.to_bits()) } else { None };
        assert_eq!(take_away(px.to_bits(), n), want, "{px} - {n}");
    }
    for z in [0.0f32, 0.5, 1.0, 2.9999, 6.0, -0.5, -3.25, 1e30, -1e30] {
        assert_eq!(floor_bits(z.to_bits()), z.floor() as i32, "{z}");
    }
    assert_eq!(floor_bits(f32::NAN.to_bits()), 0);
}

#[test]
fn pieces_of_text() {
    let t = |s: &str| chars_of(s);
    assert_eq!(string_of(&t("h\u{e9}")), "h\u{e9}");
    assert_eq!(trim(&t(" \u{a0}a b\n")), t("a b"));
    assert_eq!(split(&t("a,,b"), ","), vec![t("a"), t(""), t("b")]);
    assert_eq!(split_once(&t("a=b=c"), "="), Some((t("a"), t("b=c"))));
    assert_eq!(split_once(&t("abc"), "="), None);
    assert_eq!(split_lines(&t("a\r\nb\n\nc")), vec![t("a"), t("b"), t(""), t("c")]);
    assert_eq!(split_whitespace(&t("  a \t b ")), vec![t("a"), t("b")]);
    assert_eq!(strip_prefix(&t("mus_a"), "mus_"), Some(t("a")));
    assert_eq!(trim_start_matches(&t("__a"), "_"), t("a"));
    assert_eq!(parse_number(&t("+7"), 10, 255), Some(7));
    assert_eq!(parse_number(&t("256"), 10, 255), None);
    assert_eq!(parse_number(&t("fF"), 16, 255), Some(255));
    assert_eq!(parse_number(&t(""), 10, 255), None);
    assert_eq!(find_last(&vec![t("a"), t("b"), t("a")], &t("a")), Some(2));
}

#[test]
fn directions_have_an_order() {
    let all = Input { up: true, down: true, left: true, right: true, ..Default::default() };
    assert_eq!(held_direction(all), Some(Facing::Up));
    assert_eq!(held_direction(Input { up: false, ..all }), Some(Facing::Down));
    assert_eq!(held_direction(Input { left: true, right: true, ..Default::default() }), Some(Facing::Left));
    assert_eq!(held_direction(Input::default()), None);
    assert_eq!(Facing::Up.delta(), (0, -1));
}

#[test]
fn the_small_world() {
    let g = RealmGraph::synthetic();
    let r = g.realm(OVERWORLD);
    assert!(r.in_bounds(0, 0) && !r.in_bounds(-1, 0) && !r.in_bounds(0, r.height));
    assert!(!r.passable(20, 10), "the boulder");
    assert!(r.passable(19, 10));
    assert_eq!(r.map_at(29, 10), Some(0));
    assert_eq!(r.map_at(30, 10), Some(1));
    assert_eq!(r.warp_at(5, 5).unwrap().to_realm, 1);
    assert!(r.warp_at(5, 6).is_none());
    assert!(r.cell(-1, 0).is_none());
    let cell = Cell { pair: 0, metatile: 0, collision: 0, elevation: 3 };
    assert!(!g.surfable(cell));
    assert_eq!(g.arrow_dir_at(OVERWORLD, 5, 5), None);
    assert_eq!(g.door_at(OVERWORLD, 5, 5), None);
}

#[test]
fn the_menu_is_laid_out() {
    let widths = vec![6u8; 96];
    let ui = Ui { tex: TextureId(0), widths: &widths };
    assert_eq!(ui.text_width(b"AB C"), 24);
    let item = |s: &str, enabled| Item { label: s.as_bytes().to_vec(), enabled };
    let (pieces, width) = ui.menu(&vec![item("SAVE", true), item("LOAD", false)], 1);
    let glyphs: Vec<(u8, i32, i32)> = pieces
        .iter()
        .filter_map(|p| match p {
            Piece::Glyph { slot, x, y, .. } => Some((*slot, *x, *y)),
            _ => None,
        })
        .collect();
    assert_eq!(glyphs.len(), 8);
    assert_eq!(glyphs[0].0, b'S' - 32);
    assert_eq!(glyphs[1].1 - glyphs[0].1, 6);
    assert_eq!(glyphs[4].2 - glyphs[0].2, 16, "a row is sixteen pixels high");
    assert!(width > 24);
    let mut out = Vec::new();
    assert_eq!(ui.text(&mut out, b"A", 3, 4, Rgba::white()), 9);
    assert!(matches!(out[0], Piece::Glyph { slot: 33, x: 3, y: 4, .. }));
}

#[test]
fn a_long_menu_is_laid_out() {
    let widths = vec![6u8; 96];
    let ui = Ui { tex: TextureId(0), widths: &widths };
    let wide: Vec<Item> =
        (0..2).map(|_| Item { label: vec![b'A'; 70000], enabled: true }).collect();
    let (pieces, width) = ui.menu(&wide, 0);
    assert_eq!((pieces.len(), width), (2 + 2 * 70000 + 5, 10 + 6 * 70000 + 6));
    let short: Vec<Item> = (0..300).map(|_| Item { label: vec![b'A'], enabled: true }).collect();
    let (pieces, width) = ui.menu(&short, 255);
    assert_eq!((pieces.len(), width), (2 + 300 + 5, 22));
    assert!(matches!(pieces[pieces.len() - 1], Piece::Glyph { y: 4787, .. }));
}
