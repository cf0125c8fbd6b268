//! Reading the sources of the world: tilesets, layouts, maps, graphics, doors
//! and the font, and stitching the overworld.

use emerald::files::Files;
use emerald::game::data::{Image, LayoutData, TilesetData};
use emerald::worldgen::behaviors::{parse_behaviors, surfable_mask, warp_dirs};
use emerald::worldgen::doors::{bake_door, parse_doors};
use emerald::worldgen::extract::extract;
use emerald::worldgen::font::{bake_font, parse_charmap, parse_widths};
use emerald::worldgen::graphics::{
    bake_sheet, decode_indexed_png, parse_jasc, stack_sheets, tileset_palettes, to_gba_4bpp,
    unpack, Decoded, Indexed, Picture, Rgb,
};
use emerald::worldgen::layouts::{layout_rows, wanted, Layouts, Wanted};
use emerald::worldgen::maps::{
    low_signed_of, make_connection, make_map, make_warp, map_names, read_map, Connection, Entry,
    RawMap, RawWarp, Side,
};
use emerald::worldgen::realms::{extent, make_realms, start_place};
use emerald::worldgen::stitch::{find_map, map_ids, stitch};
use emerald::worldgen::tilesets::{bound_path, parse_tilesets};

fn text(s: &str) -> Vec<char> {
    s.chars().collect()
}

fn texts(v: &[&str]) -> Vec<Vec<char>> {
    v.iter().map(|s| text(s)).collect()
}

#[test]
fn tileset_definitions() {
    let defs = parse_tilesets(
        "const struct Tileset gTileset_General =\n{\n    .isCompressed = TRUE,\n    .isSecondary = FALSE,\n    .tiles = gTilesetTiles_General,\n    .palettes = gTilesetPalettes_General,\n    .metatiles = gMetatiles_General,\n    .metatileAttributes = gMetatileAttributes_General,\n};\n\nconst struct Tileset gTileset_Half =\n{\n    .isSecondary = TRUE,\n    .tiles = x,\n};\nconst struct Tileset other =\n{\n};\nconst struct Tileset gTileset_Cave =\n{\n    .isSecondary = TRUE,\n    .tiles = a,\n    .palettes = b,\n    .metatiles = c,\n    .metatileAttributes = d\n};\n",
    );
    assert_eq!(defs.len(), 2);
    assert_eq!(defs[0].name, "gTileset_General");
    assert!(!defs[0].is_secondary);
    assert_eq!(defs[0].tiles, "gTilesetTiles_General");
    assert_eq!(defs[0].palettes, "gTilesetPalettes_General");
    assert_eq!(defs[0].metatiles, "gMetatiles_General");
    assert_eq!(defs[0].attributes, "gMetatileAttributes_General");
    assert_eq!(defs[1].name, "gTileset_Cave");
    assert!(defs[1].is_secondary);
    assert_eq!(defs[1].attributes, "d");

    let source = text("const u32 gTilesetTiles_General[] = INCGFX_U32(\"data/general/tiles.png\", \".4bpp\");\n");
    assert_eq!(
        bound_path(&source, "gTilesetTiles_General"),
        Some("data/general/tiles.png".to_string())
    );
    assert_eq!(bound_path(&source, "gTilesetTiles_Cave"), None);
}

fn png_file(depth: png::BitDepth, w: u32, h: u32, rows: &[u8]) -> Vec<u8> {
    let mut out = Vec::new();
    {
        let mut e = png::Encoder::new(&mut out, w, h);
        e.set_color(png::ColorType::Indexed);
        e.set_depth(depth);
        e.set_palette(vec![0u8; 48]);
        let mut wr = e.write_header().unwrap();
        wr.write_image_data(rows).unwrap();
    }
    out
}

#[test]
fn indexed_pictures() {
    match decode_indexed_png(&png_file(png::BitDepth::Four, 3, 2, &[0x12, 0x30, 0x45, 0x60])) {
        Decoded::Pixels(p) => {
            assert_eq!((p.w, p.h), (3, 2));
            assert_eq!(p.pixels, vec![1, 2, 3, 4, 5, 6]);
        }
        _ => panic!("a picture"),
    }
    match decode_indexed_png(&png_file(png::BitDepth::Two, 5, 1, &[0b00_01_10_11, 0b10_00_00_00])) {
        Decoded::Pixels(p) => assert_eq!(p.pixels, vec![0, 1, 2, 3, 2]),
        _ => panic!("a picture"),
    }
    match decode_indexed_png(&png_file(png::BitDepth::Eight, 2, 1, &[7, 9])) {
        Decoded::Pixels(p) => assert_eq!(p.pixels, vec![7, 9]),
        _ => panic!("a picture"),
    }
    assert!(
        matches!(decode_indexed_png(&png_file(png::BitDepth::One, 8, 1, &[0])), Decoded::Unusable),
        "one bit is too few"
    );
    assert!(matches!(decode_indexed_png(b"no picture"), Decoded::Unusable));
    let mut grey = Vec::new();
    {
        let mut e = png::Encoder::new(&mut grey, 1, 1);
        e.set_color(png::ColorType::Grayscale);
        e.set_depth(png::BitDepth::Eight);
        e.write_header().unwrap().write_image_data(&[3]).unwrap();
    }
    assert!(matches!(decode_indexed_png(&grey), Decoded::Unusable));
    let short = Picture { color: 3, depth: 8, width: 2, height: 2, line: 2, bytes: vec![1, 2, 3] };
    assert!(unpack(&short).is_none());
}

#[test]
fn tiles_low_nibble_first() {
    let mut pixels = vec![0u8; 16 * 8];
    pixels[0] = 1;
    pixels[1] = 2;
    pixels[8] = 3;
    pixels[16 * 7 + 15] = 0xF;
    let t = to_gba_4bpp(&pixels, 16).unwrap();
    assert_eq!(t.len(), 64);
    assert_eq!(t[0], 0x21);
    assert_eq!(t[32], 0x03);
    assert_eq!(t[63], 0xF0);
    assert!(to_gba_4bpp(&pixels, 4).is_none(), "narrower than a tile");
}

#[test]
fn palettes() {
    let file = "JASC-PAL\n0100\n16\n1 2 3\n255 0 7 9\nx y z\n4 5 300\n8 8 8\n";
    let p = parse_jasc(file);
    let triples: Vec<(u8, u8, u8)> = p.iter().map(|c| (c.r, c.g, c.b)).collect();
    assert_eq!(triples, vec![(1, 2, 3), (255, 0, 7), (8, 8, 8)]);
    let mut files = vec![None; 16];
    files[1] = Some(file.to_string());
    let all = tileset_palettes(&files).unwrap();
    assert_eq!(all[16], [1, 2, 3, 0], "color 0 is transparent");
    assert_eq!(all[17], [255, 0, 7, 255]);
    assert_eq!(all[0], [0, 0, 0, 0]);
    let long = format!("a\nb\nc\n{}", "1 1 1\n".repeat(17));
    files[15] = Some(long);
    assert!(tileset_palettes(&files).is_none(), "colors past the last");
}

#[test]
fn sheets() {
    let pal = vec![Rgb { r: 9, g: 9, b: 9 }, Rgb { r: 1, g: 2, b: 3 }];
    let sheet = Indexed { pixels: vec![0, 1], w: 2, h: 1 };
    let a = bake_sheet(&sheet, &pal).unwrap();
    assert_eq!(a, Image { rgba: vec![9, 9, 9, 0, 1, 2, 3, 255], w: 2, h: 1 });
    let b = Image { rgba: vec![5; 8], w: 2, h: 1 };
    let both = stack_sheets(a, b).unwrap();
    assert_eq!((both.w, both.h, both.rgba.len()), (2, 2, 16));
    assert!(bake_sheet(&Indexed { pixels: vec![2], w: 1, h: 1 }, &pal).is_none());
    let tall = Image { rgba: vec![], w: 0, h: u32::MAX };
    assert!(stack_sheets(tall, Image { rgba: vec![], w: 0, h: 1 }).is_none());
}

#[test]
fn layouts_and_their_pairs() {
    let doc = r#"{"layouts": [
        {"id": "LAYOUT_A", "width": 2, "height": 2, "primary_tileset": "g", "secondary_tileset": "h", "blockdata_filepath": "a.bin"},
        null,
        {"id": "LAYOUT_B", "width": 1, "height": 1, "primary_tileset": "0", "secondary_tileset": "0", "blockdata_filepath": "b.bin"},
        {"id": "LAYOUT_C", "width": 1, "height": 1, "primary_tileset": "g", "secondary_tileset": "h", "blockdata_filepath": "c.bin"},
        {"id": "LAYOUT_D", "primary_tileset": "h", "secondary_tileset": "g", "blockdata_filepath": "d.bin"}
    ]}"#;
    let rows = layout_rows(doc).unwrap();
    assert_eq!(rows.len(), 5);
    assert_eq!(rows[0].path, Some("a.bin".to_string()));
    let names = texts(&["g", "h"]);
    assert!(matches!(wanted(&rows[0], &names), Wanted::Blocks { primary: 0, secondary: 1 }));
    assert!(matches!(wanted(&rows[1], &names), Wanted::Nothing));
    assert!(matches!(wanted(&rows[2], &names), Wanted::Nothing));
    assert!(matches!(wanted(&rows[4], &names), Wanted::Fault));
    let mut l = Layouts::new();
    assert!(l.add(&rows[0], 0, 1, &[1, 0, 2, 4, 9]));
    assert!(l.add(&rows[3], 0, 1, &[7, 0, 8, 0]));
    assert_eq!(l.pairs, vec![(0, 1)], "a pair is listed once");
    assert_eq!(l.layouts[0].id, "LAYOUT_A");
    assert_eq!(l.layouts[0].blockdata, vec![1, 0x402, 0, 0], "a short file is filled up");
    assert_eq!(l.layouts[1].blockdata, vec![7], "a long one is cut");
    assert!(layout_rows("{}").is_none());
    assert!(layout_rows("no document").is_none());
}

#[test]
fn map_lists_and_maps() {
    let groups = r#"{"group_order": ["b", "a"], "a": ["One"], "b": ["Two", "Three"], "c": ["Four"]}"#;
    assert_eq!(map_names(groups).unwrap(), vec!["Two", "Three", "One"]);
    assert!(map_names(r#"{"group_order": ["x"]}"#).is_none());

    let doc = r#"{"id": "MAP_A", "layout": "LAYOUT_A",
        "connections": [
            {"direction": "up", "offset": -3, "map": "MAP_B"},
            {"direction": "dive", "offset": 0, "map": "MAP_C"}
        ],
        "warp_events": [
            {"x": 5, "y": 6, "dest_map": "MAP_D", "dest_warp_id": "2"},
            {"x": 5, "y": 6, "dest_map": "MAP_D", "dest_warp_id": "WARP_ID_DYNAMIC"}
        ]}"#;
    let ids = texts(&["LAYOUT_Z", "LAYOUT_A"]);
    match read_map(doc, &ids) {
        Entry::Taken(m) => {
            assert_eq!((m.id.as_str(), m.music.as_str(), m.layout), ("MAP_A", "MUS_NONE", 1));
            assert_eq!(m.connections.len(), 1);
            assert!(matches!(m.connections[0].side, Side::Up));
            assert_eq!((m.connections[0].offset, m.connections[0].map.as_str()), (-3, "MAP_B"));
            assert_eq!(m.warps.len(), 1);
            assert_eq!((m.warps[0].x, m.warps[0].y, m.warps[0].index), (5, 6, 2));
        }
        _ => panic!("a map"),
    }
    assert!(matches!(read_map(r#"{"id": "MAP_A", "layout": "LAYOUT_Q"}"#, &ids), Entry::Left));
    assert!(matches!(read_map(r#"{"id": "MAP_A"}"#, &ids), Entry::Faulty));
    match read_map(r#"{"id": "MAP_A", "layout": "LAYOUT_A", "music": "MUS_X", "connections": null}"#, &ids) {
        Entry::Taken(m) => {
            assert_eq!(m.music, "MUS_X");
            assert!(m.connections.is_empty() && m.warps.is_empty());
        }
        _ => panic!("a map"),
    }
    let some = |s: &str| Some(s.to_string());
    assert!(matches!(make_connection(some("left"), None, some("M")), Entry::Faulty));
    assert!(matches!(make_connection(None, None, None), Entry::Left));
    assert!(make_warp(some("M"), some("1"), Some(1), None).is_none());
    assert_eq!(make_warp(some("M"), some("1"), Some(0x1_0000_0003), Some(-1)).unwrap().x, 3);
    assert_eq!(low_signed_of(0xFFFF_FFFF), -1);
    assert!(matches!(make_map(some("LAYOUT_A"), None, None, Some(vec![]), vec![], &ids), Entry::Faulty));
}

fn layout(id: &str, width: u32, height: u32) -> LayoutData {
    LayoutData { id: id.into(), width, height, pair: 0, blockdata: vec![0; (width * height) as usize] }
}

fn raw(id: &str, layout: u16, to: Vec<(Side, i64, &str)>, warps: Vec<(i32, i32, &str, u64)>) -> RawMap {
    RawMap {
        id: id.into(),
        music: "MUS_NONE".into(),
        layout,
        connections: to
            .into_iter()
            .map(|(side, offset, map)| Connection { side, offset, map: map.into() })
            .collect(),
        warps: warps
            .into_iter()
            .map(|(x, y, dest, index)| RawWarp { x, y, dest: dest.into(), index })
            .collect(),
    }
}

fn country() -> (Vec<RawMap>, Vec<LayoutData>) {
    let layouts = vec![layout("A", 10, 8), layout("B", 6, 4)];
    let raws = vec![
        raw("MAP_HOUSE", 1, vec![], vec![(2, 3, "MAP_MAUVILLE_CITY", 0)]),
        raw(
            "MAP_MAUVILLE_CITY",
            0,
            vec![(Side::Up, 2, "MAP_N"), (Side::Right, -1, "MAP_E"), (Side::Left, 0, "MAP_NOWHERE")],
            vec![(4, 4, "MAP_HOUSE", 0), (7, 5, "MAP_MAUVILLE_CITY_POKEMON_CENTER_1F", 0), (1, 1, "MAP_HOUSE", 9)],
        ),
        raw("MAP_N", 1, vec![(Side::Down, 5, "MAP_MAUVILLE_CITY")], vec![]),
        raw("MAP_E", 1, vec![(Side::Left, 1, "MAP_MAUVILLE_CITY")], vec![]),
    ];
    (raws, layouts)
}

#[test]
fn the_overworld_is_stitched() {
    let (raws, layouts) = country();
    let ids = map_ids(&raws);
    let seed = find_map(&ids, "MAP_MAUVILLE_CITY").unwrap();
    assert_eq!(find_map(&ids, "MAP_NOWHERE"), None);
    let pos = stitch(&raws, &layouts, seed).unwrap();
    // the first placement counts, whatever the way back claims
    assert_eq!(pos, vec![None, Some((0, 0)), Some((2, -4)), Some((10, -1))]);
    let e = extent(&raws, &layouts, &pos).unwrap();
    assert_eq!((e.left, e.top, e.right, e.bottom), (0, -4, 16, 8));
    let start = start_place(&raws, &pos, e).unwrap();
    assert_eq!((start.realm, start.x, start.y), (0, 7, 10));
    let realms = make_realms(&raws, &layouts, &pos, e).unwrap();
    assert_eq!(realms.len(), 2);
    assert_eq!((realms[0].width, realms[0].height), (16, 12));
    assert_eq!((realms[1].width, realms[1].height), (6, 4));
    assert_eq!(realms[0].maps.len(), 3);
    assert_eq!((realms[0].maps[0].x, realms[0].maps[0].y), (0, 4));
    assert_eq!((realms[0].maps[1].x, realms[0].maps[1].y), (2, 0));
    let door = realms[0].maps[0].warps[0];
    assert_eq!((door.x, door.y, door.to_realm, door.to_x, door.to_y), (4, 8, 1, 2, 3));
    assert_eq!(realms[0].maps[0].warps.len(), 1, "a warp to nowhere is left out");
    let back = realms[1].maps[0].warps[0];
    assert_eq!((back.x, back.y, back.to_realm, back.to_x, back.to_y), (2, 3, 0, 4, 8));
}

#[test]
fn one_seam_is_left_open() {
    let layouts = vec![layout("A", 4, 4)];
    let raws = vec![
        raw("MAP_ROUTE102", 0, vec![(Side::Left, 0, "MAP_PETALBURG_CITY"), (Side::Right, 0, "MAP_X")], vec![]),
        raw("MAP_PETALBURG_CITY", 0, vec![], vec![]),
        raw("MAP_X", 0, vec![], vec![]),
    ];
    let pos = stitch(&raws, &layouts, 0).unwrap();
    assert_eq!(pos, vec![Some((0, 0)), None, Some((4, 0))]);
}

#[test]
fn an_overworld_past_the_numbers() {
    let layouts = vec![layout("A", 4, 4)];
    let raws = vec![
        raw("MAP_A", 0, vec![(Side::Up, i32::MAX as i64, "MAP_B")], vec![]),
        raw("MAP_B", 0, vec![(Side::Up, 1, "MAP_C")], vec![]),
        raw("MAP_C", 0, vec![], vec![]),
    ];
    assert!(stitch(&raws, &layouts, 0).is_none());
    assert!(extent(&raws, &layouts, &vec![None, None, None]).is_none());
    assert!(extent(&raws, &layouts, &vec![Some((i32::MAX, 0)), None, None]).is_none());
}

#[test]
fn behaviors() {
    let names = parse_behaviors(
        "enum {\n    MB_NORMAL,\n    MB_POND_WATER, // deep\n    MB_Odd,\n    MB_SOUTH_ARROW_WARP,\n    MB_EAST_ARROW_WARP,\n    MB_WEST_ARROW_WARP,\n    MB_NORTH_ARROW_WARP,\n    MB_WATER_SOUTH_ARROW_WARP,\n};\n",
    );
    assert_eq!(names[1], text("POND_WATER"));
    assert_eq!(names.len(), 7);
    let d = warp_dirs(&names);
    assert_eq!(&d[..8], &[0, 0, 1, 3, 4, 2, 1, 0]);
    let source = "static const u8 sTileBitAttributes[NUM] =\n{\n    [MB_NORMAL] = TILE_FLAG_UNUSED,\n    [MB_POND_WATER] = TILE_FLAG_UNUSED | TILE_FLAG_SURFABLE,\n    [MB_NOTHING] = TILE_FLAG_SURFABLE,\n};\n[MB_NORMAL] = TILE_FLAG_SURFABLE\n";
    let m = surfable_mask(source, &names).unwrap();
    assert_eq!(m[0], 2);
    assert!(m[1..].iter().all(|b| *b == 0));
}

fn tileset(name: &str, is_secondary: bool, shade: u8) -> TilesetData {
    TilesetData {
        name: name.into(),
        is_secondary,
        tiles_4bpp: vec![],
        palettes: [[shade, 0, 0, 255]; 256],
        metatiles: vec![],
        attributes: vec![],
    }
}

#[test]
fn doors() {
    let labels = "#define METATILE_General_Door 0x021\n#define METATILE_Cave_Door 0x0C7\n#define METATILE_Odd x\n";
    let source = "static const u8 sDoorAnimTiles_General[] = INCGFX_U8(\"graphics/general.png\", \".4bpp\");\nstatic const u8 sDoorAnimTiles_Cave[] = INCGFX_U8(\"graphics/cave.png\", \".4bpp\");\nstatic const u8 sDoorAnimPalettes_General[] = {1, 1, 1, 1, 1, 1, 1, 1};\nstatic const u8 sDoorAnimPalettes_Cave[] = {7, 2, 7, 7, 7, 7, 7, 7};\nstatic const struct DoorGraphics sDoorAnimGraphicsTable[] =\n{\n    {METATILE_General_Door, DOOR_SOUND_NORMAL, 1, sDoorAnimTiles_General, sDoorAnimPalettes_General},\n    {METATILE_Cave_Door, DOOR_SOUND_NORMAL, 1, sDoorAnimTiles_Cave, sDoorAnimPalettes_Cave},\n    {METATILE_Cave_Door, DOOR_SOUND_NORMAL, 2, sDoorAnimTiles_Cave, sDoorAnimPalettes_Cave},\n    {},\n};\n";
    let found = parse_doors(labels, source, &texts(&["gTileset_General", "gTileset_Cave"]));
    assert_eq!(found.len(), 2, "a door two tiles wide is left out");
    assert_eq!((found[0].tileset, found[0].metatile, found[0].path.as_str()), (0, 0x21, "graphics/general.png"));
    assert_eq!((found[1].tileset, found[1].metatile), (1, 0xC7));
    assert_eq!(found[1].slots, vec![7, 2, 7, 7, 7, 7, 7, 7]);

    let general = tileset("gTileset_General", false, 10);
    let cave = tileset("gTileset_Cave", true, 20);
    let mut pixels = vec![1u8; 16 * 96];
    pixels[1] = 0;
    let rgba = bake_door(&pixels, &found[1].slots, &general, &cave).unwrap();
    assert_eq!(rgba.len(), 16 * 96 * 4);
    assert_eq!(&rgba[..8], &[20, 0, 0, 255, 0, 0, 0, 0]);
    assert_eq!(rgba[8 * 4], 10, "slots below six are the primary's");
    assert!(bake_door(&pixels, &vec![16; 8], &general, &cave).is_none(), "no such palette");
}

#[test]
fn the_font() {
    let codes = parse_charmap("'A' = 01 @ a\n'B'=02\n'C' = 003\n'AB' = 04\n'A' = 05\nnothing\n");
    let known: Vec<(char, usize)> = codes.iter().map(|c| (c.ch, c.code)).collect();
    assert_eq!(known, vec![('A', 1), ('B', 2), ('A', 5)]);
    let widths = parse_widths("const u8 gFontNormalLatinGlyphWidths[] = {\n 3, 8,\n};\n").unwrap();
    assert_eq!(widths, vec![3, 8]);
    assert!(parse_widths("nothing").is_none());
    // three cells of 16 pixels in two columns: blank, text, shadow
    let (w, h) = (32usize, 32usize);
    let mut pixels = vec![0u8; w * h];
    for y in 0..16 {
        for x in 0..16 {
            pixels[y * w + 16 + x] = 1;
            pixels[(y + 16) * w + x] = 2;
        }
    }
    let sheet = Indexed { pixels, w: w as u32, h: h as u32 };
    let (image, advances) = bake_font(&codes, &widths, &sheet).unwrap();
    assert_eq!((image.w, image.h, image.rgba.len()), (96 * 16, 16, 96 * 256 * 4));
    assert_eq!(advances.len(), 96);
    assert_eq!((advances[0], advances[33], advances[34], advances[35], advances[95]), (3, 8, 6, 0, 16));
    let at = |slot: usize| &image.rgba[slot * 64..slot * 64 + 4];
    assert_eq!(at(33), &[96, 96, 104, 255]);
    assert_eq!(at(34), &[208, 208, 216, 255]);
    assert_eq!(at(35), &[0, 0, 0, 0]);
    assert_eq!(at(95), &[255, 255, 255, 255]);
    let small = Indexed { pixels: vec![0; 16 * 16], w: 16, h: 16 };
    assert!(bake_font(&codes, &widths, &small).is_none(), "a glyph is missing");
}

/// A source tree of three places and a house.
fn source_tree() -> Files {
    let mut f = Files::new();
    let text = |f: &mut Files, path: &str, t: &str| f.add(path, t.as_bytes().to_vec());
    text(
        &mut f,
        "src/data/tilesets/headers.h",
        "const struct Tileset gTileset_General =\n{\n    .isSecondary = FALSE,\n    .tiles = gTiles,\n    .palettes = gPals,\n    .metatiles = gMetatiles,\n    .metatileAttributes = gAttributes,\n};\n",
    );
    text(
        &mut f,
        "src/data/tilesets/graphics.h",
        "const u32 gTiles[] = INCGFX(\"data/general/tiles.png\");\nconst u16 gPals[][16] = {INCGFX(\"data/general/palettes/00.pal\")};\n",
    );
    text(
        &mut f,
        "src/data/tilesets/metatiles.h",
        "const u16 gMetatiles[] = INCBIN(\"data/general/metatiles.bin\");\nconst u16 gAttributes[] = INCBIN(\"data/general/attributes.bin\");\n",
    );
    f.add("data/general/tiles.png", png_file(png::BitDepth::Eight, 8, 8, &[1; 64]));
    text(&mut f, "data/general/palettes/00.pal", "JASC-PAL\n0100\n16\n1 1 1\n2 3 4\n");
    text(&mut f, "data/general/palettes/12.pal", "JASC-PAL\n0100\n16\n9 9 9\n");
    f.add("data/general/metatiles.bin", vec![0; 16]);
    f.add("data/general/attributes.bin", vec![0x10, 0]);
    text(
        &mut f,
        "data/layouts/layouts.json",
        r#"{"layouts": [
            {"id": "L", "width": 3, "height": 2, "primary_tileset": "gTileset_General", "secondary_tileset": "gTileset_General", "blockdata_filepath": "data/layouts/l.bin"},
            {"id": "M", "width": 1, "height": 1, "primary_tileset": "0", "secondary_tileset": "0", "blockdata_filepath": "none"}
        ]}"#,
    );
    f.add("data/layouts/l.bin", vec![1, 0, 2, 0]);
    text(
        &mut f,
        "data/maps/map_groups.json",
        r#"{"group_order": ["g"], "g": ["Littleroot", "Route115", "Rustboro", "Mauville", "House", "Unused"]}"#,
    );
    let maps = [
        ("Littleroot", "MAP_LITTLEROOT_TOWN", r#"[{"direction": "right", "offset": 0, "map": "MAP_ROUTE115"}]"#, "[]"),
        ("Route115", "MAP_ROUTE115", r#"[{"direction": "down", "offset": 1, "map": "MAP_RUSTBORO_CITY"}]"#, "[]"),
        ("Rustboro", "MAP_RUSTBORO_CITY", r#"[{"direction": "right", "offset": 0, "map": "MAP_MAUVILLE_CITY"}]"#, "[]"),
        (
            "Mauville",
            "MAP_MAUVILLE_CITY",
            "null",
            r#"[{"x": 1, "y": 0, "dest_map": "MAP_MAUVILLE_CITY_POKEMON_CENTER_1F", "dest_warp_id": "0"}]"#,
        ),
        (
            "House",
            "MAP_MAUVILLE_CITY_POKEMON_CENTER_1F",
            "null",
            r#"[{"x": 2, "y": 1, "dest_map": "MAP_MAUVILLE_CITY", "dest_warp_id": "0"}]"#,
        ),
    ];
    for (name, id, connections, warps) in maps {
        let doc = format!(
            r#"{{"id": "{id}", "layout": "L", "music": "MUS_A", "connections": {connections}, "warp_events": {warps}}}"#
        );
        text(&mut f, &format!("data/maps/{name}/map.json"), &doc);
    }
    text(&mut f, "data/maps/Unused/map.json", r#"{"id": "MAP_UNUSED", "layout": "M"}"#);
    text(&mut f, "graphics/object_events/palettes/brendan.pal", "a\nb\nc\n5 5 5\n6 7 8\n");
    for sheet in ["walking", "running", "surfing", "mach_bike"] {
        f.add(
            &format!("graphics/object_events/pics/people/brendan/{sheet}.png"),
            png_file(png::BitDepth::Eight, 2, 1, &[0, 1]),
        );
    }
    f.add("graphics/field_effects/pics/surf_blob.png", png_file(png::BitDepth::Eight, 1, 1, &[1]));
    text(&mut f, "charmap.txt", "'A' = 00\n");
    text(&mut f, "src/fonts.c", "gFontNormalLatinGlyphWidths[] = {4};");
    f.add("graphics/fonts/latin_normal.png", png_file(png::BitDepth::Eight, 16, 16, &[1; 256]));
    text(&mut f, "include/constants/metatile_labels.h", "#define METATILE_General_Door 0x000\n");
    text(
        &mut f,
        "src/field_door.c",
        "static const u8 sDoorAnimTiles_G[] = INCGFX_U8(\"graphics/door.png\", \".4bpp\");\nstatic const u8 sDoorAnimPalettes_G[] = {0};\nsDoorAnimGraphicsTable[] =\n{\n    {METATILE_General_Door, SOUND, 1, sDoorAnimTiles_G, sDoorAnimPalettes_G},\n};\n",
    );
    f.add("graphics/door.png", png_file(png::BitDepth::Eight, 16, 96, &[1; 16 * 96]));
    text(&mut f, "include/constants/metatile_behaviors.h", "MB_NORMAL,\nMB_SOUTH_ARROW_WARP,\nMB_POND,\n");
    text(&mut f, "src/metatile_behavior.c", "sTileBitAttributes[] = {\n[MB_POND] = TILE_FLAG_SURFABLE,\n};\n");
    f
}

#[test]
fn a_whole_world() {
    let p = extract(&source_tree()).unwrap();
    assert_eq!(p.tilesets.len(), 1);
    assert_eq!(p.tilesets[0].tiles_4bpp, vec![0x11; 32]);
    assert_eq!(p.tilesets[0].palettes[1], [2, 3, 4, 255]);
    assert_eq!(p.tilesets[0].palettes[192], [9, 9, 9, 0], "palette twelve");
    assert_eq!(p.tilesets[0].attributes, vec![0x10]);
    assert_eq!(p.pairs, vec![(0, 0)]);
    assert_eq!(p.layouts.len(), 1);
    assert_eq!(p.layouts[0].blockdata, vec![1, 2, 0, 0, 0, 0]);
    assert_eq!(p.realms.len(), 2);
    assert_eq!((p.realms[0].width, p.realms[0].height), (10, 4));
    let places: Vec<(i32, i32)> = p.realms[0].maps.iter().map(|m| (m.x, m.y)).collect();
    assert_eq!(places, vec![(0, 0), (3, 0), (4, 2), (7, 2)]);
    assert_eq!((p.start.realm, p.start.x, p.start.y), (0, 8, 3));
    assert_eq!((p.player.w, p.player.h), (2, 2));
    assert_eq!(&p.player.rgba[..8], &[5, 5, 5, 0, 6, 7, 8, 255]);
    assert_eq!(p.surf_blob.rgba, vec![6, 7, 8, 255]);
    assert_eq!(p.font_widths[33], 4);
    assert_eq!(p.doors.len(), 1);
    assert_eq!(&p.doors[0].frames.rgba[..4], &[2, 3, 4, 255]);
    assert_eq!(p.surfable[0], 4);
    assert_eq!(&p.warp_dir[..3], &[0, 1, 0]);
    assert!(emerald::game::data::WorldPack::from_bytes(&p.to_bytes()).unwrap() == p);
}

#[test]
fn a_source_tree_that_lacks_something() {
    let mut f = source_tree();
    f.add("data/maps/Route115/map.json", br#"{"id": "MAP_ELSEWHERE", "layout": "L"}"#.to_vec());
    assert!(extract(&f).is_none(), "a landmark is missing");
    let mut f = source_tree();
    f.add("graphics/door.png", b"no picture".to_vec());
    assert!(extract(&f).is_none());
    let mut f = source_tree();
    f.add("src/data/tilesets/headers.h", b"nothing".to_vec());
    assert!(extract(&f).is_none(), "no tilesets");
    let mut f = source_tree();
    f.add("charmap.txt", vec![0xFF]);
    assert!(extract(&f).is_none(), "no text");
    assert!(extract(&Files::new()).is_none());
}
