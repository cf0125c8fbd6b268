//! The world pack file.

use emerald::game::data::{
    DoorData, Image, LayoutData, MapData, RealmData, Start, TilesetData, WarpData, WorldPack,
};

#[test]
fn roundtrip() {
    let pack = WorldPack {
        tilesets: vec![TilesetData {
            name: "gTileset_Test".into(),
            is_secondary: false,
            tiles_4bpp: vec![0xAB; 64],
            palettes: [[1, 2, 3, 255]; 256],
            metatiles: vec![0x1234; 16],
            attributes: vec![0x1000, 0],
        }],
        pairs: vec![(0, 0)],
        layouts: vec![LayoutData {
            id: "LAYOUT_TEST".into(),
            width: 2,
            height: 1,
            pair: 0,
            blockdata: vec![1, 0x0401],
        }],
        realms: vec![RealmData {
            width: 2,
            height: 1,
            maps: vec![MapData {
                id: "MAP_TEST".into(),
                music: "MUS_TEST".into(),
                layout: 0,
                x: 0,
                y: 0,
                warps: vec![WarpData { x: 1, y: 0, to_realm: 0, to_x: 0, to_y: 0 }],
            }],
        }],
        player: Image { rgba: vec![7; 16 * 32 * 4], w: 16, h: 32 },
        font: Image { rgba: vec![9; 16 * 16 * 4], w: 16, h: 16 },
        font_widths: vec![6],
        surf_player: Image { rgba: vec![1; 192 * 32 * 4], w: 192, h: 32 },
        surf_blob: Image { rgba: vec![2; 96 * 32 * 4], w: 96, h: 32 },
        bike: Image { rgba: vec![3; 288 * 32 * 4], w: 288, h: 32 },
        doors: vec![DoorData {
            tileset: 0,
            metatile: 1,
            frames: Image { rgba: vec![4; 16 * 96 * 4], w: 16, h: 96 },
        }],
        surfable: [0xAA; 32],
        warp_dir: [0; 256],
        start: Start { realm: 0, x: 1, y: 0 },
    };
    let bytes = pack.to_bytes();
    assert_eq!(WorldPack::from_bytes(&bytes).unwrap(), pack);
    assert!(WorldPack::from_bytes(&bytes[..bytes.len() - 3]).is_err());
    assert!(WorldPack::from_bytes(b"NOTMAGIC").is_err());
}

#[test]
fn what_a_pack_is_refused_for() {
    let message = |b: &[u8]| WorldPack::from_bytes(b).unwrap_err().0;
    let good = empty_pack().to_bytes();
    assert_eq!(message(b"EMWORLD3"), "bad magic (regenerate with worldgen)");
    assert_eq!(message(b"EMWORLD4"), "truncated");
    let mut odd = good.clone();
    odd.push(0);
    assert!(WorldPack::from_bytes(&odd).is_ok(), "what follows a pack does not matter");
}

fn empty_pack() -> WorldPack {
    let none = || Image { rgba: vec![], w: 0, h: 0 };
    WorldPack {
        tilesets: vec![],
        pairs: vec![],
        layouts: vec![],
        realms: vec![],
        player: none(),
        font: none(),
        font_widths: vec![],
        surf_player: none(),
        surf_blob: none(),
        bike: none(),
        doors: vec![],
        surfable: [0; 32],
        warp_dir: [0; 256],
        start: Start { realm: 0, x: 0, y: 0 },
    }
}

#[test]
fn each_fault_of_a_pack_has_its_message() {
    let message = |p: &WorldPack| WorldPack::from_bytes(&p.to_bytes()).unwrap_err().0;
    let bad = || Image { rgba: vec![0; 3], w: 1, h: 1 };
    assert_eq!(message(&WorldPack { player: bad(), ..empty_pack() }), "player image size mismatch");
    assert_eq!(message(&WorldPack { font: bad(), ..empty_pack() }), "font image size mismatch");
    assert_eq!(message(&WorldPack { surf_player: bad(), ..empty_pack() }), "image size mismatch");
    assert_eq!(message(&WorldPack { surf_blob: bad(), ..empty_pack() }), "image size mismatch");
    assert_eq!(message(&WorldPack { bike: bad(), ..empty_pack() }), "image size mismatch");
    let doors = vec![DoorData { tileset: 0, metatile: 0, frames: bad() }];
    assert_eq!(message(&WorldPack { doors, ..empty_pack() }), "door image size mismatch");

    let mut long = b"EMWORLD4".to_vec();
    long.extend([0xFF; 8]);
    assert_eq!(WorldPack::from_bytes(&long).unwrap_err().0, "length exceeds data");
    let mut name = b"EMWORLD4".to_vec();
    name.extend([1, 0, 0, 0, 1, 0, 0, 0, 0xFF]);
    assert_eq!(WorldPack::from_bytes(&name).unwrap_err().0, "bad utf8");
}
