//! What a baked metatile looks like, pixel by pixel.

use vstd::prelude::*;
use crate::game::bake;
use crate::game::bake::Baked;
use crate::game::data::{TilesetData, WorldPack};

verus! {

/// A flip mirrors: the left-right flip of an entry shows at each place of its
/// quadrant what the entry shows at the opposite place of the row, and the
/// top-bottom flip what it shows at the opposite place of the column.
pub proof fn a_flip_mirrors_a_tile(
    e: u16,
    prim: TilesetData,
    sec: TilesetData,
    x: int,
    y: int,
)
    requires
        0 <= x < 8,
        0 <= y < 8,
    ensures
        e / 1024 % 2 == 0 ==> bake::entry_pixel((e + 1024) as u16, prim, sec, x, y)
            == bake::entry_pixel(e, prim, sec, 7 - x, y),
        e / 2048 % 2 == 0 ==> bake::entry_pixel((e + 2048) as u16, prim, sec, x, y)
            == bake::entry_pixel(e, prim, sec, x, 7 - y),
{
    if e / 1024 % 2 == 0 {
        let f = (e + 1024) as u16;
        assert(f == e + 1024 && f % 1024 == e % 1024 && f / 1024 == e / 1024 + 1);
        assert(f / 2048 == e / 2048 && f / 4096 == e / 4096);
        assert(f / 1024 % 2 == 1);
    }
    if e / 2048 % 2 == 0 {
        let f = (e + 2048) as u16;
        assert(f == e + 2048 && f % 1024 == e % 1024 && f / 1024 == e / 1024 + 2);
        assert(f / 2048 == e / 2048 + 1 && f / 4096 == e / 4096);
        assert(f / 1024 % 2 == e / 1024 % 2 && f / 2048 % 2 == 1);
    }
}

/// An entry that is not flipped shows its tile as it is: of the primary tileset
/// for the first 512 numbers, of the secondary behind them, two pixels to a byte,
/// the left one in the low half, four bytes to a row. Color 0 and a tile that is
/// not there show nothing; any other color is that of the entry's palette, which
/// is the secondary's own from the seventh to the twelfth and the primary's
/// otherwise.
pub proof fn an_upright_tile_is_shown_as_it_is(
    e: u16,
    prim: TilesetData,
    sec: TilesetData,
    x: int,
    y: int,
)
    requires
        0 <= x < 8,
        0 <= y < 8,
        e / 1024 % 4 == 0,
    ensures
        ({
            let id = e as int % 1024;
            let (ts, n) = if id < 512 {
                (prim, id)
            } else {
                (sec, id - 512)
            };
            let shown = bake::entry_pixel(e, prim, sec, x, y);
            if 32 * n + 32 > ts.tiles_4bpp@.len() {
                shown is None
            } else {
                let b = ts.tiles_4bpp@[32 * n + 4 * y + x / 2];
                let c = if x % 2 == 0 {
                    b as int % 16
                } else {
                    b as int / 16
                };
                let row = e as int / 4096;
                let pal = if 6 <= row < 12 {
                    sec.palettes
                } else {
                    prim.palettes
                };
                shown == if c == 0 {
                    None
                } else {
                    Some(pal[16 * row + c])
                }
            }
        }),
{
    assert(e / 1024 % 2 == 0 && e / 2048 % 2 == 0);
    assert(e as int / 4096 < 16);
    if let Some(tile) = bake::tile_of(prim, sec, (e % 1024) as int) {
        assert(tile.len() == 32);
    }
}

/// A layer is its four entries in the quadrants top left, top right, bottom left
/// and bottom right, four bytes to a pixel and sixteen pixels to a row; where an
/// entry shows nothing the bytes are zero.
pub proof fn a_layer_is_its_four_quadrants(
    es: Seq<u16>,
    prim: TilesetData,
    sec: TilesetData,
    x: int,
    y: int,
    ch: int,
)
    requires
        0 <= x < 8,
        0 <= y < 8,
        0 <= ch < 4,
    ensures
        ({
            let img = bake::layer(es, prim, sec);
            let byte = |p: Option<[u8; 4]>|
                match p {
                    Some(c) => c[ch],
                    None => 0u8,
                };
            &&& img.len() == 1024
            &&& img[64 * y + 4 * x + ch] == byte(bake::entry_pixel(es[0], prim, sec, x, y))
            &&& img[64 * y + 4 * (x + 8) + ch] == byte(bake::entry_pixel(es[1], prim, sec, x, y))
            &&& img[64 * (y + 8) + 4 * x + ch] == byte(bake::entry_pixel(es[2], prim, sec, x, y))
            &&& img[64 * (y + 8) + 4 * (x + 8) + ch] == byte(
                bake::entry_pixel(es[3], prim, sec, x, y),
            )
        }),
{
    lemma_place(x, y, ch);
    lemma_place(x + 8, y, ch);
    lemma_place(x, y + 8, ch);
    lemma_place(x + 8, y + 8, ch);
}

proof fn lemma_place(px: int, py: int, ch: int)
    requires
        0 <= px < 16,
        0 <= py < 16,
        0 <= ch < 4,
    ensures
        0 <= 64 * py + 4 * px + ch < 1024,
        (64 * py + 4 * px + ch) / 4 % 16 == px,
        (64 * py + 4 * px + ch) / 64 == py,
        (64 * py + 4 * px + ch) % 4 == ch,
{
}

/// A metatile has eight entries of its tileset, the first four below and the
/// last four above; those of the secondary tileset follow the primary's 512. The
/// upper layer stays under the player where the high four bits of the
/// attribute are 1, and covers it otherwise.
pub proof fn a_metatile_has_its_entries(prim: TilesetData, sec: TilesetData, id: int, k: int)
    requires
        0 <= id,
        0 <= k < 8,
    ensures
        ({
            let (ts, n) = if id < 512 {
                (prim, id)
            } else {
                (sec, id - 512)
            };
            &&& 8 * n + 8 <= ts.metatiles@.len() ==> {
                &&& bake::entries_of(prim, sec, id) is Some
                &&& bake::entries_of(prim, sec, id)->0.len() == 8
                &&& bake::entries_of(prim, sec, id)->0[k] == ts.metatiles@[8 * n + k]
            }
            &&& 8 * n + 8 > ts.metatiles@.len() ==> bake::entries_of(prim, sec, id) is None
            &&& bake::covers_player(prim, sec, id) == !(n < ts.attributes@.len()
                && ts.attributes@[n] / 4096 == 1)
        }),
{
}

/// An image is left out exactly where no pixel of it shows, that is where every
/// fourth byte is zero.
pub proof fn a_clear_image_shows_nothing(img: Seq<u8>)
    ensures
        bake::is_clear(img) <==> (forall|x: int, y: int|
            0 <= x < 16 && 0 <= y < 16 ==> img[#[trigger] (64 * y + 4 * x + 3)] == 0),
{
    if forall|x: int, y: int|
        0 <= x < 16 && 0 <= y < 16 ==> img[#[trigger] (64 * y + 4 * x + 3)] == 0 {
        assert forall|i: int| 0 <= i < 256 implies #[trigger] img[4 * i + 3] == 0 by {
            let (x, y) = (i % 16, i / 16);
            assert(64 * y + 4 * x + 3 == 4 * i + 3);
        }
    }
    if bake::is_clear(img) {
        assert forall|x: int, y: int| 0 <= x < 16 && 0 <= y < 16 implies img[#[trigger] (64 * y + 4
            * x + 3)] == 0 by {
            assert(img[4 * (16 * y + x) + 3] == 0);
        }
    }
}

/// What is baked of a metatile lies in the atlases: a layer that shows anything
/// has a reference, and the square of sixteen pixels that the reference names, in
/// the atlas that it names, holds the layer.
pub proof fn a_reference_names_its_square(b: Baked, pack: WorldPack, p: int, m: int, i: int)
    requires
        bake::bakeable(pack),
        bake::is_baked(b, pack),
        0 <= p < pack.pairs@.len(),
        0 <= m < 512 + pack.tilesets@[pack.pairs@[p].1 as int].metatiles@.len() as int / 8 % 65536,
        0 <= i < 1024,
    ensures
        ({
            let prim = pack.tilesets@[pack.pairs@[p].0 as int];
            let sec = pack.tilesets@[pack.pairs@[p].1 as int];
            let d = b.drawn(p, m);
            match bake::entries_of(prim, sec, m) {
                None => d.bottom.0 == u32::MAX && d.top.0 == u32::MAX,
                Some(es) => {
                    let below = bake::layer(es.take(4), prim, sec);
                    let above = bake::layer(es.skip(4), prim, sec);
                    &&& (d.bottom.0 == u32::MAX) == bake::is_clear(below)
                    &&& (d.top.0 == u32::MAX) == bake::is_clear(above)
                    &&& d.bottom.0 != u32::MAX ==> {
                        let n = d.bottom.0 as int;
                        let (x, y) = (n % 128 * 16 + i / 4 % 16, n / 128 % 128 * 16 + i / 64);
                        &&& n / 16384 < b.atlases@.len()
                        &&& b.atlases@[n / 16384].w == 2048
                        &&& b.atlases@[n / 16384].rgba@[(y * 2048 + x) * 4 + i % 4] == below[i]
                    }
                    &&& d.top.0 != u32::MAX ==> {
                        let n = d.top.0 as int;
                        let (x, y) = (n % 128 * 16 + i / 4 % 16, n / 128 % 128 * 16 + i / 64);
                        &&& n / 16384 < b.atlases@.len()
                        &&& b.atlases@[n / 16384].w == 2048
                        &&& b.atlases@[n / 16384].rgba@[(y * 2048 + x) * 4 + i % 4] == above[i]
                    }
                },
            }
        }),
{
    bake::the_atlases_hold_what_is_drawn(b, pack, p, m);
    let prim = pack.tilesets@[pack.pairs@[p].0 as int];
    let sec = pack.tilesets@[pack.pairs@[p].1 as int];
    let d = b.drawn(p, m);
    if let Some(es) = bake::entries_of(prim, sec, m) {
        assert(es.take(4) =~= es.subrange(0, 4));
        assert(es.skip(4) =~= es.subrange(4, 8));
        let below = bake::layer(es.take(4), prim, sec);
        let above = bake::layer(es.skip(4), prim, sec);
        if d.bottom.0 != u32::MAX {
            lemma_square(b, d.bottom.0, below, i);
        }
        if d.top.0 != u32::MAX {
            lemma_square(b, d.top.0, above, i);
        }
    }
}

proof fn lemma_square(b: Baked, r: u32, img: Seq<u8>, i: int)
    requires
        0 <= i < 1024,
        r / 16384 < b.atlases@.len(),
        bake::cut_out(
            b.atlases@[(r / 16384) as int].rgba@,
            r as int % 16384 % 128 * 16,
            r as int % 16384 / 128 * 16,
        ) == img,
    ensures
        ({
            let n = r as int;
            let (x, y) = (n % 128 * 16 + i / 4 % 16, n / 128 % 128 * 16 + i / 64);
            b.atlases@[n / 16384].rgba@[(y * 2048 + x) * 4 + i % 4] == img[i]
        }),
{
    let n = r as int;
    assert(n % 16384 % 128 == n % 128);
    assert(n % 16384 / 128 == n / 128 % 128);
}

/// No picture is kept twice: two references to different squares are to
/// different images.
pub proof fn no_picture_is_kept_twice(pack: WorldPack, a: int, b: int)
    requires
        bake::bakeable(pack),
        ({
            let cells = bake::after_pairs(pack, pack.pairs@.len() as int).cells;
            0 <= a < cells.len() && 0 <= b < cells.len() && a != b
        }),
    ensures
        ({
            let cells = bake::after_pairs(pack, pack.pairs@.len() as int).cells;
            cells[a] != cells[b]
        }),
{
    bake::a_metatile_is_drawn_as_it_looks(pack);
}

} // verus!
