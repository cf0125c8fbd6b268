//! Startup baking: indexed graphics to RGBA atlases. For every (tileset pair,
//! metatile) the two 16x16 layer images are rendered from 4bpp tiles and
//! palettes, deduplicated by content, and packed into 2048x2048 atlases.

use vstd::prelude::*;
use crate::codec::same_bytes;
use crate::game::data::{TilesetData, WorldPack, METATILES_IN_PRIMARY, TILES_IN_PRIMARY};

verus! {

pub const ATLAS_SIZE: u32 = 2048;

const CELL: u32 = 16;

pub const PER_ROW: u32 = 128;

pub const PER_ATLAS: u32 = 16384;

pub struct AtlasImage {
    pub rgba: Vec<u8>,
    pub w: u32,
    pub h: u32,
}

/// Reference to one baked 16x16 cell; the largest number stands for one that
/// is fully transparent.
#[derive(Clone, Copy, Debug, PartialEq, Eq, Structural)]
pub struct CellRef(pub u32);

/// The reference to no cell.
pub const NO_CELL: u32 = u32::MAX;

impl CellRef {
    pub fn none() -> (r: CellRef)
        ensures
            r.0 == NO_CELL,
    {
        CellRef(NO_CELL)
    }

    /// Which atlas holds the cell.
    pub fn atlas(self) -> (a: usize)
        ensures
            a == self.0 / PER_ATLAS,
    {
        (self.0 / PER_ATLAS) as usize
    }

    /// Where the cell lies in its atlas, in pixels: x, y, width, height.
    pub fn src(self) -> (r: (u32, u32, u32, u32))
        ensures
            r.0 == self.0 % PER_ATLAS % PER_ROW * 16,
            r.1 == self.0 % PER_ATLAS / PER_ROW * 16,
            r.2 == 16,
            r.3 == 16,
            r.0 + 16 <= ATLAS_SIZE,
            r.1 + 16 <= ATLAS_SIZE,
    {
        let i: u32 = self.0 % PER_ATLAS;
        (i % PER_ROW * CELL, i / PER_ROW * CELL, 16, 16)
    }
}

/// How to draw one metatile: bottom layer, top layer, and whether the top
/// layer covers the player.
#[derive(Clone, Copy, Debug, PartialEq, Eq, Structural)]
pub struct MetatileDraw {
    pub bottom: CellRef,
    pub top: CellRef,
    pub top_above_player: bool,
}

/// Nothing to draw.
pub open spec fn empty_draw() -> MetatileDraw {
    MetatileDraw { bottom: CellRef(NO_CELL), top: CellRef(NO_CELL), top_above_player: false }
}

fn draw_nothing() -> (d: MetatileDraw)
    ensures
        d == empty_draw(),
{
    MetatileDraw { bottom: CellRef(NO_CELL), top: CellRef(NO_CELL), top_above_player: false }
}

pub struct Baked {
    pub atlases: Vec<AtlasImage>,
    /// Indexed by pair, then metatile.
    pub tables: Vec<Vec<MetatileDraw>>,
}

/// Whether a reference is to one of `n` cells, or to none.
pub open spec fn refers(r: CellRef, n: int) -> bool {
    r.0 == NO_CELL || r.0 < n
}

impl Baked {
    /// Whether every drawing is of cells that the atlases hold.
    pub open spec fn wf(&self) -> bool {
        forall|p: int, m: int|
            #![trigger self.tables@[p]@[m]]
            0 <= p < self.tables@.len() && 0 <= m < self.tables@[p]@.len() ==> refers(
                self.tables@[p]@[m].bottom,
                self.atlases@.len() as int * 16384,
            ) && refers(self.tables@[p]@[m].top, self.atlases@.len() as int * 16384)
    }

    pub open spec fn drawn(&self, pair: int, metatile: int) -> MetatileDraw {
        if 0 <= pair < self.tables@.len() && 0 <= metatile < self.tables@[pair]@.len() {
            self.tables@[pair]@[metatile]
        } else {
            empty_draw()
        }
    }

    pub fn draw(&self, pair: u16, metatile: u16) -> (d: MetatileDraw)
        ensures
            d == self.drawn(pair as int, metatile as int),
    {
        let p: usize = pair as usize;
        let m: usize = metatile as usize;
        if p < self.tables.len() && m < self.tables[p].len() {
            self.tables[p][m]
        } else {
            draw_nothing()
        }
    }
}

// ---- what a layer looks like ---------------------------------------------

/// A color of a tileset pair: the primary owns the first six palettes and the
/// last four, the secondary the six between.
pub open spec fn pair_color(prim: TilesetData, sec: TilesetData, c: int) -> [u8; 4] {
    if 96 <= c < 192 {
        sec.palettes[c]
    } else {
        prim.palettes[c]
    }
}

/// The bytes of a tile: those of the primary tileset for the first 512, of
/// the secondary for the rest; nothing where they are not there.
pub open spec fn tile_of(prim: TilesetData, sec: TilesetData, id: int) -> Option<Seq<u8>> {
    let (tiles, local) = if id < TILES_IN_PRIMARY {
        (prim.tiles_4bpp@, id)
    } else {
        (sec.tiles_4bpp@, id - TILES_IN_PRIMARY)
    };
    if local * 32 + 32 <= tiles.len() {
        Some(tiles.subrange(local * 32, local * 32 + 32))
    } else {
        None
    }
}

/// The color index of a tile's pixel: two to a byte, the left one low.
pub open spec fn nibble(tile: Seq<u8>, x: int, y: int) -> int {
    let b = tile[y * 4 + x / 2];
    if x % 2 == 0 {
        b as int % 16
    } else {
        b as int / 16
    }
}

/// The pixel of an entry (tile id, flips, palette row) at a place of its 8x8
/// quadrant; color 0 and missing tiles are transparent.
pub open spec fn entry_pixel(
    e: u16,
    prim: TilesetData,
    sec: TilesetData,
    x: int,
    y: int,
) -> Option<[u8; 4]> {
    match tile_of(prim, sec, (e % 1024) as int) {
        None => None,
        Some(tile) => {
            let sx = if e / 1024 % 2 == 1 {
                7 - x
            } else {
                x
            };
            let sy = if e / 2048 % 2 == 1 {
                7 - y
            } else {
                y
            };
            let c = nibble(tile, sx, sy);
            if c == 0 {
                None
            } else {
                Some(pair_color(prim, sec, e / 4096 * 16 + c))
            }
        },
    }
}

/// A byte of a layer image: four to a pixel, sixteen pixels to a row, the
/// quadrants top left, top right, bottom left, bottom right.
pub open spec fn layer_byte(
    entries: Seq<u16>,
    prim: TilesetData,
    sec: TilesetData,
    i: int,
) -> u8 {
    let px = i / 4 % 16;
    let py = i / 64;
    let q = py / 8 * 2 + px / 8;
    match entry_pixel(entries[q], prim, sec, px % 8, py % 8) {
        Some(c) => c[i % 4],
        None => 0,
    }
}

/// One layer of a metatile.
pub open spec fn layer(entries: Seq<u16>, prim: TilesetData, sec: TilesetData) -> Seq<u8> {
    Seq::new(1024, |i: int| layer_byte(entries, prim, sec, i))
}

/// Whether nothing of an image shows.
pub open spec fn is_clear(img: Seq<u8>) -> bool {
    forall|i: int| 0 <= i < 256 ==> #[trigger] img[4 * i + 3] == 0
}

// ---- the cells -----------------------------------------------------------

/// The first place of an image among the cells, from `from` on.
pub open spec fn first_cell(cells: Seq<Seq<u8>>, img: Seq<u8>, from: int) -> int
    decreases cells.len() - from,
{
    if from >= cells.len() || cells[from] == img {
        from
    } else {
        first_cell(cells, img, from + 1)
    }
}

/// The cells after an image was taken in: a new one goes to the end.
pub open spec fn with_cell(cells: Seq<Seq<u8>>, img: Seq<u8>) -> Seq<Seq<u8>> {
    if is_clear(img) || first_cell(cells, img, 0) < cells.len() {
        cells
    } else {
        cells.push(img)
    }
}

/// The reference to an image that was taken in.
pub open spec fn cell_ref(cells: Seq<Seq<u8>>, img: Seq<u8>) -> CellRef {
    if is_clear(img) {
        CellRef(NO_CELL)
    } else {
        CellRef(first_cell(cells, img, 0) as u32)
    }
}

/// How many metatiles a pair has.
pub open spec fn metatile_count(sec: TilesetData) -> int {
    512 + sec.metatiles@.len() as int / 8 % 65536
}

/// The tileset of a metatile and its place there.
pub open spec fn home(prim: TilesetData, sec: TilesetData, id: int) -> (TilesetData, int) {
    if id < METATILES_IN_PRIMARY {
        (prim, id)
    } else {
        (sec, id - METATILES_IN_PRIMARY)
    }
}

/// The eight entries of a metatile, if its tileset has them.
pub open spec fn entries_of(prim: TilesetData, sec: TilesetData, id: int) -> Option<Seq<u16>> {
    let (ts, local) = home(prim, sec, id);
    if local * 8 + 8 <= ts.metatiles@.len() {
        Some(ts.metatiles@.subrange(local * 8, local * 8 + 8))
    } else {
        None
    }
}

/// Whether the top layer of a metatile covers the player: all but one layer
/// type do.
pub open spec fn covers_player(prim: TilesetData, sec: TilesetData, id: int) -> bool {
    let (ts, local) = home(prim, sec, id);
    if local < ts.attributes@.len() {
        ts.attributes@[local] / 4096 != 1
    } else {
        true
    }
}

/// The cells and the drawings so far.
#[verifier::ext_equal]
pub struct Baking {
    pub cells: Seq<Seq<u8>>,
    pub table: Seq<MetatileDraw>,
}

/// One metatile: its bottom layer, then its top layer.
pub open spec fn after_metatile(b: Baking, prim: TilesetData, sec: TilesetData, id: int) -> Baking {
    match entries_of(prim, sec, id) {
        None => Baking { table: b.table.push(empty_draw()), ..b },
        Some(es) => {
            let bottom = layer(es.subrange(0, 4), prim, sec);
            let top = layer(es.subrange(4, 8), prim, sec);
            let c1 = with_cell(b.cells, bottom);
            let c2 = with_cell(c1, top);
            Baking {
                cells: c2,
                table: b.table.push(
                    MetatileDraw {
                        bottom: cell_ref(b.cells, bottom),
                        top: cell_ref(c1, top),
                        top_above_player: covers_player(prim, sec, id),
                    },
                ),
            }
        },
    }
}

/// The first `n` metatiles of a pair.
pub open spec fn after_metatiles(
    cells: Seq<Seq<u8>>,
    prim: TilesetData,
    sec: TilesetData,
    n: int,
) -> Baking
    decreases n,
{
    if n <= 0 {
        Baking { cells, table: seq![] }
    } else {
        after_metatile(after_metatiles(cells, prim, sec, n - 1), prim, sec, n - 1)
    }
}

/// The cells and tables of the first `n` pairs.
#[verifier::ext_equal]
pub struct Tables {
    pub cells: Seq<Seq<u8>>,
    pub tables: Seq<Seq<MetatileDraw>>,
}

pub open spec fn after_pairs(pack: WorldPack, n: int) -> Tables
    decreases n,
{
    if n <= 0 {
        Tables { cells: seq![], tables: seq![] }
    } else {
        let t = after_pairs(pack, n - 1);
        let (p, s) = pack.pairs@[n - 1];
        let sec = pack.tilesets@[s as int];
        let b = after_metatiles(t.cells, pack.tilesets@[p as int], sec, metatile_count(sec));
        Tables { cells: b.cells, tables: t.tables.push(b.table) }
    }
}

/// A byte of an atlas: cells of 16x16 pixels, 128 to a row.
pub open spec fn atlas_byte(cells: Seq<Seq<u8>>, a: int, i: int) -> u8 {
    let x = i / 4 % 2048;
    let y = i / 8192;
    let k = a * 16384 + y / 16 * 128 + x / 16;
    if k < cells.len() {
        cells[k][(y % 16 * 16 + x % 16) * 4 + i % 4]
    } else {
        0
    }
}

/// How many metatiles the first `n` pairs have.
pub open spec fn slots(pack: WorldPack, n: int) -> int
    decreases n,
{
    if n <= 0 {
        0
    } else {
        slots(pack, n - 1) + metatile_count(pack.tilesets@[pack.pairs@[n - 1].1 as int])
    }
}

/// Whether a pack can be baked: its pairs name tilesets that there are, and
/// metatiles and cells can be numbered.
pub open spec fn bakeable(pack: WorldPack) -> bool {
    &&& forall|i: int|
        0 <= i < pack.pairs@.len() ==> (#[trigger] pack.pairs@[i]).0 < pack.tilesets@.len()
            && pack.pairs@[i].1 < pack.tilesets@.len() && metatile_count(
            pack.tilesets@[pack.pairs@[i].1 as int],
        ) <= u16::MAX
    &&& 2 * slots(pack, pack.pairs@.len() as int) < u32::MAX
}

/// Whether these are the graphics of a pack: its drawings, and atlases that hold
/// its cells in their order.
pub open spec fn is_baked(b: Baked, pack: WorldPack) -> bool {
    let t = after_pairs(pack, pack.pairs@.len() as int);
    &&& b.tables@.len() == t.tables.len()
    &&& forall|i: int| 0 <= i < t.tables.len() ==> (#[trigger] b.tables@[i])@ == t.tables[i]
    &&& b.atlases@.len() == (t.cells.len() + 16383) / 16384
    &&& forall|a: int|
        0 <= a < b.atlases@.len() ==> {
            &&& (#[trigger] b.atlases@[a]).w == ATLAS_SIZE
            &&& b.atlases@[a].h == ATLAS_SIZE
            &&& b.atlases@[a].rgba@ == Seq::new(16777216, |i: int| atlas_byte(t.cells, a, i))
        }
}

// ---- rendering -----------------------------------------------------------

/// Render one metatile layer (four entries, quadrants TL TR BL BR) to RGBA.
fn render_layer(entries: &[u16], prim: &TilesetData, sec: &TilesetData) -> (out: Vec<u8>)
    requires
        entries@.len() == 4,
    ensures
        out@ == layer(entries@, *prim, *sec),
{
    let mut out: Vec<u8> = Vec::new();
    let mut p: usize = 0;
    while p < 256
        invariant
            p <= 256,
            entries@.len() == 4,
            out@.len() == 4 * p,
            forall|i: int|
                0 <= i < 4 * p ==> #[trigger] out@[i] == layer_byte(entries@, *prim, *sec, i),
        decreases 256 - p,
    {
        let px: usize = p % 16;
        let py: usize = p / 16;
        let e: u16 = entries[py / 8 * 2 + px / 8];
        let c = match pixel(e, prim, sec, px % 8, py % 8) {
            Some(c) => c,
            None => [0u8, 0u8, 0u8, 0u8],
        };
        let ghost was = out@;
        out.push(c[0]);
        out.push(c[1]);
        out.push(c[2]);
        out.push(c[3]);
        assert forall|i: int| 0 <= i < 4 * (p + 1) implies #[trigger] out@[i] == layer_byte(
            entries@,
            *prim,
            *sec,
            i,
        ) by {
            if i < 4 * p {
                assert(out@[i] == was[i]);
            } else {
                assert(i / 4 == p && i / 64 == py && i / 4 % 16 == px);
            }
        }
        p += 1;
    }
    assert(out@ =~= layer(entries@, *prim, *sec));
    out
}

fn pixel(e: u16, prim: &TilesetData, sec: &TilesetData, x: usize, y: usize) -> (r: Option<[u8; 4]>)
    requires
        x < 8,
        y < 8,
    ensures
        r == entry_pixel(e, *prim, *sec, x as int, y as int),
{
    let id: u16 = e % 1024;
    let (tiles, local): (&Vec<u8>, usize) = if id < TILES_IN_PRIMARY {
        (&prim.tiles_4bpp, id as usize)
    } else {
        (&sec.tiles_4bpp, (id - TILES_IN_PRIMARY) as usize)
    };
    if local * 32 + 32 > tiles.len() {
        return None;
    }
    let sx: usize = if e / 1024 % 2 == 1 { 7 - x } else { x };
    let sy: usize = if e / 2048 % 2 == 1 { 7 - y } else { y };
    let at: usize = sy * 4 + sx / 2;
    let b: u8 = tiles[local * 32 + at];
    assert(tiles@.subrange(local * 32, local * 32 + 32)[at as int] == b);
    let c: u8 = if sx % 2 == 0 { b % 16 } else { b / 16 };
    if c == 0 {
        return None;
    }
    let k: usize = (e / 4096) as usize * 16 + c as usize;
    if 96 <= k && k < 192 {
        Some(sec.palettes[k])
    } else {
        Some(prim.palettes[k])
    }
}

fn clear(img: &Vec<u8>) -> (r: bool)
    requires
        img@.len() == 1024,
    ensures
        r == is_clear(img@),
{
    let mut i: usize = 0;
    while i < 256
        invariant
            i <= 256,
            img@.len() == 1024,
            forall|k: int| 0 <= k < i ==> #[trigger] img@[4 * k + 3] == 0,
        decreases 256 - i,
    {
        if img[4 * i + 3] != 0 {
            return false;
        }
        i += 1;
    }
    true
}

// ---- taking images in ----------------------------------------------------

/// A number that images with the same bytes share.
spec fn digest(img: Seq<u8>) -> int
    decreases img.len(),
{
    if img.len() == 0 {
        0
    } else {
        (digest(img.drop_last()) * 31 + img.last()) % 65521
    }
}

fn digest_of(img: &Vec<u8>) -> (h: usize)
    ensures
        h == digest(img@),
        h < 65521,
{
    let mut h: u64 = 0;
    let mut i: usize = 0;
    while i < img.len()
        invariant
            i <= img@.len(),
            h == digest(img@.take(i as int)),
            h < 65521,
        decreases img.len() - i,
    {
        assert(img@.take(i + 1).drop_last() =~= img@.take(i as int));
        h = (h * 31 + img[i] as u64) % 65521;
        i += 1;
    }
    assert(img@.take(img@.len() as int) =~= img@);
    h as usize
}

/// The cells so far, and by digest the numbers of those that have it.
struct Store {
    cells: Vec<Vec<u8>>,
    shelves: Vec<Vec<u32>>,
}

spec fn images(v: Seq<Vec<u8>>) -> Seq<Seq<u8>> {
    Seq::new(v.len(), |i: int| v[i]@)
}

/// Whether each cell stands on its shelf, and nothing else does; no image
/// occurs twice.
spec fn shelved(cells: Seq<Seq<u8>>, shelves: Seq<Seq<u32>>) -> bool {
    &&& shelves.len() == 65521
    &&& forall|h: int, k: int|
        #![trigger shelves[h][k]]
        0 <= h < 65521 && 0 <= k < shelves[h].len() ==> shelves[h][k] < cells.len()
    &&& forall|i: int|
        0 <= i < cells.len() ==> shelves[digest(#[trigger] cells[i])].contains(i as u32)
    &&& forall|i: int, j: int|
        0 <= i < cells.len() && 0 <= j < cells.len() && #[trigger] cells[i] == #[trigger] cells[j]
            ==> i == j
    &&& forall|i: int| 0 <= i < cells.len() ==> (#[trigger] cells[i]).len() == 1024
}

spec fn shelf_model(v: Seq<Vec<u32>>) -> Seq<Seq<u32>> {
    Seq::new(v.len(), |i: int| v[i]@)
}

impl Store {
    spec fn model(&self) -> Seq<Seq<u8>> {
        images(self.cells@)
    }

    spec fn wf(&self) -> bool {
        shelved(self.model(), shelf_model(self.shelves@)) && self.cells@.len() < u32::MAX
    }
}

proof fn lemma_digest(img: Seq<u8>)
    ensures
        0 <= digest(img) < 65521,
    decreases img.len(),
{
    if img.len() > 0 {
        lemma_digest(img.drop_last());
    }
}

proof fn lemma_first_cell(cells: Seq<Seq<u8>>, img: Seq<u8>, from: int, i: int)
    requires
        0 <= from <= i < cells.len(),
        cells[i] == img,
        forall|a: int, b: int|
            0 <= a < cells.len() && 0 <= b < cells.len() && #[trigger] cells[a]
                == #[trigger] cells[b] ==> a == b,
    ensures
        first_cell(cells, img, from) == i,
    decreases cells.len() - from,
{
    if from < i {
        assert(cells[from] != img);
        lemma_first_cell(cells, img, from + 1, i);
    }
}

proof fn lemma_no_cell(cells: Seq<Seq<u8>>, img: Seq<u8>, from: int)
    requires
        0 <= from <= cells.len(),
        forall|a: int| 0 <= a < cells.len() ==> #[trigger] cells[a] != img,
    ensures
        first_cell(cells, img, from) == cells.len(),
    decreases cells.len() - from,
{
    if from < cells.len() {
        assert(cells[from] != img);
        lemma_no_cell(cells, img, from + 1);
    }
}

fn intern(s: &mut Store, img: Vec<u8>) -> (r: CellRef)
    requires
        old(s).wf(),
        old(s).cells@.len() + 1 < u32::MAX,
        img@.len() == 1024,
    ensures
        final(s).wf(),
        final(s).model() == with_cell(old(s).model(), img@),
        r == cell_ref(old(s).model(), img@),
        old(s).cells@.len() <= final(s).cells@.len() <= old(s).cells@.len() + 1,
        refers(r, final(s).cells@.len() as int),
{
    if clear(&img) {
        return CellRef(NO_CELL);
    }
    let ghost cells = s.model();
    let ghost shelves = shelf_model(s.shelves@);
    let h: usize = digest_of(&img);
    let mut k: usize = 0;
    while k < s.shelves[h].len()
        invariant
            *s == *old(s),
            s.wf(),
            cells == s.model(),
            shelves == shelf_model(s.shelves@),
            h == digest(img@),
            h < 65521,
            k <= s.shelves@[h as int]@.len(),
            !is_clear(img@),
            forall|j: int|
                0 <= j < k ==> cells[(#[trigger] s.shelves@[h as int]@[j]) as int] != img@,
        decreases s.shelves@[h as int]@.len() - k,
    {
        assert(shelves[h as int] == s.shelves@[h as int]@);
        let i: u32 = s.shelves[h][k];
        assert(shelves[h as int][k as int] == i);
        assert(cells[i as int] == s.cells@[i as int]@);
        if same_bytes(s.cells[i as usize].as_slice(), img.as_slice()) {
            proof {
                lemma_first_cell(cells, img@, 0, i as int);
            }
            return CellRef(i);
        }
        k += 1;
    }
    assert(shelves[h as int] == s.shelves@[h as int]@);
    assert forall|a: int| 0 <= a < cells.len() implies #[trigger] cells[a] != img@ by {
        if cells[a] == img@ {
            assert(shelves[digest(cells[a])].contains(a as u32));
            let j = choose|j: int| 0 <= j < shelves[h as int].len() && shelves[h as int][j] == a as u32;
            assert(cells[s.shelves@[h as int]@[j] as int] != img@);
        }
    }
    proof {
        lemma_no_cell(cells, img@, 0);
    }
    let n: u32 = s.cells.len() as u32;
    let ghost image = img@;
    s.cells.push(img);
    assert(s.model() =~= cells.push(image));
    let mut shelf: Vec<u32> = Vec::new();
    std::mem::swap(&mut shelf, &mut s.shelves[h]);
    let ghost old_shelf = shelf@;
    shelf.push(n);
    s.shelves[h] = shelf;
    proof {
        let now = shelf_model(s.shelves@);
        assert(old_shelf == shelves[h as int]);
        assert(now =~= shelves.update(h as int, old_shelf.push(n)));
        let c = s.model();
        assert forall|i: int| 0 <= i < c.len() implies now[digest(#[trigger] c[i])].contains(
            i as u32,
        ) by {
            if i < cells.len() {
                assert(c[i] == cells[i]);
                let d = digest(cells[i]);
                lemma_digest(cells[i]);
                assert(shelves[d].contains(i as u32));
                let j = choose|j: int| 0 <= j < shelves[d].len() && shelves[d][j] == i as u32;
                assert(now[d][j] == i as u32);
            } else {
                assert(now[h as int][old_shelf.len() as int] == n);
            }
        }
        assert forall|a: int, b: int|
            0 <= a < c.len() && 0 <= b < c.len() && #[trigger] c[a] == #[trigger] c[b] implies a
            == b by {
            if a < cells.len() && b < cells.len() {
                assert(cells[a] == cells[b]);
            } else if a < cells.len() {
                assert(cells[a] != image);
            } else if b < cells.len() {
                assert(cells[b] != image);
            }
        }
        assert forall|hh: int, kk: int|
            #![trigger now[hh][kk]]
            0 <= hh < 65521 && 0 <= kk < now[hh].len() implies now[hh][kk] < c.len() by {
            if hh != h {
                assert(now[hh] == shelves[hh]);
                assert(shelves[hh][kk] < cells.len());
            } else if kk < old_shelf.len() {
                assert(shelves[hh][kk] < cells.len());
            }
        }
        assert forall|i: int| 0 <= i < c.len() implies (#[trigger] c[i]).len() == 1024 by {
            if i < cells.len() {
                assert(cells[i].len() == 1024);
            }
        }
    }
    CellRef(n)
}

fn quarter(v: &Vec<u16>, at: usize) -> (out: Vec<u16>)
    requires
        at + 4 <= v@.len(),
    ensures
        out@ == v@.subrange(at as int, at + 4),
{
    let n: usize = v.len();
    let mut out: Vec<u16> = Vec::new();
    out.push(v[at]);
    out.push(v[at + 1]);
    out.push(v[at + 2]);
    out.push(v[at + 3]);
    assert(out@ =~= v@.subrange(at as int, at + 4));
    out
}

fn bake_metatile(s: &mut Store, prim: &TilesetData, sec: &TilesetData, id: usize) -> (d:
    MetatileDraw)
    requires
        old(s).wf(),
        old(s).cells@.len() + 2 < u32::MAX,
        id <= u16::MAX,
    ensures
        final(s).wf(),
        old(s).cells@.len() <= final(s).cells@.len() <= old(s).cells@.len() + 2,
        refers(d.bottom, final(s).cells@.len() as int),
        refers(d.top, final(s).cells@.len() as int),
        forall|table: Seq<MetatileDraw>|
            (Baking { cells: final(s).model(), table: table.push(d) }) == #[trigger] after_metatile(
                Baking { cells: old(s).model(), table },
                *prim,
                *sec,
                id as int,
            ),
{
    let (ts, local): (&TilesetData, usize) = if id < METATILES_IN_PRIMARY as usize {
        (prim, id)
    } else {
        (sec, id - METATILES_IN_PRIMARY as usize)
    };
    if local * 8 + 8 > ts.metatiles.len() {
        return draw_nothing();
    }
    let ghost es = ts.metatiles@.subrange(local * 8, local * 8 + 8);
    let lower = quarter(&ts.metatiles, local * 8);
    let upper = quarter(&ts.metatiles, local * 8 + 4);
    assert(lower@ =~= es.subrange(0, 4));
    assert(upper@ =~= es.subrange(4, 8));
    let bottom = intern(s, render_layer(lower.as_slice(), prim, sec));
    let top = intern(s, render_layer(upper.as_slice(), prim, sec));
    let above = if local < ts.attributes.len() { ts.attributes[local] / 4096 != 1 } else { true };
    MetatileDraw { bottom, top, top_above_player: above }
}

proof fn lemma_slots(pack: WorldPack, a: int, b: int)
    requires
        0 <= a <= b,
    ensures
        0 <= slots(pack, a) <= slots(pack, b),
    decreases b,
{
    if a < b {
        lemma_slots(pack, a, b - 1);
    } else if a > 0 {
        lemma_slots(pack, a - 1, b - 1);
    }
}

spec fn table_model(v: Seq<Vec<MetatileDraw>>) -> Seq<Seq<MetatileDraw>> {
    Seq::new(v.len(), |i: int| v[i]@)
}

fn build_atlas(cells: &Vec<Vec<u8>>, a: usize, Ghost(ms): Ghost<Seq<Seq<u8>>>) -> (rgba: Vec<u8>)
    requires
        ms == images(cells@),
        a <= u32::MAX,
        forall|i: int| 0 <= i < ms.len() ==> (#[trigger] ms[i]).len() == 1024,
    ensures
        rgba@ == Seq::new(16777216, |i: int| atlas_byte(ms, a as int, i)),
{
    let mut rgba: Vec<u8> = Vec::new();
    let mut p: usize = 0;
    while p < 4194304
        invariant
            p <= 4194304,
            a <= u32::MAX,
            ms == images(cells@),
            forall|i: int| 0 <= i < ms.len() ==> (#[trigger] ms[i]).len() == 1024,
            rgba@.len() == 4 * p,
            forall|i: int| 0 <= i < 4 * p ==> #[trigger] rgba@[i] == atlas_byte(ms, a as int, i),
        decreases 4194304 - p,
    {
        let x: usize = p % 2048;
        let y: usize = p / 2048;
        let k: u64 = a as u64 * 16384 + (y / 16 * 128 + x / 16) as u64;
        let ghost was = rgba@;
        if k < cells.len() as u64 {
            let c = &cells[k as usize];
            assert(c@ == ms[k as int]);
            let at: usize = (y % 16 * 16 + x % 16) * 4;
            rgba.push(c[at]);
            rgba.push(c[at + 1]);
            rgba.push(c[at + 2]);
            rgba.push(c[at + 3]);
        } else {
            rgba.push(0);
            rgba.push(0);
            rgba.push(0);
            rgba.push(0);
        }
        assert forall|i: int| 0 <= i < 4 * (p + 1) implies #[trigger] rgba@[i] == atlas_byte(
            ms,
            a as int,
            i,
        ) by {
            if i < 4 * p {
                assert(rgba@[i] == was[i]);
            } else {
                assert(i / 4 == p && i / 8192 == y && i / 4 % 2048 == x);
            }
        }
        p += 1;
    }
    assert(rgba@ =~= Seq::new(16777216, |i: int| atlas_byte(ms, a as int, i)));
    rgba
}

/// Bake the graphics of a pack.
pub fn bake(pack: &WorldPack) -> (b: Baked)
    requires
        bakeable(*pack),
    ensures
        b.wf(),
        is_baked(b, *pack),
{
    let mut shelves: Vec<Vec<u32>> = Vec::new();
    let mut i: usize = 0;
    while i < 65521
        invariant
            i <= 65521,
            shelves@.len() == i,
            forall|k: int| 0 <= k < i ==> (#[trigger] shelves@[k])@.len() == 0,
        decreases 65521 - i,
    {
        shelves.push(Vec::new());
        i += 1;
    }
    let mut s = Store { cells: Vec::new(), shelves };
    let mut tables: Vec<Vec<MetatileDraw>> = Vec::new();
    assert(s.model() =~= seq![]);
    assert(table_model(tables@) =~= seq![]);
    let mut p: usize = 0;
    while p < pack.pairs.len()
        invariant
            p <= pack.pairs@.len(),
            bakeable(*pack),
            s.wf(),
            s.cells@.len() <= 2 * slots(*pack, p as int),
            after_pairs(*pack, p as int) == (Tables {
                cells: s.model(),
                tables: table_model(tables@),
            }),
            forall|a: int, m: int|
                #![trigger tables@[a]@[m]]
                0 <= a < tables@.len() && 0 <= m < tables@[a]@.len() ==> refers(
                    tables@[a]@[m].bottom,
                    s.cells@.len() as int,
                ) && refers(tables@[a]@[m].top, s.cells@.len() as int),
        decreases pack.pairs.len() - p,
    {
        let (pi, si): (u16, u16) = pack.pairs[p];
        assert(pack.pairs@[p as int].0 < pack.tilesets@.len());
        let prim = &pack.tilesets[pi as usize];
        let sec = &pack.tilesets[si as usize];
        let n_sec: usize = sec.metatiles.len() / 8 % 65536;
        let count: usize = 512 + n_sec;
        proof {
            lemma_slots(*pack, p + 1, pack.pairs@.len() as int);
        }
        let ghost cells = s.model();
        let ghost had = s.cells@.len();
        let mut table: Vec<MetatileDraw> = Vec::new();
        let mut id: usize = 0;
        assert(table@ =~= seq![]);
        while id < count
            invariant
                id <= count,
                count <= u16::MAX,
                s.wf(),
                had + 2 * count < u32::MAX,
                had <= s.cells@.len() <= had + 2 * id,
                forall|m: int|
                    0 <= m < table@.len() ==> refers(
                        (#[trigger] table@[m]).bottom,
                        s.cells@.len() as int,
                    ) && refers(table@[m].top, s.cells@.len() as int),
                after_metatiles(cells, *prim, *sec, id as int) == (Baking {
                    cells: s.model(),
                    table: table@,
                }),
            decreases count - id,
        {
            let ghost before = s.model();
            let d = bake_metatile(&mut s, prim, sec, id);
            let ghost was = table@;
            table.push(d);
            assert(Baking { cells: s.model(), table: was.push(d) } == after_metatile(
                Baking { cells: before, table: was },
                *prim,
                *sec,
                id as int,
            ));
            id += 1;
        }
        let ghost ts = table_model(tables@);
        let ghost new = table@;
        tables.push(table);
        assert(table_model(tables@) =~= ts.push(new));
        p += 1;
    }
    let ghost t = after_pairs(*pack, pack.pairs@.len() as int);
    let n: usize = s.cells.len();
    let count: usize = n / 16384 + if n % 16384 > 0 { 1 } else { 0 };
    let ghost ms = s.model();
    let mut atlases: Vec<AtlasImage> = Vec::new();
    let mut a: usize = 0;
    while a < count
        invariant
            a <= count,
            count <= u32::MAX,
            s.wf(),
            ms == s.model(),
            atlases@.len() == a,
            forall|k: int|
                0 <= k < a ==> {
                    &&& (#[trigger] atlases@[k]).w == ATLAS_SIZE
                    &&& atlases@[k].h == ATLAS_SIZE
                    &&& atlases@[k].rgba@ == Seq::new(16777216, |i: int| atlas_byte(ms, k, i))
                },
        decreases count - a,
    {
        let rgba = build_atlas(&s.cells, a, Ghost(ms));
        atlases.push(AtlasImage { rgba, w: ATLAS_SIZE, h: ATLAS_SIZE });
        a += 1;
    }
    assert forall|i: int| 0 <= i < t.tables.len() implies (#[trigger] tables@[i])@
        == t.tables[i] by {
        assert(table_model(tables@)[i] == tables@[i]@);
    }
    Baked { atlases, tables }
}

// ---- laws ----------------------------------------------------------------

/// Whether the cells of a list are all there in another one, in their places.
pub open spec fn grows(a: Seq<Seq<u8>>, b: Seq<Seq<u8>>) -> bool {
    a.len() <= b.len() && forall|i: int| 0 <= i < a.len() ==> #[trigger] b[i] == a[i]
}

/// Whether no cell is twice there and none is clear.
pub open spec fn is_packed(cells: Seq<Seq<u8>>) -> bool {
    &&& cells.no_duplicates()
    &&& forall|i: int| 0 <= i < cells.len() ==> !is_clear(#[trigger] cells[i])
}

/// Whether a reference leads to an image, or to nothing where it is clear.
pub open spec fn leads_to(r: CellRef, img: Seq<u8>, cells: Seq<Seq<u8>>) -> bool {
    if is_clear(img) {
        r.0 == NO_CELL
    } else {
        r.0 < cells.len() && cells[r.0 as int] == img
    }
}

/// Whether a drawing shows both layers of a metatile, or nothing where there is
/// no such metatile.
pub open spec fn is_shown(
    d: MetatileDraw,
    prim: TilesetData,
    sec: TilesetData,
    id: int,
    cells: Seq<Seq<u8>>,
) -> bool {
    match entries_of(prim, sec, id) {
        None => d == empty_draw(),
        Some(es) => {
            &&& leads_to(d.bottom, layer(es.subrange(0, 4), prim, sec), cells)
            &&& leads_to(d.top, layer(es.subrange(4, 8), prim, sec), cells)
            &&& d.top_above_player == covers_player(prim, sec, id)
        },
    }
}

proof fn lemma_found(cells: Seq<Seq<u8>>, img: Seq<u8>, from: int)
    requires
        0 <= from <= cells.len(),
    ensures
        from <= first_cell(cells, img, from) <= cells.len(),
        first_cell(cells, img, from) < cells.len() ==> cells[first_cell(cells, img, from)] == img,
        forall|k: int|
            from <= k < first_cell(cells, img, from) ==> #[trigger] cells[k] != img,
    decreases cells.len() - from,
{
    if from < cells.len() && cells[from] != img {
        lemma_found(cells, img, from + 1);
    }
}

proof fn lemma_taken_in(cells: Seq<Seq<u8>>, img: Seq<u8>)
    requires
        is_packed(cells),
        cells.len() < u32::MAX,
    ensures
        is_packed(with_cell(cells, img)),
        grows(cells, with_cell(cells, img)),
        with_cell(cells, img).len() <= cells.len() + 1,
        leads_to(cell_ref(cells, img), img, with_cell(cells, img)),
{
    lemma_found(cells, img, 0);
}

proof fn lemma_metatiles_shown(cells: Seq<Seq<u8>>, prim: TilesetData, sec: TilesetData, n: int)
    requires
        0 <= n,
        is_packed(cells),
        cells.len() + 2 * n < u32::MAX,
    ensures
        ({
            let b = after_metatiles(cells, prim, sec, n);
            &&& is_packed(b.cells)
            &&& grows(cells, b.cells)
            &&& b.cells.len() <= cells.len() + 2 * n
            &&& b.table.len() == n
            &&& forall|m: int|
                0 <= m < n ==> is_shown(#[trigger] b.table[m], prim, sec, m, b.cells)
        }),
    decreases n,
{
    if n > 0 {
        lemma_metatiles_shown(cells, prim, sec, n - 1);
        let had = after_metatiles(cells, prim, sec, n - 1);
        let now = after_metatiles(cells, prim, sec, n);
        if let Some(es) = entries_of(prim, sec, n - 1) {
            let bottom = layer(es.subrange(0, 4), prim, sec);
            let c1 = with_cell(had.cells, bottom);
            lemma_taken_in(had.cells, bottom);
            lemma_taken_in(c1, layer(es.subrange(4, 8), prim, sec));
        }
        assert forall|m: int| 0 <= m < n implies is_shown(
            #[trigger] now.table[m],
            prim,
            sec,
            m,
            now.cells,
        ) by {
            if m < n - 1 {
                assert(now.table[m] == had.table[m]);
                assert(is_shown(had.table[m], prim, sec, m, had.cells));
            }
        }
    }
}

proof fn lemma_pairs_shown(pack: WorldPack, n: int)
    requires
        bakeable(pack),
        0 <= n <= pack.pairs@.len(),
    ensures
        ({
            let t = after_pairs(pack, n);
            &&& is_packed(t.cells)
            &&& t.cells.len() <= 2 * slots(pack, n)
            &&& t.tables.len() == n
            &&& forall|p: int, m: int|
                #![trigger t.tables[p][m]]
                0 <= p < n && 0 <= m < t.tables[p].len() ==> is_shown(
                    t.tables[p][m],
                    pack.tilesets@[pack.pairs@[p].0 as int],
                    pack.tilesets@[pack.pairs@[p].1 as int],
                    m,
                    t.cells,
                )
            &&& forall|p: int|
                0 <= p < n ==> (#[trigger] t.tables[p]).len() == metatile_count(
                    pack.tilesets@[pack.pairs@[p].1 as int],
                )
        }),
    decreases n,
{
    if n > 0 {
        lemma_pairs_shown(pack, n - 1);
        lemma_slots(pack, n, pack.pairs@.len() as int);
        let had = after_pairs(pack, n - 1);
        let now = after_pairs(pack, n);
        let prim = pack.tilesets@[pack.pairs@[n - 1].0 as int];
        let sec = pack.tilesets@[pack.pairs@[n - 1].1 as int];
        lemma_metatiles_shown(had.cells, prim, sec, metatile_count(sec));
        assert forall|p: int, m: int|
            #![trigger now.tables[p][m]]
            0 <= p < n && 0 <= m < now.tables[p].len() implies is_shown(
            now.tables[p][m],
            pack.tilesets@[pack.pairs@[p].0 as int],
            pack.tilesets@[pack.pairs@[p].1 as int],
            m,
            now.cells,
        ) by {
            if p < n - 1 {
                assert(now.tables[p] == had.tables[p]);
                assert(is_shown(
                    had.tables[p][m],
                    pack.tilesets@[pack.pairs@[p].0 as int],
                    pack.tilesets@[pack.pairs@[p].1 as int],
                    m,
                    had.cells,
                ));
            }
        }
    } else {
        assert(after_pairs(pack, 0).cells =~= seq![]);
    }
}

/// What is baked of a pack: no cell is twice there, none is clear, and every
/// metatile of every pair is drawn with the cells that hold its two layers.
pub proof fn a_metatile_is_drawn_as_it_looks(pack: WorldPack)
    requires
        bakeable(pack),
    ensures
        ({
            let t = after_pairs(pack, pack.pairs@.len() as int);
            &&& is_packed(t.cells)
            &&& forall|p: int, m: int|
                #![trigger t.tables[p][m]]
                0 <= p < pack.pairs@.len() && 0 <= m < metatile_count(
                    pack.tilesets@[pack.pairs@[p].1 as int],
                ) ==> is_shown(
                    t.tables[p][m],
                    pack.tilesets@[pack.pairs@[p].0 as int],
                    pack.tilesets@[pack.pairs@[p].1 as int],
                    m,
                    t.cells,
                )
        }),
{
    lemma_pairs_shown(pack, pack.pairs@.len() as int);
}

/// The 16x16 image at a place of an atlas.
pub open spec fn cut_out(rgba: Seq<u8>, x: int, y: int) -> Seq<u8> {
    Seq::new(1024, |i: int| rgba[((y + i / 64) * 2048 + x + i / 4 % 16) * 4 + i % 4])
}

/// A cell lies in the atlases where its number says.
proof fn lemma_cut_out(cells: Seq<Seq<u8>>, k: int)
    requires
        0 <= k < cells.len(),
        cells[k].len() == 1024,
    ensures
        cut_out(
            Seq::new(16777216, |i: int| atlas_byte(cells, k / 16384, i)),
            k % 16384 % 128 * 16,
            k % 16384 / 128 * 16,
        ) == cells[k],
{
    let a = k / 16384;
    let (cx, cy) = (k % 16384 % 128 * 16, k % 16384 / 128 * 16);
    let rgba = Seq::new(16777216, |i: int| atlas_byte(cells, a, i));
    let img = cut_out(rgba, cx, cy);
    assert forall|i: int| 0 <= i < 1024 implies #[trigger] img[i] == cells[k][i] by {
        let (px, py, ch) = (i / 4 % 16, i / 64, i % 4);
        let j = ((cy + py) * 2048 + cx + px) * 4 + ch;
        assert(0 <= px < 16 && 0 <= py < 16 && (py * 16 + px) * 4 + ch == i);
        assert(j / 4 == (cy + py) * 2048 + (cx + px));
        assert(j / 4 % 2048 == cx + px && j / 8192 == cy + py && j % 4 == ch);
        assert((cx + px) / 16 == k % 16384 % 128 && (cy + py) / 16 == k % 16384 / 128);
        assert((cx + px) % 16 == px && (cy + py) % 16 == py);
        assert(a * 16384 + k % 16384 / 128 * 128 + k % 16384 % 128 == k);
        assert(rgba[j] == atlas_byte(cells, a, j));
    }
    assert(img =~= cells[k]);
}

/// Whether a reference leads to an image in the atlases, or to nothing where
/// the image is clear.
pub open spec fn is_found(b: Baked, r: CellRef, img: Seq<u8>) -> bool {
    if is_clear(img) {
        r.0 == NO_CELL
    } else {
        let a = (r.0 / PER_ATLAS) as int;
        &&& r.0 != NO_CELL
        &&& a < b.atlases@.len()
        &&& cut_out(
            b.atlases@[a].rgba@,
            r.0 % PER_ATLAS % PER_ROW * 16,
            r.0 % PER_ATLAS / PER_ROW * 16,
        ) == img
    }
}

/// Whether a drawing is of both layers of a metatile as the atlases hold them,
/// or of nothing where there is no such metatile.
pub open spec fn looks_like(
    b: Baked,
    d: MetatileDraw,
    prim: TilesetData,
    sec: TilesetData,
    id: int,
) -> bool {
    match entries_of(prim, sec, id) {
        None => d == empty_draw(),
        Some(es) => {
            &&& is_found(b, d.bottom, layer(es.subrange(0, 4), prim, sec))
            &&& is_found(b, d.top, layer(es.subrange(4, 8), prim, sec))
            &&& d.top_above_player == covers_player(prim, sec, id)
        },
    }
}

proof fn lemma_is_found(b: Baked, pack: WorldPack, r: CellRef, img: Seq<u8>)
    requires
        bakeable(pack),
        is_baked(b, pack),
        img.len() == 1024,
        leads_to(r, img, after_pairs(pack, pack.pairs@.len() as int).cells),
    ensures
        is_found(b, r, img),
{
    let t = after_pairs(pack, pack.pairs@.len() as int);
    lemma_pairs_shown(pack, pack.pairs@.len() as int);
    if !is_clear(img) {
        let k = r.0 as int;
        assert(k / 16384 < b.atlases@.len());
        lemma_cut_out(t.cells, k);
    }
}

/// The graphics of a pack draw every metatile of every pair as its tilesets
/// say, from atlases that hold its two layers.
pub proof fn the_atlases_hold_what_is_drawn(b: Baked, pack: WorldPack, p: int, m: int)
    requires
        bakeable(pack),
        is_baked(b, pack),
        0 <= p < pack.pairs@.len(),
        0 <= m < metatile_count(pack.tilesets@[pack.pairs@[p].1 as int]),
    ensures
        looks_like(
            b,
            b.drawn(p, m),
            pack.tilesets@[pack.pairs@[p].0 as int],
            pack.tilesets@[pack.pairs@[p].1 as int],
            m,
        ),
{
    let t = after_pairs(pack, pack.pairs@.len() as int);
    let prim = pack.tilesets@[pack.pairs@[p].0 as int];
    let sec = pack.tilesets@[pack.pairs@[p].1 as int];
    lemma_pairs_shown(pack, pack.pairs@.len() as int);
    assert(b.tables@[p]@ == t.tables[p]);
    let d = t.tables[p][m];
    assert(is_shown(d, prim, sec, m, t.cells));
    if let Some(es) = entries_of(prim, sec, m) {
        lemma_is_found(b, pack, d.bottom, layer(es.subrange(0, 4), prim, sec));
        lemma_is_found(b, pack, d.top, layer(es.subrange(4, 8), prim, sec));
    }
}

/// The drawings of a pack are of cells that its atlases hold.
pub proof fn lemma_baked_wf(b: Baked, pack: WorldPack)
    requires
        bakeable(pack),
        is_baked(b, pack),
    ensures
        b.wf(),
        b.tables@.len() == pack.pairs@.len(),
        forall|p: int|
            0 <= p < pack.pairs@.len() ==> (#[trigger] b.tables@[p])@.len() == metatile_count(
                pack.tilesets@[pack.pairs@[p].1 as int],
            ),
{
    let t = after_pairs(pack, pack.pairs@.len() as int);
    lemma_pairs_shown(pack, pack.pairs@.len() as int);
    assert forall|p: int, m: int|
        #![trigger b.tables@[p]@[m]]
        0 <= p < b.tables@.len() && 0 <= m < b.tables@[p]@.len() implies refers(
        b.tables@[p]@[m].bottom,
        b.atlases@.len() as int * 16384,
    ) && refers(b.tables@[p]@[m].top, b.atlases@.len() as int * 16384) by {
        assert(b.tables@[p]@ == t.tables[p]);
        assert(is_shown(
            t.tables[p][m],
            pack.tilesets@[pack.pairs@[p].0 as int],
            pack.tilesets@[pack.pairs@[p].1 as int],
            m,
            t.cells,
        ));
    }
    assert forall|p: int| 0 <= p < pack.pairs@.len() implies (#[trigger] b.tables@[p])@.len()
        == metatile_count(pack.tilesets@[pack.pairs@[p].1 as int]) by {
        assert(b.tables@[p]@ == t.tables[p]);
    }
}

} // verus!
