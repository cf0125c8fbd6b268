//! The world model: a graph of realms. A realm is one coordinate space. The
//! overworld is one large realm, in which each map owns a rectangle and a
//! lookup detects map entry; each interior is its own small realm. Warps are
//! edges: a warp switches the active realm and places the player at the
//! target point.
//!
//! The whole world is resident: `RealmGraph::from_pack` expands every realm's
//! cells up front.

use vstd::prelude::*;
use crate::game::data::{LayoutData, MapData, RealmData, WarpData, WorldPack};

verus! {

/// One metatile is 16x16 pixels, the unit of the grid and of movement.
pub const METATILE: u32 = 16;

/// Index into the realms of a graph.
pub type RealmId = u16;

/// Index into the maps of a realm.
pub type MapIdx = u16;

#[derive(Debug, PartialEq, Eq)]
pub struct MapInfo {
    pub id: String,
    pub music: String,
    /// Position of this map's top-left in the realm's metatile coords.
    pub x: i32,
    pub y: i32,
    pub width: i32,
    pub height: i32,
}

/// A warp edge out of a realm: standing on (x, y) moves the player to
/// (to_x, to_y) in `to_realm`.
#[derive(Clone, Copy, Debug, PartialEq, Eq, Structural)]
pub struct Warp {
    pub x: i32,
    pub y: i32,
    pub to_realm: RealmId,
    pub to_x: i32,
    pub to_y: i32,
}

/// One grid cell: which tileset pair renders it, which metatile, and its
/// collision and elevation.
#[derive(Clone, Copy, Debug, PartialEq, Eq, Structural)]
pub struct Cell {
    pub pair: u16,
    pub metatile: u16,
    pub collision: u8,
    /// 0 = transition (never blocks), 15 = bridges (never block), otherwise
    /// must match the walker's elevation. Water is 1, plain ground 3.
    pub elevation: u8,
}

pub struct Realm {
    pub width: i32,
    pub height: i32,
    pub maps: Vec<MapInfo>,
    pub warps: Vec<Warp>,
    /// Row by row; nothing where no map owns the tile.
    pub cells: Vec<Option<Cell>>,
}

// ---- cells ---------------------------------------------------------------

/// The cell that a mapgrid word of a layout stands for. A pair has eight
/// bits; those past the ninth fall together with the elevation.
pub open spec fn cell_of(word: u16, pair: u16) -> Cell {
    Cell {
        pair: pair % 256,
        metatile: word % 1024,
        collision: (word / 1024 % 4) as u8,
        elevation: (word / 4096) as u8 | (pair / 512 % 16) as u8,
    }
}

fn make_cell(word: u16, pair: u16) -> (c: Cell)
    ensures
        c == cell_of(word, pair),
{
    Cell {
        pair: pair % 256,
        metatile: word % 1024,
        collision: (word / 1024 % 4) as u8,
        elevation: (word / 4096) as u8 | (pair / 512 % 16) as u8,
    }
}

/// Whether the elevations of a grid have four bits each.
pub open spec fn are_cells(cells: Seq<Option<Cell>>) -> bool {
    forall|i: int|
        0 <= i < cells.len() ==> ((#[trigger] cells[i]) matches Some(c) ==> c.elevation < 16)
}

proof fn lemma_cell(word: u16, pair: u16)
    ensures
        cell_of(word, pair).elevation < 16,
{
    let a = (word / 4096) as u8;
    let b = (pair / 512 % 16) as u8;
    assert(a | b < 16) by (bit_vector)
        requires
            a < 16,
            b < 16,
    ;
}

proof fn lemma_stamped(cells: Seq<Option<Cell>>, m: MapData, l: LayoutData, width: int, n: int)
    requires
        are_cells(cells),
        forall|k: int|
            0 <= k < n ==> 0 <= #[trigger] grid_place(m, l, width, k) < cells.len(),
    ensures
        stamped(cells, m, l, width, n).len() == cells.len(),
        are_cells(stamped(cells, m, l, width, n)),
    decreases n,
{
    if n > 0 {
        lemma_stamped(cells, m, l, width, n - 1);
        lemma_cell(l.blockdata@[n - 1], l.pair);
        assert(0 <= grid_place(m, l, width, n - 1) < cells.len());
    }
}

proof fn lemma_stitched(rd: RealmData, layouts: Seq<LayoutData>, n: int)
    requires
        coherent_realm(rd, layouts),
        n <= rd.maps@.len(),
    ensures
        stitched(rd, layouts, n).len() == rd.width * rd.height,
        are_cells(stitched(rd, layouts, n)),
    decreases n,
{
    if n > 0 {
        let m = rd.maps@[n - 1];
        let l = layouts[m.layout as int];
        assert(placed(rd.maps@[n - 1], layouts, rd.width as int, rd.width * rd.height));
        lemma_stitched(rd, layouts, n - 1);
        lemma_stamped(stitched(rd, layouts, n - 1), m, l, rd.width as int, area(l));
    }
}

/// The place of a layout's cell `k` in the grid of its realm.
pub open spec fn grid_place(m: MapData, l: LayoutData, width: int, k: int) -> int {
    (m.y + k / (l.width as int)) * width + m.x + k % (l.width as int)
}

/// How many cells a layout has.
pub open spec fn area(l: LayoutData) -> int {
    l.width * l.height
}

/// Whether a map can be laid into a grid of `n` cells, `width` to a row: its
/// blocks are there, each of them has a place in the grid, and no coordinate
/// on the way leaves its range.
pub open spec fn placed(m: MapData, layouts: Seq<LayoutData>, width: int, n: int) -> bool {
    &&& m.layout < layouts.len()
    &&& ({
        let l = layouts[m.layout as int];
        &&& l.width <= i32::MAX
        &&& l.height <= i32::MAX
        &&& area(l) <= i32::MAX
        &&& area(l) <= l.blockdata@.len()
        &&& i32::MIN <= m.x + l.width <= i32::MAX
        &&& i32::MIN <= m.y + l.height <= i32::MAX
        &&& forall|k: int|
            0 <= k < area(l) ==> 0 <= #[trigger] grid_place(m, l, width, k) < n && i32::MIN <= (
            m.y + k / (l.width as int)) * width <= i32::MAX && i32::MIN <= (m.y + k / (
            l.width as int)) * width + m.x <= i32::MAX
    })
}

/// Whether a realm can be expanded.
pub open spec fn coherent_realm(rd: RealmData, layouts: Seq<LayoutData>) -> bool {
    &&& rd.width < i32::MAX
    &&& rd.height < i32::MAX
    &&& rd.width * rd.height <= i32::MAX
    &&& forall|i: int|
        0 <= i < rd.maps@.len() ==> placed(
            #[trigger] rd.maps@[i],
            layouts,
            rd.width as int,
            rd.width * rd.height,
        )
}

/// The grid after the first `n` cells of a map were laid into it.
pub open spec fn stamped(
    cells: Seq<Option<Cell>>,
    m: MapData,
    l: LayoutData,
    width: int,
    n: int,
) -> Seq<Option<Cell>>
    decreases n,
{
    if n <= 0 {
        cells
    } else {
        stamped(cells, m, l, width, n - 1).update(
            grid_place(m, l, width, n - 1),
            Some(cell_of(l.blockdata@[n - 1], l.pair)),
        )
    }
}

/// The grid of a realm after its first `n` maps; a later map covers an
/// earlier one.
pub open spec fn stitched(rd: RealmData, layouts: Seq<LayoutData>, n: int) -> Seq<Option<Cell>>
    decreases n,
{
    if n <= 0 {
        Seq::new((rd.width * rd.height) as nat, |i: int| None::<Cell>)
    } else {
        let m = rd.maps@[n - 1];
        let l = layouts[m.layout as int];
        stamped(stitched(rd, layouts, n - 1), m, l, rd.width as int, area(l))
    }
}

pub open spec fn warp_of(w: WarpData) -> Warp {
    Warp { x: w.x, y: w.y, to_realm: w.to_realm, to_x: w.to_x, to_y: w.to_y }
}

/// The warps of the first `n` maps of a realm.
pub open spec fn warps_of(maps: Seq<MapData>, n: int) -> Seq<Warp>
    decreases n,
{
    if n <= 0 {
        seq![]
    } else {
        warps_of(maps, n - 1) + Seq::new(
            maps[n - 1].warps@.len(),
            |i: int| warp_of(maps[n - 1].warps@[i]),
        )
    }
}

/// Whether a map of a realm is what its data say.
pub open spec fn info_of(i: MapInfo, m: MapData, layouts: Seq<LayoutData>) -> bool {
    &&& i.id@ == m.id@
    &&& i.music@ == m.music@
    &&& i.x == m.x
    &&& i.y == m.y
    &&& i.width == layouts[m.layout as int].width
    &&& i.height == layouts[m.layout as int].height
}

// ---- realms --------------------------------------------------------------

impl MapInfo {
    /// Whether a tile lies in this map.
    pub open spec fn covers(&self, x: int, y: int) -> bool {
        self.x <= x < self.x + self.width && self.y <= y < self.y + self.height
    }
}

impl Realm {
    pub open spec fn wf(&self) -> bool {
        &&& 0 <= self.width < i32::MAX
        &&& 0 <= self.height < i32::MAX
        &&& self.width * self.height <= i32::MAX
        &&& self.cells@.len() == self.width * self.height
        &&& are_cells(self.cells@)
        &&& forall|i: int|
            0 <= i < self.maps@.len() ==> i32::MIN <= (#[trigger] self.maps@[i]).x
                + self.maps@[i].width <= i32::MAX && i32::MIN <= self.maps@[i].y
                + self.maps@[i].height <= i32::MAX
    }

    pub open spec fn inside(&self, x: int, y: int) -> bool {
        0 <= x < self.width && 0 <= y < self.height
    }

    /// The cell of a tile; nothing outside the realm and in its gaps.
    pub open spec fn cell_at(&self, x: int, y: int) -> Option<Cell> {
        if self.inside(x, y) {
            self.cells@[y * self.width + x]
        } else {
            None
        }
    }

    /// The first warp on a tile.
    pub open spec fn first_warp(&self, x: int, y: int, from: int) -> Option<Warp>
        decreases self.warps@.len() - from,
    {
        if from < 0 || from >= self.warps@.len() {
            None
        } else if self.warps@[from].x == x && self.warps@[from].y == y {
            Some(self.warps@[from])
        } else {
            self.first_warp(x, y, from + 1)
        }
    }

    pub open spec fn warp_on(&self, x: int, y: int) -> Option<Warp> {
        self.first_warp(x, y, 0)
    }

    /// The first map, from `from` on, that owns a tile, by its number in 16
    /// bits.
    pub open spec fn first_map(&self, x: int, y: int, from: int) -> Option<u16>
        decreases self.maps@.len() - from,
    {
        if from < 0 || from >= self.maps@.len() {
            None
        } else if self.maps@[from].covers(x, y) {
            Some((from % 65536) as u16)
        } else {
            self.first_map(x, y, from + 1)
        }
    }

    pub open spec fn map_on(&self, x: int, y: int) -> Option<u16> {
        self.first_map(x, y, 0)
    }

    /// Expand a pack realm: lay every member map's layout into this realm's
    /// single grid.
    pub fn from_data(rd: &RealmData, layouts: &Vec<LayoutData>) -> (r: Realm)
        requires
            coherent_realm(*rd, layouts@),
        ensures
            r.wf(),
            r.width == rd.width,
            r.height == rd.height,
            r.cells@ == stitched(*rd, layouts@, rd.maps@.len() as int),
            r.warps@ == warps_of(rd.maps@, rd.maps@.len() as int),
            r.maps@.len() == rd.maps@.len(),
            forall|i: int|
                0 <= i < r.maps@.len() ==> info_of(#[trigger] r.maps@[i], rd.maps@[i], layouts@),
    {
        let n: u64 = rd.width as u64 * rd.height as u64;
        let mut cells: Vec<Option<Cell>> = Vec::new();
        let mut i: u64 = 0;
        while i < n
            invariant
                i <= n,
                cells@.len() == i,
                forall|k: int| 0 <= k < i ==> cells@[k] is None,
            decreases n - i,
        {
            cells.push(None);
            i += 1;
        }
        assert(cells@ =~= stitched(*rd, layouts@, 0));
        let mut maps: Vec<MapInfo> = Vec::new();
        let mut warps: Vec<Warp> = Vec::new();
        let mut a: usize = 0;
        while a < rd.maps.len()
            invariant
                a <= rd.maps@.len(),
                coherent_realm(*rd, layouts@),
                cells@ == stitched(*rd, layouts@, a as int),
                cells@.len() == rd.width * rd.height,
                warps@ == warps_of(rd.maps@, a as int),
                maps@.len() == a,
                forall|k: int|
                    0 <= k < a ==> info_of(#[trigger] maps@[k], rd.maps@[k], layouts@),
                forall|k: int|
                    0 <= k < a ==> i32::MIN <= (#[trigger] maps@[k]).x + maps@[k].width <= i32::MAX
                        && i32::MIN <= maps@[k].y + maps@[k].height <= i32::MAX,
            decreases rd.maps.len() - a,
        {
            let m = &rd.maps[a];
            assert(placed(rd.maps@[a as int], layouts@, rd.width as int, rd.width * rd.height));
            let l = &layouts[m.layout as usize];
            lay_map(&mut cells, m, l, layouts, rd.width);
            maps.push(
                MapInfo {
                    id: m.id.clone(),
                    music: m.music.clone(),
                    x: m.x,
                    y: m.y,
                    width: l.width as i32,
                    height: l.height as i32,
                },
            );
            let ghost before = warps@;
            let ghost more = Seq::new(m.warps@.len(), |i: int| warp_of(m.warps@[i]));
            let mut k: usize = 0;
            assert(warps@ =~= before + more.take(0));
            while k < m.warps.len()
                invariant
                    k <= m.warps@.len(),
                    more == Seq::new(m.warps@.len(), |i: int| warp_of(m.warps@[i])),
                    warps@ == before + more.take(k as int),
                decreases m.warps.len() - k,
            {
                let w = &m.warps[k];
                warps.push(
                    Warp { x: w.x, y: w.y, to_realm: w.to_realm, to_x: w.to_x, to_y: w.to_y },
                );
                assert(warps@ =~= before + more.take(k + 1));
                k += 1;
            }
            assert(more.take(k as int) =~= more);
            a += 1;
        }
        proof {
            lemma_stitched(*rd, layouts@, rd.maps@.len() as int);
        }
        Realm { width: rd.width as i32, height: rd.height as i32, maps, warps, cells }
    }

    pub fn in_bounds(&self, x: i32, y: i32) -> (b: bool)
        ensures
            b == self.inside(x as int, y as int),
    {
        0 <= x && x < self.width && 0 <= y && y < self.height
    }

    pub fn cell(&self, x: i32, y: i32) -> (c: Option<Cell>)
        requires
            self.wf(),
        ensures
            c == self.cell_at(x as int, y as int),
    {
        if !self.in_bounds(x, y) {
            return None;
        }
        proof {
            lemma_place(x as int, y as int, self.width as int, self.height as int);
        }
        self.cells[(y as i64 * self.width as i64 + x as i64) as usize]
    }

    /// Collision decides passability. Tiles outside any map stay traversable
    /// void.
    pub fn passable(&self, x: i32, y: i32) -> (b: bool)
        requires
            self.wf(),
        ensures
            b == match self.cell_at(x as int, y as int) {
                Some(c) => c.collision == 0,
                None => true,
            },
    {
        match self.cell(x, y) {
            Some(c) => c.collision == 0,
            None => true,
        }
    }

    /// Which map owns this tile.
    pub fn map_at(&self, x: i32, y: i32) -> (r: Option<MapIdx>)
        requires
            self.wf(),
        ensures
            r == self.map_on(x as int, y as int),
    {
        let mut i: usize = 0;
        while i < self.maps.len()
            invariant
                i <= self.maps@.len(),
                self.wf(),
                self.map_on(x as int, y as int) == self.first_map(x as int, y as int, i as int),
            decreases self.maps.len() - i,
        {
            let m = &self.maps[i];
            if m.x <= x && x < m.x + m.width && m.y <= y && y < m.y + m.height {
                return Some((i % 65536) as u16);
            }
            i += 1;
        }
        None
    }

    pub fn warp_at(&self, x: i32, y: i32) -> (r: Option<Warp>)
        ensures
            r == self.warp_on(x as int, y as int),
    {
        let mut i: usize = 0;
        while i < self.warps.len()
            invariant
                i <= self.warps@.len(),
                self.warp_on(x as int, y as int) == self.first_warp(x as int, y as int, i as int),
            decreases self.warps.len() - i,
        {
            let w = self.warps[i];
            if w.x == x && w.y == y {
                return Some(w);
            }
            i += 1;
        }
        None
    }
}

/// A tile inside a grid has a place in it.
pub proof fn lemma_place(x: int, y: int, width: int, height: int)
    requires
        0 <= x < width,
        0 <= y < height,
    ensures
        0 <= y * width + x < width * height,
{
    assert(0 <= y * width) by (nonlinear_arith)
        requires
            0 <= y,
            0 <= width,
    ;
    assert(y * width + width <= width * height) by (nonlinear_arith)
        requires
            y + 1 <= height,
            0 <= width,
    ;
}

/// Lay the cells of a map into the grid of its realm.
fn lay_map(
    cells: &mut Vec<Option<Cell>>,
    m: &MapData,
    l: &LayoutData,
    layouts: &Vec<LayoutData>,
    width: u32,
)
    requires
        placed(*m, layouts@, width as int, old(cells)@.len() as int),
        *l == layouts@[m.layout as int],
        width <= i32::MAX,
    ensures
        final(cells)@ == stamped(old(cells)@, *m, *l, width as int, area(*l)),
        final(cells)@.len() == old(cells)@.len(),
{
    let ghost start = cells@;
    let mut y: u32 = 0;
    let mut k: u64 = 0;
    assert(0 * l.width == 0) by (nonlinear_arith);
    while y < l.height
        invariant
            y <= l.height,
            k == y * l.width,
            width <= i32::MAX,
            placed(*m, layouts@, width as int, start.len() as int),
            *l == layouts@[m.layout as int],
            cells@ == stamped(start, *m, *l, width as int, k as int),
            cells@.len() == start.len(),
        decreases l.height - y,
    {
        let mut x: u32 = 0;
        while x < l.width
            invariant
                y < l.height,
                x <= l.width,
                k == y * l.width + x,
                width <= i32::MAX,
                placed(*m, layouts@, width as int, start.len() as int),
                *l == layouts@[m.layout as int],
                cells@ == stamped(start, *m, *l, width as int, k as int),
                cells@.len() == start.len(),
            decreases l.width - x,
        {
            proof {
                lemma_place(x as int, y as int, l.width as int, l.height as int);
                lemma_row(y as int, x as int, l.width as int);
                let kk = k as int;
                assert(0 <= grid_place(*m, *l, width as int, kk) < start.len());
                let yy = m.y + y;
                assert(-0x1_0000_0000 * 0x8000_0000 <= yy * width <= 0x1_0000_0000 * 0x8000_0000)
                    by (nonlinear_arith)
                    requires
                        -0x1_0000_0000 <= yy <= 0x1_0000_0000,
                        0 <= width <= 0x7fff_ffff,
                ;
            }
            let word: u16 = l.blockdata[k as usize];
            let at: i64 = (m.y as i64 + y as i64) * width as i64 + m.x as i64 + x as i64;
            cells[at as usize] = Some(make_cell(word, l.pair));
            k += 1;
            x += 1;
        }
        assert((y + 1) * l.width == y * l.width + l.width) by (nonlinear_arith);
        y += 1;
    }
    assert(l.height * l.width == l.width * l.height) by (nonlinear_arith);
}

/// Row and column of a place.
pub proof fn lemma_row(y: int, x: int, w: int)
    requires
        0 <= x < w,
    ensures
        (y * w + x) / w == y,
        (y * w + x) % w == x,
{
    vstd::arithmetic::div_mod::lemma_fundamental_div_mod_converse(y * w + x, w, y, x);
}

// ---- the graph -----------------------------------------------------------

/// The whole world, resident. Realm 0 is the overworld. Also carries the
/// metatile behaviors (per tileset), the surfable behaviors and the animated
/// doors.
pub struct RealmGraph {
    pub realms: Vec<Realm>,
    /// (primary, secondary) tileset per pair index.
    pub pairs: Vec<(u16, u16)>,
    /// Behavior byte per metatile, per tileset.
    pub behaviors: Vec<Vec<u8>>,
    /// Bit b of byte b/8: behavior b is surfable water.
    pub surfable: [u8; 32],
    /// Per-behavior warp trigger (0 step-on, 1..4 = S/N/E/W arrow).
    pub warp_dir: [u8; 256],
    /// (tileset, metatile) of each door of the pack.
    pub doors: Vec<(u16, u16)>,
}

pub const OVERWORLD: RealmId = 0;

/// The weight of a bit of a byte.
pub open spec fn weight(n: int) -> int {
    if n <= 0 {
        1
    } else if n == 1 {
        2
    } else if n == 2 {
        4
    } else if n == 3 {
        8
    } else if n == 4 {
        16
    } else if n == 5 {
        32
    } else if n == 6 {
        64
    } else {
        128
    }
}

fn bit_weight(n: u8) -> (w: u8)
    requires
        n < 8,
    ensures
        w == weight(n as int),
        w > 0,
{
    if n == 0 {
        1
    } else if n == 1 {
        2
    } else if n == 2 {
        4
    } else if n == 3 {
        8
    } else if n == 4 {
        16
    } else if n == 5 {
        32
    } else if n == 6 {
        64
    } else {
        128
    }
}

/// Whether a behavior is set in a mask.
pub open spec fn in_mask(mask: Seq<u8>, b: u8) -> bool {
    mask[(b / 8) as int] as int / weight(b as int % 8) % 2 == 1
}

/// The last place of a door in a list.
pub open spec fn last_door(doors: Seq<(u16, u16)>, key: (u16, u16), n: int) -> Option<u16>
    decreases n,
{
    if n <= 0 {
        None
    } else if doors[n - 1] == key {
        Some(((n - 1) % 65536) as u16)
    } else {
        last_door(doors, key, n - 1)
    }
}

/// Whether a realm is the expansion of its data.
pub open spec fn expands(r: Realm, rd: RealmData, layouts: Seq<LayoutData>) -> bool {
    &&& r.width == rd.width
    &&& r.height == rd.height
    &&& r.cells@ == stitched(rd, layouts, rd.maps@.len() as int)
    &&& r.warps@ == warps_of(rd.maps@, rd.maps@.len() as int)
    &&& r.maps@.len() == rd.maps@.len()
    &&& forall|i: int| 0 <= i < r.maps@.len() ==> info_of(#[trigger] r.maps@[i], rd.maps@[i], layouts)
}

/// Whether every realm of a pack can be expanded.
pub open spec fn coherent_realms(pack: WorldPack) -> bool {
    forall|i: int|
        0 <= i < pack.realms@.len() ==> coherent_realm(#[trigger] pack.realms@[i], pack.layouts@)
}

impl RealmGraph {
    pub open spec fn wf(&self) -> bool {
        forall|i: int| 0 <= i < self.realms@.len() ==> (#[trigger] self.realms@[i]).wf()
    }

    /// Whether every warp leads to a realm, and to a tile that has neighbours.
    pub open spec fn navigable(&self) -> bool {
        forall|i: int, k: int|
            #![trigger self.realms@[i].warps@[k]]
            0 <= i < self.realms@.len() && 0 <= k < self.realms@[i].warps@.len()
                ==> leads_somewhere(self.realms@[i].warps@[k], self.realms@.len() as int)
    }

    /// The tileset of a metatile and its place there.
    pub open spec fn tileset_of(&self, c: Cell) -> (int, int) {
        let (prim, sec) = self.pairs@[c.pair as int];
        if c.metatile < 512 {
            (prim as int, c.metatile as int)
        } else {
            (sec as int, c.metatile - 512)
        }
    }

    pub open spec fn behavior_of(&self, c: Cell) -> u8 {
        if c.pair >= self.pairs@.len() {
            0
        } else {
            let (ts, local) = self.tileset_of(c);
            if ts < self.behaviors@.len() && local < self.behaviors@[ts]@.len() {
                self.behaviors@[ts]@[local]
            } else {
                0
            }
        }
    }

    pub open spec fn is_surfable(&self, c: Cell) -> bool {
        in_mask(self.surfable@, self.behavior_of(c))
    }

    pub open spec fn arrow_on(&self, realm: int, x: int, y: int) -> Option<u8> {
        match self.realms@[realm].cell_at(x, y) {
            None => None,
            Some(c) => {
                let d = self.warp_dir@[self.behavior_of(c) as int];
                if d == 0 {
                    None
                } else {
                    Some(d)
                }
            },
        }
    }

    pub open spec fn surfable_on(&self, realm: int, x: int, y: int) -> bool {
        match self.realms@[realm].cell_at(x, y) {
            None => false,
            Some(c) => self.is_surfable(c),
        }
    }

    pub open spec fn door_on(&self, realm: int, x: int, y: int) -> Option<u16> {
        match self.realms@[realm].cell_at(x, y) {
            None => None,
            Some(c) => if c.pair >= self.pairs@.len() {
                None
            } else {
                last_door(
                    self.doors@,
                    (self.tileset_of(c).0 as u16, c.metatile),
                    self.doors@.len() as int,
                )
            },
        }
    }

    pub fn realm(&self, id: RealmId) -> (r: &Realm)
        requires
            id < self.realms@.len(),
        ensures
            *r == self.realms@[id as int],
    {
        &self.realms[id as usize]
    }

    pub fn from_pack(pack: &WorldPack) -> (g: RealmGraph)
        requires
            coherent_realms(*pack),
        ensures
            g.wf(),
            g.realms@.len() == pack.realms@.len(),
            forall|i: int|
                0 <= i < g.realms@.len() ==> expands(
                    #[trigger] g.realms@[i],
                    pack.realms@[i],
                    pack.layouts@,
                ),
            g.pairs@ == pack.pairs@,
            g.behaviors@.len() == pack.tilesets@.len(),
            forall|i: int|
                0 <= i < pack.tilesets@.len() ==> (#[trigger] g.behaviors@[i])@ == Seq::new(
                    pack.tilesets@[i].attributes@.len(),
                    |k: int| (pack.tilesets@[i].attributes@[k] % 256) as u8,
                ),
            g.surfable == pack.surfable,
            g.warp_dir == pack.warp_dir,
            g.doors@ == Seq::new(
                pack.doors@.len(),
                |i: int| (pack.doors@[i].tileset, pack.doors@[i].metatile),
            ),
    {
        let mut realms: Vec<Realm> = Vec::new();
        let mut i: usize = 0;
        while i < pack.realms.len()
            invariant
                i <= pack.realms@.len(),
                coherent_realms(*pack),
                realms@.len() == i,
                forall|k: int|
                    0 <= k < i ==> (#[trigger] realms@[k]).wf() && expands(
                        realms@[k],
                        pack.realms@[k],
                        pack.layouts@,
                    ),
            decreases pack.realms.len() - i,
        {
            realms.push(Realm::from_data(&pack.realms[i], &pack.layouts));
            i += 1;
        }
        let mut pairs: Vec<(u16, u16)> = Vec::new();
        let mut p: usize = 0;
        while p < pack.pairs.len()
            invariant
                p <= pack.pairs@.len(),
                pairs@ == pack.pairs@.take(p as int),
            decreases pack.pairs.len() - p,
        {
            pairs.push(pack.pairs[p]);
            assert(pack.pairs@.take(p + 1) =~= pack.pairs@.take(p as int).push(
                pack.pairs@[p as int],
            ));
            p += 1;
        }
        assert(pairs@ =~= pack.pairs@);
        let mut behaviors: Vec<Vec<u8>> = Vec::new();
        let mut t: usize = 0;
        while t < pack.tilesets.len()
            invariant
                t <= pack.tilesets@.len(),
                behaviors@.len() == t,
                forall|i: int|
                    0 <= i < t ==> (#[trigger] behaviors@[i])@ == Seq::new(
                        pack.tilesets@[i].attributes@.len(),
                        |k: int| (pack.tilesets@[i].attributes@[k] % 256) as u8,
                    ),
            decreases pack.tilesets.len() - t,
        {
            let attributes = &pack.tilesets[t].attributes;
            let mut b: Vec<u8> = Vec::new();
            let mut k: usize = 0;
            while k < attributes.len()
                invariant
                    k <= attributes@.len(),
                    b@.len() == k,
                    forall|j: int| 0 <= j < k ==> b@[j] == (attributes@[j] % 256) as u8,
                decreases attributes.len() - k,
            {
                b.push((attributes[k] % 256) as u8);
                k += 1;
            }
            assert(b@ =~= Seq::new(
                pack.tilesets@[t as int].attributes@.len(),
                |k: int| (pack.tilesets@[t as int].attributes@[k] % 256) as u8,
            ));
            behaviors.push(b);
            t += 1;
        }
        let mut doors: Vec<(u16, u16)> = Vec::new();
        let mut d: usize = 0;
        while d < pack.doors.len()
            invariant
                d <= pack.doors@.len(),
                doors@.len() == d,
                forall|i: int|
                    0 <= i < d ==> #[trigger] doors@[i] == (
                        pack.doors@[i].tileset,
                        pack.doors@[i].metatile,
                    ),
            decreases pack.doors.len() - d,
        {
            doors.push((pack.doors[d].tileset, pack.doors[d].metatile));
            d += 1;
        }
        assert(doors@ =~= Seq::new(
            pack.doors@.len(),
            |i: int| (pack.doors@[i].tileset, pack.doors@[i].metatile),
        ));
        RealmGraph {
            realms,
            pairs,
            behaviors,
            surfable: pack.surfable,
            warp_dir: pack.warp_dir,
            doors,
        }
    }

    /// The metatile behavior of a cell.
    pub fn behavior(&self, cell: Cell) -> (b: u8)
        ensures
            b == self.behavior_of(cell),
    {
        if cell.pair as usize >= self.pairs.len() {
            return 0;
        }
        let (prim, sec): (u16, u16) = self.pairs[cell.pair as usize];
        let (ts, local): (usize, usize) = if cell.metatile < 512 {
            (prim as usize, cell.metatile as usize)
        } else {
            (sec as usize, (cell.metatile - 512) as usize)
        };
        if ts < self.behaviors.len() && local < self.behaviors[ts].len() {
            self.behaviors[ts][local]
        } else {
            0
        }
    }

    /// Is this cell surfable water?
    pub fn surfable(&self, cell: Cell) -> (r: bool)
        ensures
            r == self.is_surfable(cell),
    {
        let b: u8 = self.behavior(cell);
        self.surfable[(b / 8) as usize] / bit_weight(b % 8) % 2 == 1
    }

    /// Arrow-warp direction of the tile's behavior (None = step-on warp).
    pub fn arrow_dir_at(&self, realm: RealmId, x: i32, y: i32) -> (r: Option<u8>)
        requires
            self.wf(),
            realm < self.realms@.len(),
        ensures
            r == self.arrow_on(realm as int, x as int, y as int),
    {
        match self.realm(realm).cell(x, y) {
            None => None,
            Some(c) => {
                let d: u8 = self.warp_dir[self.behavior(c) as usize];
                if d == 0 {
                    None
                } else {
                    Some(d)
                }
            },
        }
    }

    pub fn surfable_at(&self, realm: RealmId, x: i32, y: i32) -> (r: bool)
        requires
            self.wf(),
            realm < self.realms@.len(),
        ensures
            r == self.surfable_on(realm as int, x as int, y as int),
    {
        match self.realm(realm).cell(x, y) {
            None => false,
            Some(c) => self.surfable(c),
        }
    }

    /// The animated door at a cell, if any (index into the pack's doors).
    pub fn door_at(&self, realm: RealmId, x: i32, y: i32) -> (r: Option<u16>)
        requires
            self.wf(),
            realm < self.realms@.len(),
        ensures
            r == self.door_on(realm as int, x as int, y as int),
    {
        let cell = match self.realm(realm).cell(x, y) {
            None => return None,
            Some(c) => c,
        };
        if cell.pair as usize >= self.pairs.len() {
            return None;
        }
        let (prim, sec): (u16, u16) = self.pairs[cell.pair as usize];
        let ts: u16 = if cell.metatile < 512 { prim } else { sec };
        let ghost key = (ts, cell.metatile);
        let mut n: usize = self.doors.len();
        while n > 0
            invariant
                n <= self.doors@.len(),
                key == (ts, cell.metatile),
                self.door_on(realm as int, x as int, y as int) == last_door(
                    self.doors@,
                    key,
                    n as int,
                ),
            decreases n,
        {
            let (a, b): (u16, u16) = self.doors[n - 1];
            if a == ts && b == cell.metatile {
                return Some(((n - 1) % 65536) as u16);
            }
            n -= 1;
        }
        None
    }

    /// Small hand-built world: an overworld realm of two adjacent maps, a
    /// door warp at (5, 5) into a house realm with an exit mat at (4, 7), and
    /// a solid boulder at (20, 10).
    pub fn synthetic() -> (g: RealmGraph)
        ensures
            g.wf(),
            g.navigable(),
            g.realms@.len() == 2,
            g.realms@[0].width == 60,
            g.realms@[0].height == 40,
            forall|x: int, y: int|
                0 <= x < 60 && 0 <= y < 40 ==> #[trigger] g.realms@[0].cell_at(x, y) == Some(
                    plain(x == 20 && y == 10),
                ),
            g.realms@[0].warps@ == seq![
                Warp { x: 5i32, y: 5i32, to_realm: 1u16, to_x: 4i32, to_y: 6i32 },
            ],
            g.realms@[0].maps@.len() == 2,
            shaped(g.realms@[0].maps@[0], "SYNTH_WEST"@, "MUS_TEST_W"@, 0, 30, 40),
            shaped(g.realms@[0].maps@[1], "SYNTH_EAST"@, "MUS_TEST_E"@, 30, 30, 40),
            g.realms@[1].width == 9,
            g.realms@[1].height == 8,
            forall|x: int, y: int|
                0 <= x < 9 && 0 <= y < 8 ==> #[trigger] g.realms@[1].cell_at(x, y) == Some(
                    plain(false),
                ),
            g.realms@[1].warps@ == seq![
                Warp { x: 4i32, y: 7i32, to_realm: 0u16, to_x: 5i32, to_y: 6i32 },
            ],
            g.realms@[1].maps@.len() == 1,
            shaped(g.realms@[1].maps@[0], "SYNTH_HOUSE"@, "MUS_TEST_W"@, 0, 9, 8),
            g.doors@.len() == 0,
            g.pairs@ == seq![(0u16, 0u16)],
            forall|i: int| 0 <= i < 32 ==> g.surfable@[i] == 0,
            forall|i: int| 0 <= i < 256 ==> g.warp_dir@[i] == 0,
    {
        let mut maps: Vec<MapInfo> = Vec::new();
        maps.push(map_info("SYNTH_WEST", "MUS_TEST_W", 0, 30, 40));
        maps.push(map_info("SYNTH_EAST", "MUS_TEST_E", 30, 30, 40));
        let mut warps: Vec<Warp> = Vec::new();
        warps.push(Warp { x: 5, y: 5, to_realm: 1, to_x: 4, to_y: 6 });
        let overworld = plain_realm(60, 40, maps, warps, Some((20, 10)));
        let mut house_maps: Vec<MapInfo> = Vec::new();
        house_maps.push(map_info("SYNTH_HOUSE", "MUS_TEST_W", 0, 9, 8));
        let mut house_warps: Vec<Warp> = Vec::new();
        house_warps.push(Warp { x: 4, y: 7, to_realm: OVERWORLD, to_x: 5, to_y: 6 });
        let house = plain_realm(9, 8, house_maps, house_warps, None);
        let mut realms: Vec<Realm> = Vec::new();
        realms.push(overworld);
        realms.push(house);
        let mut pairs: Vec<(u16, u16)> = Vec::new();
        pairs.push((0, 0));
        let mut behaviors: Vec<Vec<u8>> = Vec::new();
        behaviors.push(vec![0u8; 1024]);
        let g = RealmGraph {
            realms,
            pairs,
            behaviors,
            surfable: [0u8; 32],
            warp_dir: [0u8; 256],
            doors: Vec::new(),
        };
        assert(g.realms@[0].warps@ =~= seq![
            Warp { x: 5i32, y: 5i32, to_realm: 1u16, to_x: 4i32, to_y: 6i32 },
        ]);
        assert(g.realms@[1].warps@ =~= seq![
            Warp { x: 4i32, y: 7i32, to_realm: 0u16, to_x: 5i32, to_y: 6i32 },
        ]);
        assert(g.pairs@ =~= seq![(0u16, 0u16)]);
        g
    }
}

/// A cell of plain ground, solid or not.
pub open spec fn plain(solid: bool) -> Cell {
    Cell {
        pair: 0,
        metatile: 0,
        collision: if solid {
            1
        } else {
            0
        },
        elevation: 0,
    }
}

/// Whether a map has a name, music and a rectangle at the top of its realm.
pub open spec fn shaped(
    m: MapInfo,
    id: Seq<char>,
    music: Seq<char>,
    x: int,
    width: int,
    height: int,
) -> bool {
    &&& m.id@ == id
    &&& m.music@ == music
    &&& m.x == x
    &&& m.y == 0
    &&& m.width == width
    &&& m.height == height
}

fn map_info(id: &str, music: &str, x: i32, width: i32, height: i32) -> (m: MapInfo)
    ensures
        shaped(m, id@, music@, x as int, width as int, height as int),
{
    MapInfo { id: id.to_owned(), music: music.to_owned(), x, y: 0, width, height }
}

fn plain_realm(
    width: i32,
    height: i32,
    maps: Vec<MapInfo>,
    warps: Vec<Warp>,
    solid: Option<(i32, i32)>,
) -> (r: Realm)
    requires
        0 < width <= 100,
        0 < height <= 100,
        forall|i: int|
            0 <= i < maps@.len() ==> i32::MIN <= (#[trigger] maps@[i]).x + maps@[i].width
                <= i32::MAX && i32::MIN <= maps@[i].y + maps@[i].height <= i32::MAX,
    ensures
        r.wf(),
        r.width == width,
        r.height == height,
        r.maps == maps,
        r.warps == warps,
        forall|x: int, y: int|
            0 <= x < width && 0 <= y < height ==> #[trigger] r.cell_at(x, y) == Some(
                plain(solid matches Some(s) && s.0 == x && s.1 == y),
            ),
{
    assert(0 <= width * height <= 10000) by (nonlinear_arith)
        requires
            0 < width <= 100,
            0 < height <= 100,
    ;
    let n: i32 = width * height;
    let mut cells: Vec<Option<Cell>> = Vec::new();
    let mut k: i32 = 0;
    while k < n
        invariant
            0 <= k <= n,
            0 < width <= 100,
            cells@.len() == k,
            forall|j: int|
                0 <= j < k ==> #[trigger] cells@[j] == Some(
                    plain(
                        solid matches Some(s) && s.0 == j % (width as int) && s.1 == j / (
                        width as int),
                    ),
                ),
        decreases n - k,
    {
        let is_solid = match solid {
            Some((sx, sy)) => sx == k % width && sy == k / width,
            None => false,
        };
        cells.push(
            Some(
                Cell {
                    pair: 0,
                    metatile: 0,
                    collision: if is_solid { 1 } else { 0 },
                    elevation: 0,
                },
            ),
        );
        k += 1;
    }
    let r = Realm { width, height, maps, warps, cells };
    assert forall|x: int, y: int| 0 <= x < width && 0 <= y < height implies #[trigger] r.cell_at(
        x,
        y,
    ) == Some(plain(solid matches Some(s) && s.0 == x && s.1 == y)) by {
        lemma_place(x, y, width as int, height as int);
        lemma_row(y, x, width as int);
    }
    r
}

/// The elevations of a realm have four bits.
pub proof fn lemma_elevations(r: Realm)
    requires
        r.wf(),
    ensures
        forall|x: int, y: int|
            (#[trigger] r.cell_at(x, y)) matches Some(c) ==> c.elevation < 16,
{
    assert forall|x: int, y: int|
        (#[trigger] r.cell_at(x, y)) matches Some(c) ==> c.elevation < 16 by {
        if r.inside(x, y) {
            lemma_place(x, y, r.width as int, r.height as int);
        }
    }
}

/// Whether a warp leads to a realm, and to a tile that has neighbours.
pub open spec fn leads_somewhere(w: Warp, realms: int) -> bool {
    &&& w.to_realm < realms
    &&& has_neighbours(w.to_x)
    &&& has_neighbours(w.to_y)
}

/// A coordinate that one step either way does not take out of its range.
pub open spec fn has_neighbours(v: i32) -> bool {
    i32::MIN < v < i32::MAX
}

} // verus!
