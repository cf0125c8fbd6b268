//! Whether a pack holds together: what has to be so before it can be baked and
//! expanded.

use vstd::prelude::*;
use crate::game::bake;
use crate::game::data::{LayoutData, MapData, RealmData, WorldPack};

verus! {

/// Whether a world can be made of a pack: its realms can be expanded, its
/// graphics can be baked, and its start lies in a realm.
pub open spec fn holds_together(pack: WorldPack) -> bool {
    &&& crate::game::map::coherent_realms(pack)
    &&& bake::bakeable(pack)
    &&& pack.start.realm < pack.realms@.len()
}

/// Whether a cell of a map has a place in its realm's grid.
pub open spec fn cell_placed(m: MapData, l: LayoutData, width: int, n: int, k: int) -> bool {
    let w = l.width as int;
    &&& 0 <= crate::game::map::grid_place(m, l, width, k) < n
    &&& i32::MIN <= (m.y + k / w) * width <= i32::MAX
    &&& i32::MIN <= (m.y + k / w) * width + m.x <= i32::MAX
}

proof fn lemma_product(a: int, b: int)
    requires
        0 <= a <= u32::MAX,
        0 <= b <= u32::MAX,
    ensures
        0 <= a * b <= u64::MAX,
{
    assert(0 <= a * b <= 0xffff_ffff * 0xffff_ffff) by (nonlinear_arith)
        requires
            0 <= a <= 0xffff_ffff,
            0 <= b <= 0xffff_ffff,
    ;
}

fn map_placed(m: &MapData, layouts: &Vec<LayoutData>, width: u32, n: u64) -> (b: bool)
    requires
        width < i32::MAX,
        n <= i32::MAX,
    ensures
        b == crate::game::map::placed(*m, layouts@, width as int, n as int),
{
    if m.layout as usize >= layouts.len() {
        return false;
    }
    let l = &layouts[m.layout as usize];
    if l.width > i32::MAX as u32 || l.height > i32::MAX as u32 {
        return false;
    }
    proof {
        lemma_product(l.width as int, l.height as int);
    }
    let area: u64 = l.width as u64 * l.height as u64;
    if area > i32::MAX as u64 || area > l.blockdata.len() as u64 {
        return false;
    }
    if m.x as i64 + l.width as i64 > i32::MAX as i64 || m.y as i64 + l.height as i64
        > i32::MAX as i64 {
        return false;
    }
    let mut k: u64 = 0;
    while k < area
        invariant
            k <= area,
            area <= i32::MAX,
            area == crate::game::map::area(*l),
            area <= l.blockdata@.len(),
            l.width <= i32::MAX,
            l.height <= i32::MAX,
            m.x + l.width <= i32::MAX,
            m.y + l.height <= i32::MAX,
            width < i32::MAX,
            n <= i32::MAX,
            m.layout < layouts@.len(),
            *l == layouts@[m.layout as int],
            forall|j: int|
                #![trigger crate::game::map::grid_place(*m, *l, width as int, j)]
                0 <= j < k ==> cell_placed(*m, *l, width as int, n as int, j),
        decreases area - k,
    {
        let w: u64 = l.width as u64;
        assert(w > 0) by (nonlinear_arith)
            requires
                0 < l.width * l.height,
                w == l.width,
                0 <= l.height,
        ;
        let row: i64 = m.y as i64 + (k / w) as i64;
        proof {
            let (kk, ww) = (k as int, w as int);
            assert(0 <= kk / ww <= kk) by (nonlinear_arith)
                requires
                    kk >= 0,
                    ww > 0,
            ;
            assert(0 <= kk % ww < ww) by (nonlinear_arith)
                requires
                    ww > 0,
            ;
            assert(kk / ww < l.height) by (nonlinear_arith)
                requires
                    kk < ww * l.height,
                    ww > 0,
            ;
            let wide = width as int;
            assert(-0x8000_0000 * 0x8000_0000 <= row * wide <= 0x8000_0000 * 0x8000_0000)
                by (nonlinear_arith)
                requires
                    -0x8000_0000 <= row <= 0x8000_0000,
                    0 <= wide <= 0x7fff_ffff,
            ;
        }
        let down: i64 = row * width as i64;
        let from: i64 = down + m.x as i64;
        let at: i64 = from + (k % w) as i64;
        assert(at == crate::game::map::grid_place(*m, *l, width as int, k as int));
        if at < 0 || at >= n as i64 || down < i32::MIN as i64 || down > i32::MAX as i64 || from
            < i32::MIN as i64 || from > i32::MAX as i64 {
            return false;
        }
        k += 1;
    }
    true
}

fn realm_placed(rd: &RealmData, layouts: &Vec<LayoutData>) -> (b: bool)
    ensures
        b == crate::game::map::coherent_realm(*rd, layouts@),
{
    if rd.width >= i32::MAX as u32 || rd.height >= i32::MAX as u32 {
        return false;
    }
    proof {
        lemma_product(rd.width as int, rd.height as int);
    }
    let n: u64 = rd.width as u64 * rd.height as u64;
    if n > i32::MAX as u64 {
        return false;
    }
    let mut i: usize = 0;
    while i < rd.maps.len()
        invariant
            i <= rd.maps@.len(),
            rd.width < i32::MAX,
            rd.height < i32::MAX,
            n == rd.width * rd.height,
            n <= i32::MAX,
            forall|j: int|
                0 <= j < i ==> crate::game::map::placed(
                    #[trigger] rd.maps@[j],
                    layouts@,
                    rd.width as int,
                    n as int,
                ),
        decreases rd.maps.len() - i,
    {
        if !map_placed(&rd.maps[i], layouts, rd.width, n) {
            return false;
        }
        i += 1;
    }
    true
}

proof fn lemma_slots_grow(pack: WorldPack, a: int, b: int)
    requires
        0 <= a <= b,
    ensures
        0 <= bake::slots(pack, a) <= bake::slots(pack, b),
    decreases b,
{
    if a < b {
        lemma_slots_grow(pack, a, b - 1);
    } else if a > 0 {
        lemma_slots_grow(pack, a - 1, b - 1);
    }
}

fn can_bake(pack: &WorldPack) -> (b: bool)
    ensures
        b == bake::bakeable(*pack),
{
    let mut total: u64 = 0;
    let mut i: usize = 0;
    while i < pack.pairs.len()
        invariant
            i <= pack.pairs@.len(),
            total == bake::slots(*pack, i as int),
            2 * total < u32::MAX,
            forall|j: int|
                0 <= j < i ==> (#[trigger] pack.pairs@[j]).0 < pack.tilesets@.len()
                    && pack.pairs@[j].1 < pack.tilesets@.len() && bake::metatile_count(
                    pack.tilesets@[pack.pairs@[j].1 as int],
                ) <= u16::MAX,
        decreases pack.pairs.len() - i,
    {
        let (p, s): (u16, u16) = pack.pairs[i];
        if p as usize >= pack.tilesets.len() || s as usize >= pack.tilesets.len() {
            assert(pack.pairs@[i as int] == (p, s));
            return false;
        }
        let count: usize = 512 + pack.tilesets[s as usize].metatiles.len() / 8 % 65536;
        if count > 65535 {
            assert(pack.pairs@[i as int] == (p, s));
            return false;
        }
        total += count as u64;
        proof {
            lemma_slots_grow(*pack, i + 1, pack.pairs@.len() as int);
        }
        if 2 * total >= u32::MAX as u64 {
            return false;
        }
        i += 1;
    }
    true
}

/// Whether a world can be made of a pack.
pub fn coherent(pack: &WorldPack) -> (b: bool)
    ensures
        b == holds_together(*pack),
{
    if pack.start.realm as usize >= pack.realms.len() || !can_bake(pack) {
        return false;
    }
    let mut i: usize = 0;
    while i < pack.realms.len()
        invariant
            i <= pack.realms@.len(),
            bake::bakeable(*pack),
            pack.start.realm < pack.realms@.len(),
            forall|j: int|
                0 <= j < i ==> crate::game::map::coherent_realm(
                    #[trigger] pack.realms@[j],
                    pack.layouts@,
                ),
        decreases pack.realms.len() - i,
    {
        if !realm_placed(&pack.realms[i], &pack.layouts) {
            return false;
        }
        i += 1;
    }
    true
}

} // verus!
