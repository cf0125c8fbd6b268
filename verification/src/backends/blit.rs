//! What a frame that is drawn without a screen needs: the mixing of pixels,
//! and a door to look at.

use vstd::prelude::*;
use crate::game::map::{RealmGraph, RealmId};
use crate::types::Rgba;

verus! {

/// How much a tinted pixel covers.
pub open spec fn coverage(src: Seq<u8>, tint: Rgba) -> int {
    src[3] * tint.a / 255
}

/// A channel of a tinted pixel over another one.
pub open spec fn over(src: int, tint: int, dst: int, cover: int) -> int {
    src * tint / 255 * cover / 255 + dst * (255 - cover) / 255
}

/// A pixel drawn over another one: what covers nothing leaves it alone, and
/// what covers anything leaves it solid.
pub open spec fn mixed(dst: Seq<u8>, src: Seq<u8>, tint: Rgba) -> Seq<u8> {
    let a = coverage(src, tint);
    if a == 0 {
        dst
    } else {
        seq![
            over(src[0] as int, tint.r as int, dst[0] as int, a) as u8,
            over(src[1] as int, tint.g as int, dst[1] as int, a) as u8,
            over(src[2] as int, tint.b as int, dst[2] as int, a) as u8,
            255u8,
        ]
    }
}

proof fn lemma_product(a: int, b: int)
    requires
        0 <= a <= 255,
        0 <= b <= 255,
    ensures
        0 <= a * b <= 255 * b,
{
    assert(0 <= a * b <= 255 * b) by (nonlinear_arith)
        requires
            0 <= a <= 255,
            0 <= b <= 255,
    ;
}

fn channel(src: u8, tint: u8, dst: u8, cover: u32) -> (v: u8)
    requires
        cover <= 255,
    ensures
        v == over(src as int, tint as int, dst as int, cover as int),
{
    proof {
        lemma_product(src as int, tint as int);
        let s = src * tint / 255;
        assert(0 <= s <= 255);
        lemma_product(s, cover as int);
        lemma_product(dst as int, 255 - cover);
    }
    let s: u32 = src as u32 * tint as u32 / 255;
    (s * cover / 255 + dst as u32 * (255 - cover) / 255) as u8
}

/// A pixel drawn over another one.
pub fn mix(dst: [u8; 4], src: [u8; 4], tint: Rgba) -> (p: [u8; 4])
    ensures
        p@ == mixed(dst@, src@, tint),
{
    proof {
        lemma_product(src@[3] as int, tint.a as int);
    }
    let a: u32 = src[3] as u32 * tint.a as u32 / 255;
    if a == 0 {
        return dst;
    }
    let p = [
        channel(src[0], tint.r, dst[0], a),
        channel(src[1], tint.g, dst[1], a),
        channel(src[2], tint.b, dst[2], a),
        255u8,
    ];
    assert(p@ =~= mixed(dst@, src@, tint));
    p
}

// ---- doors ---------------------------------------------------------------

/// Whether an animated door on a tile leads somewhere.
pub open spec fn is_gate(g: RealmGraph, realm: int, x: int, y: int) -> bool {
    g.door_on(realm, x, y) is Some && g.realms@[realm].warp_on(x, y) is Some
}

/// Whether a tile comes before another one, row by row.
pub open spec fn sooner(x: int, y: int, ax: int, ay: int) -> bool {
    y < ay || (y == ay && x < ax)
}

/// The first animated door of a realm, row by row, that leads somewhere.
pub fn first_gate(g: &RealmGraph, realm: RealmId) -> (r: Option<(i32, i32)>)
    requires
        g.wf(),
        realm < g.realms@.len(),
    ensures
        ({
            let w = g.realms@[realm as int].width as int;
            let h = g.realms@[realm as int].height as int;
            match r {
                Some((x, y)) => {
                    &&& 0 <= x < w && 0 <= y < h
                    &&& is_gate(*g, realm as int, x as int, y as int)
                    &&& forall|i: int, j: int|
                        0 <= i < w && 0 <= j < h && sooner(i, j, x as int, y as int)
                            ==> !#[trigger] is_gate(*g, realm as int, i, j)
                },
                None => forall|i: int, j: int|
                    0 <= i < w && 0 <= j < h ==> !#[trigger] is_gate(*g, realm as int, i, j),
            }
        }),
{
    let w: i32 = g.realm(realm).width;
    let h: i32 = g.realm(realm).height;
    let mut y: i32 = 0;
    while y < h
        invariant
            0 <= y,
            y <= h || h < 0,
            g.wf(),
            realm < g.realms@.len(),
            w == g.realms@[realm as int].width,
            h == g.realms@[realm as int].height,
            forall|i: int, j: int|
                0 <= i < w && 0 <= j < y ==> !#[trigger] is_gate(*g, realm as int, i, j),
        decreases h - y,
    {
        let mut x: i32 = 0;
        while x < w
            invariant
                0 <= x,
                x <= w || w < 0,
                0 <= y < h,
                g.wf(),
                realm < g.realms@.len(),
                w == g.realms@[realm as int].width,
                h == g.realms@[realm as int].height,
                forall|i: int, j: int|
                    0 <= i < w && 0 <= j < h && sooner(i, j, x as int, y as int)
                        ==> !#[trigger] is_gate(*g, realm as int, i, j),
            decreases w - x,
        {
            let gate = g.door_at(realm, x, y).is_some() && g.realm(realm).warp_at(x, y).is_some();
            assert(gate == is_gate(*g, realm as int, x as int, y as int));
            if gate {
                return Some((x, y));
            }
            x += 1;
        }
        y += 1;
    }
    None
}

} // verus!
