//! The integer tables of the programmable sound generator: square periods,
//! noise registers, shift-register sequences and envelope levels.

use vstd::prelude::*;

verus! {

/// Square frequency register offsets for the twelve keys of the lowest octave.
pub const CGB_FREQ: [i32; 12] = [
    -2004,
    -1891,
    -1785,
    -1685,
    -1591,
    -1501,
    -1417,
    -1337,
    -1262,
    -1192,
    -1125,
    -1062,
];

pub open spec fn held(x: int, low: int, top: int) -> int {
    if x < low {
        low
    } else if x > top {
        top
    } else {
        x
    }
}

/// Two to the `n`.
pub open spec fn octaves(n: int) -> int
    decreases n,
{
    if n <= 0 {
        1
    } else {
        2 * octaves(n - 1)
    }
}

/// The period of a key on the square channel: the offset of its note in the
/// lowest octave, halved once for each octave above it and rounded up. The
/// tone sounds at 131072 Hz over the period.
pub open spec fn period_of(key: int) -> int {
    let k = held(key, 36, 166) - 36;
    let d = octaves(k / 12);
    (d - 1 - CGB_FREQ[k % 12]) / d
}

/// The period of a key on the square channel.
pub fn square_period(key: i32) -> (p: i32)
    ensures
        p == period_of(key as int),
        1 <= p <= 2004,
{
    let c: i32 = if key < 36 {
        36
    } else if key > 166 {
        166
    } else {
        key
    };
    let k: i32 = c - 36;
    let octave: i32 = k / 12;
    let mut d: i32 = 1;
    let mut i: i32 = 0;
    while i < octave
        invariant
            0 <= i <= octave <= 10,
            d == octaves(i as int),
            i == 0 ==> d == 1,
            1 <= d,
            d <= 2 * 512,
            i <= 9 ==> d <= 512,
            i <= 8 ==> d <= 256,
            i <= 7 ==> d <= 128,
            i <= 6 ==> d <= 64,
            i <= 5 ==> d <= 32,
            i <= 4 ==> d <= 16,
            i <= 3 ==> d <= 8,
            i <= 2 ==> d <= 4,
            i <= 1 ==> d <= 2,
        decreases octave - i,
    {
        d = 2 * d;
        i += 1;
    }
    let f: i32 = CGB_FREQ[(k % 12) as usize];
    assert(-2004 <= f <= -1062);
    let n: i32 = d - 1 - f;
    assert(1 <= n / d <= 2004) by (nonlinear_arith)
        requires
            1 <= d <= 1024,
            n == d - 1 - f,
            -2004 <= f <= -1062,
    ;
    n / d
}

/// The noise register of key 21 + `i`.
pub open spec fn nr43_at(i: int) -> int {
    if i < 56 {
        16 * (i / 4) + 7 - i % 4
    } else {
        59 - i
    }
}

/// The noise registers of the keys 21..80.
pub fn noise_nr43() -> (t: [u8; 60])
    ensures
        forall|i: int| 0 <= i < 60 ==> #[trigger] t[i] == nr43_at(i),
{
    let mut t = [0u8; 60];
    let mut i: usize = 0;
    while i < 60
        invariant
            i <= 60,
            forall|k: int| 0 <= k < i ==> #[trigger] t[k] == nr43_at(k),
        decreases 60 - i,
    {
        t[i] = if i < 56 {
            (16 * (i / 4) + 7 - i % 4) as u8
        } else {
            (59 - i) as u8
        };
        i += 1;
    }
    t
}

/// The place of a key in the noise registers.
pub fn noise_index(key: u8) -> (i: usize)
    ensures
        i == held(key - 21, 0, 59),
        i < 60,
{
    if key < 21 {
        0
    } else if key > 80 {
        59
    } else {
        (key - 21) as usize
    }
}

/// A shift register's next state: it moves down one bit, and the exclusive
/// or of its two lowest bits comes in at the top, which weighs `top`.
pub open spec fn shifted(l: int, top: int) -> int {
    l / 2 + if l % 2 != l / 2 % 2 {
        top
    } else {
        0
    }
}

/// The register after `n` shifts, from all ones.
pub open spec fn register(top: int, n: int) -> int
    decreases n,
{
    if n <= 0 {
        2 * top - 1
    } else {
        shifted(register(top, n - 1), top)
    }
}

/// The register never runs dry and never outgrows its bits.
pub proof fn register_stays_live(top: int, n: int)
    requires
        1 <= top,
    ensures
        0 < register(top, n) < 2 * top,
    decreases n,
{
    if n > 0 {
        register_stays_live(top, n - 1);
    }
}

fn register_bits(top: u16, n: usize) -> (out: Vec<bool>)
    requires
        1 <= top <= 0x4000,
    ensures
        out@.len() == n,
        forall|i: int| 0 <= i < n ==> #[trigger] out@[i] == (register(top as int, i + 1) % 2 == 1),
{
    let mut out: Vec<bool> = Vec::new();
    let mut l: u16 = 2 * top - 1;
    let mut i: usize = 0;
    while i < n
        invariant
            i <= n,
            1 <= top <= 0x4000,
            l == register(top as int, i as int),
            l < 2 * top,
            out@.len() == i,
            forall|k: int|
                0 <= k < i ==> #[trigger] out@[k] == (register(top as int, k + 1) % 2 == 1),
        decreases n - i,
    {
        l = l / 2 + if l % 2 != l / 2 % 2 { top } else { 0 };
        out.push(l % 2 == 1);
        i += 1;
    }
    out
}

/// The long noise sequence: whether each of its 32767 steps is high.
pub fn lfsr15() -> (out: Vec<bool>)
    ensures
        out@.len() == 32767,
        forall|i: int| 0 <= i < 32767 ==> #[trigger] out@[i] == (register(0x4000, i + 1) % 2 == 1),
{
    register_bits(0x4000, 32767)
}

/// The short noise sequence: whether each of its 127 steps is high.
pub fn lfsr7() -> (out: Vec<bool>)
    ensures
        out@.len() == 127,
        forall|i: int| 0 <= i < 127 ==> #[trigger] out@[i] == (register(0x40, i + 1) % 2 == 1),
{
    register_bits(0x40, 127)
}

/// The level at which a PSG note sustains.
pub fn psg_sustain(goal: i32, s: u8) -> (level: i32)
    requires
        0 <= goal <= 15,
    ensures
        level == if goal > 0 {
            (goal * s + 15) / 16
        } else {
            0
        },
        0 <= level <= 240,
{
    if goal > 0 {
        assert(0 <= goal * s <= 3825) by (nonlinear_arith)
            requires
                0 <= goal <= 15,
                0 <= s <= 255,
        ;
        (goal * s as i32 + 15) / 16
    } else {
        0
    }
}

/// Which sides of a PSG note sound, left then right: a side falls silent
/// where the other is at least twice as loud.
pub fn psg_sides(l: i32, r: i32) -> (on: (bool, bool))
    requires
        0 <= l <= 255,
        0 <= r <= 255,
    ensures
        on.0 == !(r >= l && r / 2 >= l),
        on.1 == !(l > r && l / 2 >= r),
        l > 0 || r > 0 ==> on.0 || on.1,
{
    if r >= l && r / 2 >= l {
        (false, true)
    } else if l > r && l / 2 >= r {
        (true, false)
    } else {
        (true, true)
    }
}

/// The place in a ring of `n` that lies `back` places behind `at`.
pub fn ring_back(at: usize, n: usize, back: usize) -> (i: usize)
    requires
        at < n,
        back <= n,
    ensures
        i == (at + n - back) % (n as int),
        i < n,
{
    let ghost m = n as int;
    if at >= back {
        proof {
            vstd::arithmetic::div_mod::lemma_mod_add_multiples_vanish(at - back, m);
            vstd::arithmetic::div_mod::lemma_small_mod((at - back) as nat, n as nat);
            assert(m + (at - back) == at + n - back);
        }
        at - back
    } else {
        proof {
            vstd::arithmetic::div_mod::lemma_small_mod((at + n - back) as nat, n as nat);
        }
        n - (back - at)
    }
}

} // verus!
