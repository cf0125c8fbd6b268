//! Single-precision numbers by their bits: a sign, eight bits of exponent and
//! 23 bits of fraction.

use vstd::prelude::*;

verus! {

/// Two to the `n`.
pub open spec fn two_to(n: int) -> int
    decreases n,
{
    if n <= 0 {
        1
    } else {
        2 * two_to(n - 1)
    }
}

/// The place of the highest set bit of a positive number.
pub open spec fn top_bit(n: int) -> int
    decreases n,
{
    if n <= 1 {
        0
    } else {
        1 + top_bit(n / 2)
    }
}

/// `n` over `d`, to the nearest whole number, to the even one of two.
pub open spec fn nearest(n: int, d: int) -> int {
    let q = n / d;
    let r = n % d;
    if 2 * r > d || (2 * r == d && q % 2 == 1) {
        q + 1
    } else {
        q
    }
}

/// The bits of the single nearest to a whole number: its 24 highest bits,
/// rounded, behind the place of the highest.
pub open spec fn single_of(n: u32) -> int {
    if n == 0 {
        0
    } else {
        let e = top_bit(n as int);
        let m = if e <= 23 {
            n * two_to(23 - e)
        } else {
            nearest(n as int, two_to(e - 23))
        };
        (e + 126) * 0x80_0000 + m
    }
}

/// The bits of the single nearest to a whole number, over 1024.
pub open spec fn single_of_1024ths(n: u32) -> int {
    if n == 0 {
        0
    } else {
        single_of(n) - 10 * 0x80_0000
    }
}

proof fn lemma_top_bit(n: int)
    requires
        n >= 1,
    ensures
        0 <= top_bit(n),
        two_to(top_bit(n)) <= n < 2 * two_to(top_bit(n)),
    decreases n,
{
    if n > 1 {
        lemma_top_bit(n / 2);
    }
}

proof fn lemma_two_to_32(e: int)
    requires
        e >= 32,
    ensures
        two_to(e) >= 0x1_0000_0000,
    decreases e,
{
    if e > 32 {
        lemma_two_to_32(e - 1);
    } else {
        reveal_with_fuel(two_to, 33);
    }
}

proof fn lemma_two_to_sum(a: int, b: int)
    requires
        a >= 0,
        b >= 0,
    ensures
        two_to(a + b) == two_to(a) * two_to(b),
        two_to(a) >= 1,
        two_to(b) >= 1,
    decreases a,
{
    if a > 0 {
        lemma_two_to_sum(a - 1, b);
        assert(2 * (two_to(a - 1) * two_to(b)) == (2 * two_to(a - 1)) * two_to(b))
            by (nonlinear_arith);
    } else {
        lemma_two_to_pos(b);
        assert(two_to(0) * two_to(b) == two_to(b));
    }
}

proof fn lemma_two_to_pos(b: int)
    ensures
        two_to(b) >= 1,
    decreases b,
{
    if b > 0 {
        lemma_two_to_pos(b - 1);
    }
}

proof fn lemma_two_to_23()
    ensures
        two_to(23) == 0x80_0000,
        two_to(24) == 0x100_0000,
{
    reveal_with_fuel(two_to, 25);
}

/// The 24 bits of a positive number lie in their range.
proof fn lemma_mantissa(n: u32)
    requires
        n >= 1,
    ensures
        ({
            let e = top_bit(n as int);
            let m = if e <= 23 {
                n * two_to(23 - e)
            } else {
                nearest(n as int, two_to(e - 23))
            };
            &&& 0 <= e <= 31
            &&& 0x80_0000 <= m <= 0x100_0000
        }),
{
    let e = top_bit(n as int);
    let p = two_to(e);
    lemma_top_bit(n as int);
    lemma_two_to_23();
    if e >= 32 {
        lemma_two_to_32(e);
    }
    if e <= 23 {
        let d = two_to(23 - e);
        lemma_two_to_sum(e, 23 - e);
        assert(0x80_0000 <= n * d <= 0x100_0000) by (nonlinear_arith)
            requires
                p <= n < 2 * p,
                p * d == 0x80_0000,
                d >= 1,
        ;
    } else {
        let d = two_to(e - 23);
        lemma_two_to_sum(23, e - 23);
        let q = n as int / d;
        let r = n as int % d;
        assert(0x80_0000 <= q <= 0xff_ffff) by (nonlinear_arith)
            requires
                p <= n < 2 * p,
                p == 0x80_0000 * d,
                d >= 1,
                q == n as int / d,
        ;
    }
}

/// The bits of the single nearest to a whole number.
pub fn bits_of(n: u32) -> (b: u32)
    ensures
        b == single_of(n),
        n > 0 ==> b >= 126 * 0x80_0000 + 0x80_0000,
{
    if n == 0 {
        return 0;
    }
    proof {
        lemma_mantissa(n);
        lemma_top_bit(n as int);
        lemma_two_to_23();
    }
    let ghost top = top_bit(n as int);
    let mut e: u32 = 0;
    let mut k: u32 = n;
    let mut p: u64 = 1;
    while k > 1
        invariant
            k >= 1,
            top == top_bit(n as int),
            top <= 31,
            e + top_bit(k as int) == top,
            p == two_to(e as int),
            1 <= p <= n,
            k == n as int / p as int,
            e <= top,
        decreases k,
    {
        proof {
            lemma_top_bit(k as int / 2);
            let (a, q) = (n as int, p as int);
            vstd::arithmetic::div_mod::lemma_div_denominator(a, q, 2);
            assert(a / q / 2 == a / (q * 2));
            assert(q * 2 <= a) by (nonlinear_arith)
                requires
                    a / q >= 2,
                    q >= 1,
            ;
        }
        k = k / 2;
        e += 1;
        p = 2 * p;
    }
    assert(e == top);
    if e <= 23 {
        let mut m: u64 = n as u64;
        let mut i: u32 = e;
        assert(two_to(0) == 1);
        proof {
            lemma_two_to_pos(23 - e);
            let c = two_to(23 - e);
            assert(n <= n * c) by (nonlinear_arith)
                requires
                    c >= 1,
                    n >= 1,
            ;
        }
        while i < 23
            invariant
                e <= i <= 23,
                e == top,
                m == n * two_to(i - e),
                m <= 0x100_0000,
                n * two_to(23 - e) <= 0x100_0000,
                n >= 1,
            decreases 23 - i,
        {
            proof {
                lemma_two_to_sum(i + 1 - e, 22 - i);
                let (a, b, c) = (two_to(i + 1 - e), two_to(22 - i), two_to(23 - e));
                assert(n * a <= n * c) by (nonlinear_arith)
                    requires
                        c == a * b,
                        a >= 1,
                        b >= 1,
                        n >= 1,
                ;
                assert(n * (2 * two_to(i - e)) == 2 * (n * two_to(i - e))) by (nonlinear_arith);
            }
            m = 2 * m;
            i += 1;
        }
        (e + 126) * 0x80_0000 + m as u32
    } else {
        let mut d: u64 = 1;
        let mut i: u32 = 23;
        while i < e
            invariant
                23 <= i <= e,
                e <= 31,
                d == two_to(i - 23),
                1 <= d <= n,
                p == two_to(e as int),
                p <= n,
            decreases e - i,
        {
            proof {
                lemma_two_to_sum(i + 1 - 23, e - (i + 1 - 23));
                let (a, b) = (two_to(i + 1 - 23), two_to(e - (i + 1 - 23)));
                assert(a <= p) by (nonlinear_arith)
                    requires
                        p == a * b,
                        a >= 1,
                        b >= 1,
                ;
            }
            d = 2 * d;
            i += 1;
        }
        let q: u64 = n as u64 / d;
        let r: u64 = n as u64 % d;
        let m: u64 = if 2 * r > d || (2 * r == d && q % 2 == 1) { q + 1 } else { q };
        assert(m == nearest(n as int, two_to(e - 23)));
        (e + 126) * 0x80_0000 + m as u32
    }
}

/// The bits of the single nearest to a whole number, over 1024.
pub fn bits_of_1024ths(n: u32) -> (b: u32)
    ensures
        b == single_of_1024ths(n),
{
    let b: u32 = bits_of(n);
    if n == 0 {
        0
    } else {
        b - 10 * 0x80_0000
    }
}

// ---- distances -----------------------------------------------------------

/// The bits of 16.
pub const SIXTEEN: u32 = 0x4180_0000;

/// The bits of 8.
pub const EIGHT: u32 = 0x4100_0000;

/// The bits of 6.
pub const SIX: u32 = 0x40C0_0000;

/// The bits of 1.
pub const ONE: u32 = 0x3F80_0000;

/// Whether bits stand for a distance within a tile: more than none, at most
/// 16.
pub open spec fn is_distance(b: u32) -> bool {
    0 < b <= SIXTEEN
}

/// A number of at least 1 in units of two to the -23.
pub open spec fn fixed(b: u32) -> int {
    (0x80_0000 + b % 0x80_0000) * two_to(b / 0x80_0000 - 127)
}

/// A distance less a whole number of at least 1, rounded as a single is;
/// nothing where nothing is left.
pub open spec fn less(b: u32, n: int) -> Option<u32> {
    if b < ONE || fixed(b) <= n * 0x80_0000 {
        None
    } else {
        Some((single_of((fixed(b) - n * 0x80_0000) as u32) - 23 * 0x80_0000) as u32)
    }
}

proof fn lemma_fixed(b: u32)
    requires
        ONE <= b <= SIXTEEN,
    ensures
        0x80_0000 <= fixed(b) <= 0x800_0000,
        127 <= b / 0x80_0000 <= 131,
{
    let e = b / 0x80_0000 - 127;
    assert(0 <= e <= 4);
    assert(b / 0x80_0000 == 131 ==> b % 0x80_0000 == 0);
    reveal_with_fuel(two_to, 5);
    let m = 0x80_0000 + b % 0x80_0000;
    if e == 0 {
        assert(m * 1 == m) by (nonlinear_arith);
    } else if e == 1 {
        assert(m * 2 == 2 * m) by (nonlinear_arith);
    } else if e == 2 {
        assert(m * 4 == 4 * m) by (nonlinear_arith);
    } else if e == 3 {
        assert(m * 8 == 8 * m) by (nonlinear_arith);
    } else {
        assert(m * 16 == 16 * m) by (nonlinear_arith);
    }
}

proof fn lemma_single_small(v: u32)
    requires
        1 <= v <= 0x800_0000,
    ensures
        126 * 0x80_0000 + 0x80_0000 <= single_of(v) <= (27 + 126) * 0x80_0000 + 0x80_0000,
{
    lemma_mantissa(v);
    lemma_top_of_cap(v);
}

/// The largest distance is a power of two, so nothing rounds past it.
proof fn lemma_top_of_cap(v: u32)
    requires
        1 <= v <= 0x800_0000,
    ensures
        single_of(v) <= (27 + 126) * 0x80_0000 + 0x80_0000,
{
    let e = top_bit(v as int);
    lemma_mantissa(v);
    lemma_top_bit(v as int);
    lemma_two_to_23();
    if e >= 28 {
        lemma_two_to_sum(28, e - 28);
        reveal_with_fuel(two_to, 29);
        let (a, c) = (two_to(28), two_to(e - 28));
        assert(two_to(e) >= 0x1000_0000) by (nonlinear_arith)
            requires
                two_to(e) == a * c,
                a == 0x1000_0000,
                c >= 1,
        ;
    } else if e == 27 {
        reveal_with_fuel(two_to, 28);
        assert(v == 0x800_0000);
        assert(two_to(4) == 16);
        assert(nearest(0x800_0000, 16) == 0x80_0000);
    }
}

/// A distance less a whole number.
pub fn take_away(b: u32, n: u32) -> (r: Option<u32>)
    requires
        is_distance(b),
        1 <= n <= 16,
    ensures
        r == less(b, n as int),
        r matches Some(x) ==> is_distance(x),
{
    if b < ONE {
        return None;
    }
    proof {
        lemma_fixed(b);
    }
    let e: u32 = b / 0x80_0000;
    let mut v: u32 = 0x80_0000 + b % 0x80_0000;
    let ghost m = v as int;
    let mut i: u32 = 127;
    assert(m * two_to(0) == m);
    while i < e
        invariant
            127 <= i <= e <= 131,
            v == m * two_to(i - 127),
            0x80_0000 <= m <= 0xff_ffff,
            i == 127 ==> v <= 0xff_ffff,
            i == 128 ==> v <= 2 * 0xff_ffff,
            i == 129 ==> v <= 4 * 0xff_ffff,
            i == 130 ==> v <= 8 * 0xff_ffff,
            i == 131 ==> v <= 16 * 0xff_ffff,
        decreases e - i,
    {
        assert(m * (2 * two_to(i - 127)) == 2 * (m * two_to(i - 127))) by (nonlinear_arith);
        v = 2 * v;
        i += 1;
    }
    assert(v == fixed(b));
    let away: u32 = n * 0x80_0000;
    if v <= away {
        return None;
    }
    proof {
        lemma_single_small((v - away) as u32);
    }
    Some(bits_of(v - away) - 23 * 0x80_0000)
}

/// What is left of a distance is a distance.
pub proof fn lemma_less(b: u32, n: int)
    requires
        is_distance(b),
        1 <= n <= 16,
    ensures
        less(b, n) matches Some(x) ==> is_distance(x),
{
    if b >= ONE {
        lemma_fixed(b);
        if fixed(b) > n * 0x80_0000 {
            lemma_single_small((fixed(b) - n * 0x80_0000) as u32);
        }
    }
}

/// A whole distance of at most 16: its bits and its value.
pub proof fn lemma_whole(n: int)
    requires
        1 <= n <= 16,
    ensures
        is_distance(single_of(n as u32) as u32),
        ONE <= single_of(n as u32) <= SIXTEEN,
        fixed(single_of(n as u32) as u32) == n * 0x80_0000,
{
    let b = single_of(n as u32);
    assert(two_to(23) == 0x80_0000 && two_to(22) == 0x40_0000 && two_to(21) == 0x20_0000 && two_to(
        20,
    ) == 0x10_0000 && two_to(19) == 0x8_0000) by {
        reveal_with_fuel(two_to, 24);
    }
    assert(two_to(0) == 1 && two_to(1) == 2 && two_to(2) == 4 && two_to(3) == 8 && two_to(4)
        == 16) by {
        reveal_with_fuel(two_to, 5);
    }
    reveal_with_fuel(top_bit, 5);
    if n == 1 {
        assert(b == 127 * 0x80_0000);
    } else if n <= 3 {
        assert(top_bit(n) == 1);
        assert(n * two_to(22) == 0x40_0000 * n);
        assert(b / 0x80_0000 == 128);
        assert(0x80_0000 + b % 0x80_0000 == 0x40_0000 * n);
    } else if n <= 7 {
        assert(top_bit(n) == 2);
        assert(n * two_to(21) == 0x20_0000 * n);
        assert(b / 0x80_0000 == 129);
        assert(0x80_0000 + b % 0x80_0000 == 0x20_0000 * n);
    } else if n <= 15 {
        assert(top_bit(n) == 3);
        assert(n * two_to(20) == 0x10_0000 * n);
        assert(b / 0x80_0000 == 130);
        assert(0x80_0000 + b % 0x80_0000 == 0x10_0000 * n);
    } else {
        assert(top_bit(n) == 4);
        assert(b == 131 * 0x80_0000);
    }
}

/// Whole distances subtract as whole numbers do.
pub proof fn whole_distances_subtract(n: int, s: int)
    requires
        1 <= n <= 16,
        1 <= s,
    ensures
        less(single_of(n as u32) as u32, s) == if n <= s {
            None::<u32>
        } else {
            Some(single_of((n - s) as u32) as u32)
        },
{
    lemma_whole(n);
    if n > s {
        let k = n - s;
        lemma_whole(k);
        assert(n * 0x80_0000 - s * 0x80_0000 == k * 0x80_0000);
        let v = (k * 0x80_0000) as u32;
        lemma_top_shift(k, 23);
        let e = top_bit(k);
        assert(two_to(23) == 0x80_0000) by {
            reveal_with_fuel(two_to, 24);
        }
        assert(top_bit(v as int) == e + 23);
        assert(0 <= e <= 4) by {
            reveal_with_fuel(top_bit, 6);
        }
        lemma_two_to_sum(e, 23 - e);
        let (p, q) = (two_to(e), two_to(23 - e));
        // v over 2^e is k * 2^(23 - e), without a remainder
        assert(k * 0x80_0000 == p * (k * q)) by (nonlinear_arith)
            requires
                p * q == 0x80_0000,
        ;
        vstd::arithmetic::div_mod::lemma_fundamental_div_mod_converse(v as int, p, k * q, 0);
        if e == 0 {
            assert(single_of(v) == (23 + 126) * 0x80_0000 + v * two_to(0));
        } else {
            assert(nearest(v as int, p) == k * q);
        }
    } else {
        assert(n * 0x80_0000 <= s * 0x80_0000);
    }
}

proof fn lemma_top_shift(k: int, n: int)
    requires
        k >= 1,
        n >= 0,
    ensures
        top_bit(k * two_to(n)) == top_bit(k) + n,
        k * two_to(n) >= 1,
    decreases n,
{
    lemma_two_to_pos(n);
    let p = two_to(n);
    assert(k * p >= 1) by (nonlinear_arith)
        requires
            k >= 1,
            p >= 1,
    ;
    if n > 0 {
        lemma_top_shift(k, n - 1);
        let q = two_to(n - 1);
        assert(k * p == 2 * (k * q)) by (nonlinear_arith)
            requires
                p == 2 * q,
        ;
        assert((k * p) / 2 == k * q);
    } else {
        assert(k * 1 == k);
    }
}

// ---- whole parts ---------------------------------------------------------

/// The largest whole number that is not more than a single, held to 32 bits;
/// 0 for what is no number.
pub open spec fn floor_of(b: u32) -> int {
    let negative = b >= 0x8000_0000;
    let e = b / 0x80_0000 % 256;
    let f = b % 0x80_0000;
    if e == 255 {
        if f != 0 {
            0
        } else if negative {
            i32::MIN as int
        } else {
            i32::MAX as int
        }
    } else if e < 127 {
        if negative && b != 0x8000_0000 {
            -1
        } else {
            0
        }
    } else if e - 127 >= 31 {
        if negative {
            i32::MIN as int
        } else {
            i32::MAX as int
        }
    } else {
        let m = 0x80_0000 + f;
        if e - 127 >= 23 {
            let v = m * two_to(e - 127 - 23);
            if negative {
                -v
            } else {
                v
            }
        } else {
            let d = two_to(23 - (e - 127));
            if !negative {
                m / d
            } else if m % d == 0 {
                -(m / d)
            } else {
                -(m / d) - 1
            }
        }
    }
}

proof fn lemma_scaled(m: int, k: int)
    requires
        0x80_0000 <= m <= 0xff_ffff,
        0 <= k <= 7,
    ensures
        0x80_0000 <= m * two_to(k) <= 0x7fff_ff80,
{
    reveal_with_fuel(two_to, 8);
    if k == 0 {
        assert(m * 1 == m) by (nonlinear_arith);
    } else if k == 1 {
        assert(m * 2 == 2 * m) by (nonlinear_arith);
    } else if k == 2 {
        assert(m * 4 == 4 * m) by (nonlinear_arith);
    } else if k == 3 {
        assert(m * 8 == 8 * m) by (nonlinear_arith);
    } else if k == 4 {
        assert(m * 16 == 16 * m) by (nonlinear_arith);
    } else if k == 5 {
        assert(m * 32 == 32 * m) by (nonlinear_arith);
    } else if k == 6 {
        assert(m * 64 == 64 * m) by (nonlinear_arith);
    } else {
        assert(m * 128 == 128 * m) by (nonlinear_arith);
    }
}

fn power(n: u32) -> (p: u32)
    requires
        n <= 23,
    ensures
        p == two_to(n as int),
        p >= 1,
{
    let mut p: u32 = 1;
    let mut i: u32 = 0;
    while i < n
        invariant
            i <= n <= 23,
            p == two_to(i as int),
            1 <= p,
        decreases n - i,
    {
        proof {
            lemma_two_to_23();
            lemma_two_to_sum(i + 1, 23 - (i + 1));
            let (a, b) = (two_to(i + 1), two_to(23 - (i + 1)));
            assert(a <= 0x80_0000) by (nonlinear_arith)
                requires
                    a * b == 0x80_0000,
                    a >= 1,
                    b >= 1,
            ;
        }
        p = 2 * p;
        i += 1;
    }
    p
}

/// The whole part of a single, rounded down and held to 32 bits.
pub fn floor_bits(b: u32) -> (v: i32)
    ensures
        v == floor_of(b),
{
    let negative = b >= 0x8000_0000;
    let e: u32 = b / 0x80_0000 % 256;
    let f: u32 = b % 0x80_0000;
    if e == 255 {
        if f != 0 {
            0
        } else if negative {
            i32::MIN
        } else {
            i32::MAX
        }
    } else if e < 127 {
        if negative && b != 0x8000_0000 {
            -1
        } else {
            0
        }
    } else if e - 127 >= 31 {
        if negative {
            i32::MIN
        } else {
            i32::MAX
        }
    } else {
        let m: u32 = 0x80_0000 + f;
        if e - 127 >= 23 {
            let p: u32 = power(e - 127 - 23);
            proof {
                lemma_scaled(m as int, e - 127 - 23);
            }
            let v: i32 = (m * p) as i32;
            if negative {
                -v
            } else {
                v
            }
        } else {
            let d: u32 = power(23 - (e - 127));
            let q: i32 = (m / d) as i32;
            assert(0 <= m as int / d as int <= m) by (nonlinear_arith)
                requires
                    d >= 1,
                    m >= 0,
            ;
            if !negative {
                q
            } else if m % d == 0 {
                -q
            } else {
                -q - 1
            }
        }
    }
}

/// A whole number below 2 to the 24th is held exactly, between the power of two
/// at or below it and the next, and is its own floor.
pub proof fn whole_numbers_are_exact(n: u32)
    requires
        1 <= n < 0x100_0000,
    ensures
        ({
            let b = single_of(n);
            let e = b / 0x80_0000 - 127;
            &&& 0 <= b <= u32::MAX
            &&& 0 <= e <= 23
            &&& two_to(e) <= n < 2 * two_to(e)
            &&& 0x80_0000 + b % 0x80_0000 == n * two_to(23 - e)
            &&& floor_of(b as u32) == n
        }),
{
    let e = top_bit(n as int);
    lemma_top_bit(n as int);
    lemma_two_to_23();
    lemma_mantissa(n);
    if e >= 24 {
        lemma_two_to_sum(24, e - 24);
        assert(two_to(24) * two_to(e - 24) >= 0x100_0000) by (nonlinear_arith)
            requires
                two_to(24) == 0x100_0000,
                two_to(e - 24) >= 1,
        ;
    }
    lemma_two_to_sum(e, 23 - e);
    let d = two_to(23 - e);
    let m = n * d;
    assert(m < 0x100_0000) by (nonlinear_arith)
        requires
            m == n * d,
            n < 2 * two_to(e),
            d >= 1,
            two_to(e) * d == 0x80_0000,
    ;
    let b = single_of(n);
    assert(b == (e + 126) * 0x80_0000 + m);
    assert(b / 0x80_0000 == e + 127 && b % 0x80_0000 == m - 0x80_0000);
    let w = b as u32;
    assert(w == b && w / 0x80_0000 % 256 == e + 127 && w % 0x80_0000 == m - 0x80_0000);
    assert(w < 0x8000_0000);
    if e >= 23 {
        assert(two_to(0) == 1);
        assert(m * 1 == m);
    } else {
        assert(m / d == n) by (nonlinear_arith)
            requires
                m == n * d,
                d >= 1,
        ;
    }
}

/// A number of 1024ths is the whole number that it makes up.
pub proof fn so_many_1024ths_make_a_whole(n: u32)
    requires
        1 <= n < 0x2000,
    ensures
        single_of_1024ths((1024 * n) as u32) == single_of(n),
{
    let e = top_bit(n as int);
    reveal_with_fuel(two_to, 11);
    assert(two_to(10) == 1024);
    lemma_top_shift(n as int, 10);
    lemma_top_bit(n as int);
    assert(n * two_to(10) == 1024 * n);
    assert(e <= 12) by {
        if e >= 13 {
            lemma_two_to_sum(13, e - 13);
            reveal_with_fuel(two_to, 14);
            assert(two_to(13) == 0x2000);
            assert(two_to(13) * two_to(e - 13) >= 0x2000) by (nonlinear_arith)
                requires
                    two_to(13) == 0x2000,
                    two_to(e - 13) >= 1,
            ;
        }
    }
    lemma_two_to_sum(10, 13 - e);
    let d = two_to(13 - e);
    assert(10 + (13 - e) == 23 - e);
    assert(two_to(23 - e) == 1024 * d);
    assert(1024 * n * d == n * (1024 * d)) by (nonlinear_arith);
}

} // verus!
