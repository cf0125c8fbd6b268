//! Metatile behaviors: the names in the order of their values, which of them
//! are surfable, and which are warps that wait for an arrow press.

use vstd::prelude::*;
use crate::text;
use crate::text::{
    chars_of, contains, is_text, same, split, split_lines, split_whitespace, strip_prefix, trim,
    trim_end_matches, trim_start_matches, Text,
};

verus! {

/// Whether a character can stand in the name of a constant.
pub open spec fn is_name_char(c: char) -> bool {
    'A' <= c <= 'Z' || '0' <= c <= '9' || c == '_'
}

/// The name that a line of the enumeration gives, without its prefix.
pub open spec fn behavior_name(line: Seq<char>) -> Option<Seq<char>> {
    let bare = text::without_suffixes(text::trimmed(text::cut(line, "//"@)[0]), ","@);
    match text::without_prefix(bare, "MB_"@) {
        None => None,
        Some(rest) => {
            let w = text::words(rest);
            if w.len() > 0 && forall|i: int|
                0 <= i < w[0].len() ==> is_name_char(#[trigger] w[0][i]) {
                Some(w[0])
            } else {
                None
            }
        },
    }
}

/// The names that the first `n` lines give.
pub open spec fn names_among(ls: Seq<Seq<char>>, n: int) -> Seq<Seq<char>>
    decreases n,
{
    if n <= 0 {
        seq![]
    } else {
        match behavior_name(ls[n - 1]) {
            Some(name) => names_among(ls, n - 1).push(name),
            None => names_among(ls, n - 1),
        }
    }
}

/// The behaviors of a header, by value.
pub open spec fn behaviors(header: Seq<char>) -> Seq<Seq<char>> {
    names_among(text::lines(header), text::lines(header).len() as int)
}

fn all_name_chars(t: &Text) -> (r: bool)
    ensures
        r == (forall|i: int| 0 <= i < t@.len() ==> is_name_char(#[trigger] t@[i])),
{
    let mut i: usize = 0;
    while i < t.len()
        invariant
            i <= t@.len(),
            forall|k: int| 0 <= k < i ==> is_name_char(#[trigger] t@[k]),
        decreases t.len() - i,
    {
        let c: char = t[i];
        if !(('A' <= c && c <= 'Z') || ('0' <= c && c <= '9') || c == '_') {
            return false;
        }
        i += 1;
    }
    true
}

fn line_name(line: &Text) -> (r: Option<Text>)
    ensures
        match behavior_name(line@) {
            Some(n) => r is Some && r->0@ == n,
            None => r is None,
        },
{
    proof {
        reveal_strlit("//");
        reveal_strlit(",");
    }
    let parts = split(line, "//");
    assert(parts@[0]@ == text::texts(parts@)[0]);
    let bare = trim_end_matches(&trim(&parts[0]), ",");
    match strip_prefix(&bare, "MB_") {
        None => None,
        Some(rest) => {
            let w = split_whitespace(&rest);
            let ghost ws = text::words(rest@);
            assert(ws.len() == w@.len());
            if w.len() == 0 {
                return None;
            }
            assert(ws[0] == w@[0]@);
            if all_name_chars(&w[0]) {
                Some(text::copy(&w[0]))
            } else {
                None
            }
        },
    }
}

/// The behaviors of a header, by value.
pub fn parse_behaviors(header: &str) -> (out: Vec<Text>)
    ensures
        text::texts(out@) == behaviors(header@),
{
    let ls = split_lines(&chars_of(header));
    let ghost all = text::lines(header@);
    let mut out: Vec<Text> = Vec::new();
    assert(text::texts(out@) =~= seq![]);
    let mut i: usize = 0;
    while i < ls.len()
        invariant
            i <= ls@.len(),
            text::texts(ls@) == all,
            text::texts(out@) == names_among(all, i as int),
        decreases ls.len() - i,
    {
        assert(all[i as int] == ls@[i as int]@);
        if let Some(n) = line_name(&ls[i]) {
            let ghost before = text::texts(out@);
            let ghost name = n@;
            out.push(n);
            assert(text::texts(out@) =~= before.push(name));
        }
        i += 1;
    }
    assert(all.len() == ls@.len());
    out
}

// ---- arrow warps ---------------------------------------------------------

/// Which arrow a behavior waits for: south, north, east, west, or none.
pub open spec fn arrow_of(name: Seq<char>) -> u8 {
    if name == "SOUTH_ARROW_WARP"@ || name == "WATER_SOUTH_ARROW_WARP"@ {
        1
    } else if name == "NORTH_ARROW_WARP"@ {
        2
    } else if name == "EAST_ARROW_WARP"@ {
        3
    } else if name == "WEST_ARROW_WARP"@ {
        4
    } else {
        0
    }
}

/// The arrows by behavior, as far as a byte counts.
pub fn warp_dirs(names: &Vec<Text>) -> (out: [u8; 256])
    ensures
        forall|i: int|
            0 <= i < 256 ==> #[trigger] out@[i] == if i < names@.len() {
                arrow_of(names@[i]@)
            } else {
                0
            },
{
    let mut out = [0u8; 256];
    let mut i: usize = 0;
    while i < 256 && i < names.len()
        invariant
            i <= 256,
            i <= names@.len(),
            forall|k: int|
                0 <= k < 256 ==> #[trigger] out@[k] == if k < i {
                    arrow_of(names@[k]@)
                } else {
                    0
                },
        decreases 256 - i,
    {
        let n = &names[i];
        out[i] = if is_text(n, "SOUTH_ARROW_WARP") || is_text(n, "WATER_SOUTH_ARROW_WARP") {
            1
        } else if is_text(n, "NORTH_ARROW_WARP") {
            2
        } else if is_text(n, "EAST_ARROW_WARP") {
            3
        } else if is_text(n, "WEST_ARROW_WARP") {
            4
        } else {
            0
        };
        i += 1;
    }
    out
}

// ---- surfable water ------------------------------------------------------

/// The table of tile flags in a source file; empty where it has none.
pub open spec fn flag_table(source: Seq<char>) -> Seq<char> {
    let parts = text::cut(source, "sTileBitAttributes["@);
    text::cut(
        if parts.len() > 1 {
            parts[1]
        } else {
            seq![]
        },
        "};"@,
    )[0]
}

/// The behavior that a line of the table marks as surfable.
pub open spec fn marked(line: Seq<char>, names: Seq<Seq<char>>) -> Option<int> {
    let parts = text::cut(line, "["@);
    if text::place(line, "TILE_FLAG_SURFABLE"@) is None || parts.len() < 2 {
        None
    } else {
        let name = text::without_prefixes(
            text::trimmed(text::cut(parts[1], "]"@)[0]),
            "MB_"@,
        );
        text::last_named(names, name, names.len() as int)
    }
}

/// The flags by behavior after the first `n` lines; nothing where a line marks
/// a behavior that a byte does not count.
pub open spec fn flags_after(ls: Seq<Seq<char>>, names: Seq<Seq<char>>, n: int) -> Option<Seq<bool>>
    decreases n,
{
    if n <= 0 {
        Some(Seq::new(256, |i: int| false))
    } else {
        match flags_after(ls, names, n - 1) {
            None => None,
            Some(f) => match marked(ls[n - 1], names) {
                None => Some(f),
                Some(v) => if v < 256 {
                    Some(f.update(v, true))
                } else {
                    None
                },
            },
        }
    }
}

/// The surfable behaviors of a source file.
pub open spec fn surfable_flags(source: Seq<char>, names: Seq<Seq<char>>) -> Option<Seq<bool>> {
    let ls = text::lines(flag_table(source));
    flags_after(ls, names, ls.len() as int)
}

proof fn lemma_flags_stop(ls: Seq<Seq<char>>, names: Seq<Seq<char>>, a: int, b: int)
    requires
        a <= b,
        flags_after(ls, names, a) is None,
    ensures
        flags_after(ls, names, b) is None,
    decreases b,
{
    if a < b && b > 0 {
        lemma_flags_stop(ls, names, a, b - 1);
    }
}

fn line_mark(line: &Text, names: &Vec<Text>) -> (r: Option<usize>)
    ensures
        match marked(line@, text::texts(names@)) {
            Some(v) => r matches Some(x) && x == v && x < names@.len(),
            None => r is None,
        },
{
    proof {
        reveal_strlit("[");
        reveal_strlit("]");
        reveal_strlit("MB_");
    }
    if !contains(line, "TILE_FLAG_SURFABLE") {
        return None;
    }
    let parts = split(line, "[");
    assert(text::texts(parts@).len() == parts@.len());
    if parts.len() < 2 {
        return None;
    }
    assert(parts@[1]@ == text::texts(parts@)[1]);
    let inner = split(&parts[1], "]");
    assert(inner@[0]@ == text::texts(inner@)[0]);
    let name = trim_start_matches(&trim(&inner[0]), "MB_");
    assert(text::texts(names@).len() == names@.len());
    text::find_last(names, &name)
}

fn table_of(source: &str) -> (t: Text)
    ensures
        t@ == flag_table(source@),
{
    proof {
        reveal_strlit("sTileBitAttributes[");
        reveal_strlit("};");
    }
    let parts = split(&chars_of(source), "sTileBitAttributes[");
    assert(text::texts(parts@).len() == parts@.len());
    let rest = if parts.len() > 1 {
        assert(parts@[1]@ == text::texts(parts@)[1]);
        text::copy(&parts[1])
    } else {
        let none: Text = Vec::new();
        assert(none@ =~= seq![]);
        none
    };
    let table = split(&rest, "};");
    assert(table@[0]@ == text::texts(table@)[0]);
    text::copy(&table[0])
}

#[verifier::opaque]
spec fn bit(f: bool) -> int {
    if f {
        1
    } else {
        0
    }
}

/// The bits of a number put together of bits.
proof fn lemma_bits(f: Seq<bool>, at: int, b: int)
    requires
        b == bit(f[at]) + 2 * bit(f[at + 1]) + 4 * bit(f[at + 2]) + 8 * bit(f[at + 3]) + 16 * bit(
            f[at + 4],
        ) + 32 * bit(f[at + 5]) + 64 * bit(f[at + 6]) + 128 * bit(f[at + 7]),
    ensures
        holds_bits(b, f, at),
{
    reveal(bit);
    reveal(holds_bits);
    let (b0, b1, b2, b3) = (bit(f[at]), bit(f[at + 1]), bit(f[at + 2]), bit(f[at + 3]));
    let (b4, b5, b6, b7) = (bit(f[at + 4]), bit(f[at + 5]), bit(f[at + 6]), bit(f[at + 7]));
    assert(b / 2 == b1 + 2 * b2 + 4 * b3 + 8 * b4 + 16 * b5 + 32 * b6 + 64 * b7);
    assert(b / 4 == b2 + 2 * b3 + 4 * b4 + 8 * b5 + 16 * b6 + 32 * b7);
    assert(b / 8 == b3 + 2 * b4 + 4 * b5 + 8 * b6 + 16 * b7);
    assert(b / 16 == b4 + 2 * b5 + 4 * b6 + 8 * b7);
    assert(b / 32 == b5 + 2 * b6 + 4 * b7);
    assert(b / 64 == b6 + 2 * b7);
    assert(b / 128 == b7);
}

/// Whether the bits of a byte are eight flags.
#[verifier::opaque]
spec fn holds_bits(b: int, f: Seq<bool>, at: int) -> bool {
    &&& (b / 1 % 2 == 1) == f[at]
    &&& (b / 2 % 2 == 1) == f[at + 1]
    &&& (b / 4 % 2 == 1) == f[at + 2]
    &&& (b / 8 % 2 == 1) == f[at + 3]
    &&& (b / 16 % 2 == 1) == f[at + 4]
    &&& (b / 32 % 2 == 1) == f[at + 5]
    &&& (b / 64 % 2 == 1) == f[at + 6]
    &&& (b / 128 % 2 == 1) == f[at + 7]
}

proof fn lemma_nth_bit(b: int, f: Seq<bool>, at: int, k: int)
    requires
        holds_bits(b, f, at),
        0 <= k < 8,
    ensures
        (b / crate::game::map::weight(k) % 2 == 1) == f[at + k],
{
    reveal(holds_bits);
    if k == 0 {
        assert(crate::game::map::weight(k) == 1);
    } else if k == 1 {
        assert(crate::game::map::weight(k) == 2);
    } else if k == 2 {
        assert(crate::game::map::weight(k) == 4);
    } else if k == 3 {
        assert(crate::game::map::weight(k) == 8);
    } else if k == 4 {
        assert(crate::game::map::weight(k) == 16);
    } else if k == 5 {
        assert(crate::game::map::weight(k) == 32);
    } else if k == 6 {
        assert(crate::game::map::weight(k) == 64);
    } else {
        assert(crate::game::map::weight(k) == 128);
    }
}

fn one(f: bool) -> (n: u8)
    ensures
        n == bit(f),
        n <= 1,
{
    proof {
        reveal(bit);
    }
    if f {
        1
    } else {
        0
    }
}

#[verifier::rlimit(40)]
fn flag_byte(flags: &Vec<bool>, at: usize) -> (b: u8)
    requires
        at + 8 <= flags@.len() == 256,
    ensures
        holds_bits(b as int, flags@, at as int),
{
    let b0: u8 = one(flags[at]);
    let b1: u8 = one(flags[at + 1]);
    let b2: u8 = one(flags[at + 2]);
    let b3: u8 = one(flags[at + 3]);
    let b4: u8 = one(flags[at + 4]);
    let b5: u8 = one(flags[at + 5]);
    let b6: u8 = one(flags[at + 6]);
    let b7: u8 = one(flags[at + 7]);
    let b: u8 = b0 + 2 * b1 + 4 * b2 + 8 * b3 + 16 * b4 + 32 * b5 + 64 * b6 + 128 * b7;
    proof {
        lemma_bits(flags@, at as int, b as int);
    }
    b
}

/// The mask of the surfable behaviors, by the flags of a source file.
pub fn surfable_mask(source: &str, names: &Vec<Text>) -> (r: Option<[u8; 32]>)
    ensures
        match surfable_flags(source@, text::texts(names@)) {
            None => r is None,
            Some(f) => r is Some && forall|b: u8|
                #[trigger] crate::game::map::in_mask(r->0@, b) == f[b as int],
        },
{
    let ls = split_lines(&table_of(source));
    let ghost all = text::lines(flag_table(source@));
    let ghost ns = text::texts(names@);
    let mut flags: Vec<bool> = vec![false; 256];
    assert(flags@ =~= Seq::new(256, |i: int| false));
    let mut i: usize = 0;
    while i < ls.len()
        invariant
            i <= ls@.len(),
            all == text::lines(flag_table(source@)),
            text::texts(ls@) == all,
            ns == text::texts(names@),
            flags@.len() == 256,
            flags_after(all, ns, i as int) == Some(flags@),
        decreases ls.len() - i,
    {
        assert(all[i as int] == ls@[i as int]@);
        if let Some(v) = line_mark(&ls[i], names) {
            if v >= 256 {
                proof {
                    assert(all.len() == ls@.len());
                    lemma_flags_stop(all, ns, i + 1, all.len() as int);
                }
                return None;
            }
            flags.set(v, true);
        }
        i += 1;
    }
    assert(all.len() == ls@.len());
    let mut mask = [0u8; 32];
    let mut k: usize = 0;
    while k < 32
        invariant
            k <= 32,
            flags@.len() == 256,
            forall|j: int| 0 <= j < k ==> holds_bits(#[trigger] mask@[j] as int, flags@, 8 * j),
        decreases 32 - k,
    {
        let byte: u8 = flag_byte(&flags, 8 * k);
        mask[k] = byte;
        k += 1;
    }
    assert forall|b: u8| #[trigger] crate::game::map::in_mask(mask@, b) == flags@[b as int] by {
        let j = b as int / 8;
        assert(holds_bits(mask@[j] as int, flags@, 8 * j));
        lemma_nth_bit(mask@[j] as int, flags@, 8 * j, b as int % 8);
        assert(8 * j + b as int % 8 == b as int);
    }
    Some(mask)
}

} // verus!
