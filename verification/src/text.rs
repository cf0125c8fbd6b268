//! Text as sequences of characters: lines, pieces, words and numbers.

use vstd::prelude::*;
use vstd::utf8::*;
use crate::codec::same_bytes;

verus! {

/// A piece of text.
pub type Text = Vec<char>;

/// What a list of pieces holds.
pub open spec fn texts(v: Seq<Text>) -> Seq<Seq<char>> {
    Seq::new(v.len(), |i: int| v[i]@)
}

// ---- what the operations mean --------------------------------------------

/// The characters with the Unicode property White_Space.
pub open spec fn is_space(c: char) -> bool {
    let v = c as u32;
    9 <= v <= 13 || v == 0x20 || v == 0x85 || v == 0xA0 || v == 0x1680 || 0x2000 <= v <= 0x200A
        || v == 0x2028 || v == 0x2029 || v == 0x202F || v == 0x205F || v == 0x3000
}

/// Whether `p` stands in `s` at place `i`.
pub open spec fn occurs_at(s: Seq<char>, p: Seq<char>, i: int) -> bool {
    0 <= i && i + p.len() <= s.len() && s.subrange(i, i + p.len()) == p
}

/// The first place of `p` in `s` at or behind `from`; the length of `s` + 1
/// where there is none.
pub open spec fn find_from(s: Seq<char>, p: Seq<char>, from: int) -> int
    decreases s.len() + 1 - from,
{
    if from + p.len() > s.len() {
        s.len() as int + 1
    } else if occurs_at(s, p, from) {
        from
    } else {
        find_from(s, p, from + 1)
    }
}

/// The first place of `p` in `s`.
pub open spec fn place(s: Seq<char>, p: Seq<char>) -> Option<int> {
    let i = find_from(s, p, 0);
    if i > s.len() {
        None
    } else {
        Some(i)
    }
}

/// What stands before and behind the first `p`.
pub open spec fn cut_once(s: Seq<char>, p: Seq<char>) -> Option<(Seq<char>, Seq<char>)> {
    match place(s, p) {
        None => None,
        Some(i) => Some((s.take(i), s.skip(i + p.len()))),
    }
}

/// What stands between the `p`s: at least one piece.
pub open spec fn cut(s: Seq<char>, p: Seq<char>) -> Seq<Seq<char>>
    recommends
        p.len() > 0,
    decreases s.len(),
{
    match place(s, p) {
        None => seq![s],
        Some(i) => if p.len() == 0 {
            seq![s]
        } else {
            proof {
                lemma_find_from(s, p, 0);
            }
            seq![s.take(i)] + cut(s.skip(i + p.len()), p)
        },
    }
}

/// With every `p` replaced by `r`.
pub open spec fn replaced(s: Seq<char>, p: Seq<char>, r: Seq<char>) -> Seq<char>
    decreases s.len(),
{
    match place(s, p) {
        None => s,
        Some(i) => if p.len() == 0 {
            s
        } else {
            proof {
                lemma_find_from(s, p, 0);
            }
            s.take(i) + r + replaced(s.skip(i + p.len()), p, r)
        },
    }
}

pub open spec fn has_prefix(s: Seq<char>, p: Seq<char>) -> bool {
    occurs_at(s, p, 0)
}

pub open spec fn without_prefix(s: Seq<char>, p: Seq<char>) -> Option<Seq<char>> {
    if has_prefix(s, p) {
        Some(s.skip(p.len() as int))
    } else {
        None
    }
}

pub open spec fn without_suffix(s: Seq<char>, p: Seq<char>) -> Option<Seq<char>> {
    if p.len() <= s.len() && occurs_at(s, p, s.len() - p.len()) {
        Some(s.take(s.len() - p.len()))
    } else {
        None
    }
}

/// Without any `p`s at the front.
pub open spec fn without_prefixes(s: Seq<char>, p: Seq<char>) -> Seq<char>
    decreases s.len(),
{
    if p.len() > 0 && has_prefix(s, p) {
        without_prefixes(s.skip(p.len() as int), p)
    } else {
        s
    }
}

/// Without any `p`s at the end.
pub open spec fn without_suffixes(s: Seq<char>, p: Seq<char>) -> Seq<char>
    decreases s.len(),
{
    match without_suffix(s, p) {
        Some(t) => if p.len() > 0 {
            without_suffixes(t, p)
        } else {
            s
        },
        None => s,
    }
}

pub open spec fn without_leading_space(s: Seq<char>) -> Seq<char>
    decreases s.len(),
{
    if s.len() > 0 && is_space(s[0]) {
        without_leading_space(s.skip(1))
    } else {
        s
    }
}

pub open spec fn without_trailing_space(s: Seq<char>) -> Seq<char>
    decreases s.len(),
{
    if s.len() > 0 && is_space(s.last()) {
        without_trailing_space(s.drop_last())
    } else {
        s
    }
}

/// Without white space at either end.
pub open spec fn trimmed(s: Seq<char>) -> Seq<char> {
    without_trailing_space(without_leading_space(s))
}

/// How many characters at the front are no white space.
pub open spec fn word_len(s: Seq<char>) -> int
    decreases s.len(),
{
    if s.len() > 0 && !is_space(s[0]) {
        1 + word_len(s.skip(1))
    } else {
        0
    }
}

pub proof fn lemma_word_bound(s: Seq<char>)
    ensures
        0 <= word_len(s) <= s.len(),
        s.len() > 0 && !is_space(s[0]) ==> word_len(s) > 0,
    decreases s.len(),
{
    if s.len() > 0 && !is_space(s[0]) {
        lemma_word_bound(s.skip(1));
    }
}

/// The runs of characters between white space.
pub open spec fn words(s: Seq<char>) -> Seq<Seq<char>>
    decreases s.len(),
{
    if s.len() == 0 {
        seq![]
    } else if is_space(s[0]) {
        words(s.skip(1))
    } else {
        proof {
            lemma_word_bound(s);
        }
        seq![s.take(word_len(s))] + words(s.skip(word_len(s)))
    }
}

/// A line without the carriage return at its end.
pub open spec fn without_return(s: Seq<char>) -> Seq<char> {
    if s.len() > 0 && s.last() == '\r' {
        s.drop_last()
    } else {
        s
    }
}

/// The lines of a text: they end at a line feed, with or without a carriage
/// return before it; the last may lack it.
pub open spec fn lines(s: Seq<char>) -> Seq<Seq<char>>
    decreases s.len(),
{
    if s.len() == 0 {
        seq![]
    } else {
        match place(s, seq!['\n']) {
            None => seq![s],
            Some(i) => {
                proof {
                    lemma_find_from(s, seq!['\n'], 0);
                }
                seq![without_return(s.take(i))] + lines(s.skip(i + 1))
            },
        }
    }
}

/// The value of a digit in bases up to 16; 16 for anything else.
pub open spec fn digit(c: char) -> int {
    let v = c as u32 as int;
    if 0x30 <= v <= 0x39 {
        v - 0x30
    } else if 0x41 <= v <= 0x46 {
        v - 0x41 + 10
    } else if 0x61 <= v <= 0x66 {
        v - 0x61 + 10
    } else {
        16
    }
}

/// Whether every character is a digit of the base.
pub open spec fn all_digits(s: Seq<char>, base: int) -> bool {
    forall|i: int| 0 <= i < s.len() ==> digit(#[trigger] s[i]) < base
}

pub open spec fn value(s: Seq<char>, base: int) -> int
    decreases s.len(),
{
    if s.len() == 0 {
        0
    } else {
        value(s.drop_last(), base) * base + digit(s.last())
    }
}

/// A number of at most `top`: digits of the base, at least one, with or
/// without a plus sign before them.
pub open spec fn number(s: Seq<char>, base: int, top: int) -> Option<int> {
    let t = if s.len() > 0 && s[0] == '+' {
        s.skip(1)
    } else {
        s
    };
    if t.len() > 0 && all_digits(t, base) && value(t, base) <= top {
        Some(value(t, base))
    } else {
        None
    }
}

/// The last of a list of names that is `name`.
pub open spec fn last_named(names: Seq<Seq<char>>, name: Seq<char>, n: int) -> Option<int>
    decreases n,
{
    if n <= 0 {
        None
    } else if names[n - 1] == name {
        Some(n - 1)
    } else {
        last_named(names, name, n - 1)
    }
}

// ---- texts and strings ---------------------------------------------------

/// Whether two texts are the same.
pub fn same_text(a: &str, b: &str) -> (r: bool)
    ensures
        r == (a@ == b@),
{
    proof {
        encode_utf8_decode_utf8(a@);
        encode_utf8_decode_utf8(b@);
    }
    same_bytes(a.as_bytes(), b.as_bytes())
}

/// The characters of a string.
pub fn chars_of(s: &str) -> (out: Text)
    ensures
        out@ == s@,
{
    let mut out: Text = Vec::new();
    for c in it: s.chars()
        invariant
            out@ == it.seq().take(it.index() as int),
            it.seq() == s@,
    {
        out.push(c);
        assert(out@ =~= it.seq().take(it.index() + 1));
    }
    assert(out@ =~= s@);
    out
}

/// `String::from_iter` over a vector of characters: the string that holds
/// them, in their order.
#[verifier::external_body]
fn string_from_chars(c: Vec<char>) -> (s: String)
    ensures
        s@ == c@,
{
    String::from_iter(c)
}

/// The string that holds a piece of text.
pub fn string_of(t: &Text) -> (s: String)
    ensures
        s@ == t@,
{
    let c = t.clone();
    assert(c@ =~= t@);
    string_from_chars(c)
}

/// The characters `a..b` of a text.
pub fn part(s: &Text, a: usize, b: usize) -> (out: Text)
    requires
        a <= b <= s@.len(),
    ensures
        out@ == s@.subrange(a as int, b as int),
{
    let mut out: Text = Vec::new();
    let mut i: usize = a;
    while i < b
        invariant
            a <= i <= b <= s@.len(),
            out@ == s@.subrange(a as int, i as int),
        decreases b - i,
    {
        out.push(s[i]);
        assert(out@ =~= s@.subrange(a as int, i + 1));
        i += 1;
    }
    out
}

/// Whether two pieces are the same.
pub fn same(a: &Text, b: &Text) -> (r: bool)
    ensures
        r == (a@ == b@),
{
    if a.len() != b.len() {
        return false;
    }
    let mut i: usize = 0;
    while i < a.len()
        invariant
            i <= a@.len(),
            a@.len() == b@.len(),
            forall|k: int| 0 <= k < i ==> a@[k] == b@[k],
        decreases a.len() - i,
    {
        if a[i] != b[i] {
            return false;
        }
        i += 1;
    }
    assert(a@ =~= b@);
    true
}

/// Whether a piece is the given text.
pub fn is_text(a: &Text, b: &str) -> (r: bool)
    ensures
        r == (a@ == b@),
{
    same(a, &chars_of(b))
}

// ---- finding -------------------------------------------------------------

fn at(s: &Text, p: &Text, i: usize) -> (r: bool)
    requires
        i + p@.len() <= s@.len(),
    ensures
        r == occurs_at(s@, p@, i as int),
{
    let n: usize = s.len();
    let mut k: usize = 0;
    while k < p.len()
        invariant
            k <= p@.len(),
            n == s@.len(),
            i + p@.len() <= s@.len(),
            forall|j: int| 0 <= j < k ==> s@[i + j] == p@[j],
        decreases p.len() - k,
    {
        if s[i + k] != p[k] {
            assert(s@.subrange(i as int, i + p@.len())[k as int] == s@[i + k]);
            return false;
        }
        k += 1;
    }
    assert(s@.subrange(i as int, i + p@.len()) =~= p@);
    true
}

/// The first place of `p` in `s`.
pub fn find(s: &Text, p: &Text) -> (r: Option<usize>)
    ensures
        match place(s@, p@) {
            Some(i) => r matches Some(x) && x == i && x + p@.len() <= s@.len() <= usize::MAX,
            None => r is None,
        },
{
    if p.len() > s.len() {
        return None;
    }
    let n: usize = s.len();
    let last: usize = n - p.len();
    let mut i: usize = 0;
    while i <= last
        invariant
            n == s@.len(),
            last == s@.len() - p@.len(),
            i <= last + 1,
            find_from(s@, p@, 0) == find_from(s@, p@, i as int),
        decreases last + 1 - i,
    {
        if at(s, p, i) {
            return Some(i);
        }
        if i == last {
            assert(find_from(s@, p@, i + 1) == s@.len() + 1);
            return None;
        }
        i += 1;
    }
    None
}

/// Whether `p` stands anywhere in `s`.
pub fn contains(s: &Text, p: &str) -> (r: bool)
    ensures
        r == (place(s@, p@) is Some),
{
    find(s, &chars_of(p)).is_some()
}

/// What stands before and behind the first `p`.
pub fn split_once(s: &Text, p: &str) -> (r: Option<(Text, Text)>)
    ensures
        match cut_once(s@, p@) {
            Some((a, b)) => r matches Some(x) && x.0@ == a && x.1@ == b,
            None => r is None,
        },
{
    let pat = chars_of(p);
    match find(s, &pat) {
        None => None,
        Some(i) => {
            let a = part(s, 0, i);
            let b = part(s, i + pat.len(), s.len());
            assert(a@ =~= s@.take(i as int));
            assert(b@ =~= s@.skip(i + pat@.len()));
            Some((a, b))
        },
    }
}

pub proof fn lemma_find_from(s: Seq<char>, p: Seq<char>, from: int)
    requires
        0 <= from,
    ensures
        find_from(s, p, from) <= s.len() ==> from <= find_from(s, p, from) && find_from(s, p, from)
            + p.len() <= s.len(),
    decreases s.len() + 1 - from,
{
    if from + p.len() <= s.len() && !occurs_at(s, p, from) {
        lemma_find_from(s, p, from + 1);
    }
}

/// What stands between the `p`s.
pub fn split(s: &Text, p: &str) -> (out: Vec<Text>)
    requires
        p@.len() > 0,
    ensures
        texts(out@) == cut(s@, p@),
        out@.len() > 0,
{
    let pat = chars_of(p);
    let mut out: Vec<Text> = Vec::new();
    let mut rest: Text = part(s, 0, s.len());
    assert(rest@ =~= s@);
    assert(texts(out@) + cut(rest@, p@) =~= cut(s@, p@));
    loop
        invariant
            pat@ == p@,
            p@.len() > 0,
            texts(out@) + cut(rest@, p@) == cut(s@, p@),
        decreases rest@.len(),
    {
        match find(&rest, &pat) {
            None => {
                let ghost before = texts(out@);
                let ghost last = rest@;
                out.push(rest);
                assert(texts(out@) =~= before.push(last));
                assert(texts(out@) =~= cut(s@, p@));
                return out;
            },
            Some(i) => {
                let a = part(&rest, 0, i);
                let b = part(&rest, i + pat.len(), rest.len());
                assert(a@ =~= rest@.take(i as int));
                assert(b@ =~= rest@.skip(i + pat@.len()));
                let ghost before = texts(out@);
                let ghost piece = a@;
                out.push(a);
                assert(texts(out@) =~= before.push(piece));
                assert(before + (seq![piece] + cut(b@, p@)) =~= before.push(piece) + cut(b@, p@));
                rest = b;
            },
        }
    }
}

/// With every `p` replaced by `r`.
pub fn replace(s: &Text, p: &str, r: &str) -> (out: Text)
    requires
        p@.len() > 0,
    ensures
        out@ == replaced(s@, p@, r@),
{
    let pat = chars_of(p);
    let new = chars_of(r);
    let mut out: Text = Vec::new();
    let mut rest: Text = part(s, 0, s.len());
    assert(rest@ =~= s@);
    assert(out@ + replaced(rest@, p@, r@) =~= replaced(s@, p@, r@));
    loop
        invariant
            pat@ == p@,
            new@ == r@,
            p@.len() > 0,
            out@ + replaced(rest@, p@, r@) == replaced(s@, p@, r@),
        decreases rest@.len(),
    {
        match find(&rest, &pat) {
            None => {
                let ghost before = out@;
                append(&mut out, &rest);
                return out;
            },
            Some(i) => {
                let a = part(&rest, 0, i);
                let b = part(&rest, i + pat.len(), rest.len());
                assert(a@ =~= rest@.take(i as int));
                assert(b@ =~= rest@.skip(i + pat@.len()));
                let ghost before = out@;
                append(&mut out, &a);
                append(&mut out, &new);
                assert(before + (a@ + r@ + replaced(b@, p@, r@)) =~= before + a@ + r@ + replaced(
                    b@,
                    p@,
                    r@,
                ));
                rest = b;
            },
        }
    }
}

/// One piece behind another.
pub fn append(s: &mut Text, t: &Text)
    ensures
        final(s)@ == old(s)@ + t@,
{
    let mut i: usize = 0;
    assert(s@ =~= old(s)@ + t@.take(0));
    while i < t.len()
        invariant
            i <= t@.len(),
            s@ == old(s)@ + t@.take(i as int),
        decreases t.len() - i,
    {
        s.push(t[i]);
        assert(s@ =~= old(s)@ + t@.take(i + 1));
        i += 1;
    }
    assert(t@.take(t@.len() as int) =~= t@);
}

/// A copy of a piece.
pub fn copy(t: &Text) -> (u: Text)
    ensures
        u@ == t@,
{
    let u = part(t, 0, t.len());
    assert(u@ =~= t@);
    u
}

pub fn starts_with(s: &Text, p: &str) -> (r: bool)
    ensures
        r == has_prefix(s@, p@),
{
    let pat = chars_of(p);
    if pat.len() > s.len() {
        false
    } else {
        at(s, &pat, 0)
    }
}

pub fn strip_prefix(s: &Text, p: &str) -> (r: Option<Text>)
    ensures
        match without_prefix(s@, p@) {
            Some(t) => r matches Some(x) && x@ == t,
            None => r is None,
        },
{
    let pat = chars_of(p);
    if pat.len() <= s.len() && at(s, &pat, 0) {
        let t = part(s, pat.len(), s.len());
        assert(t@ =~= s@.skip(pat@.len() as int));
        Some(t)
    } else {
        None
    }
}

pub fn strip_suffix(s: &Text, p: &str) -> (r: Option<Text>)
    ensures
        match without_suffix(s@, p@) {
            Some(t) => r matches Some(x) && x@ == t,
            None => r is None,
        },
{
    let pat = chars_of(p);
    if pat.len() <= s.len() && at(s, &pat, s.len() - pat.len()) {
        let t = part(s, 0, s.len() - pat.len());
        assert(t@ =~= s@.take(s@.len() - pat@.len()));
        Some(t)
    } else {
        None
    }
}

/// Without any `p`s at the front.
pub fn trim_start_matches(s: &Text, p: &str) -> (t: Text)
    requires
        p@.len() > 0,
    ensures
        t@ == without_prefixes(s@, p@),
{
    let pat = chars_of(p);
    let mut i: usize = 0;
    assert(s@.skip(0) =~= s@);
    while pat.len() <= s.len() - i && at(s, &pat, i)
        invariant
            i <= s@.len(),
            pat@ == p@,
            p@.len() > 0,
            without_prefixes(s@, p@) == without_prefixes(s@.skip(i as int), p@),
        decreases s.len() - i,
    {
        assert(s@.skip(i as int).subrange(0, p@.len() as int) =~= s@.subrange(
            i as int,
            i + p@.len(),
        ));
        assert(s@.skip(i as int).skip(p@.len() as int) =~= s@.skip(i + p@.len()));
        i += pat.len();
    }
    let t = part(s, i, s.len());
    assert(t@ =~= s@.skip(i as int));
    proof {
        let u = s@.skip(i as int);
        if p@.len() <= u.len() {
            assert(u.subrange(0, p@.len() as int) =~= s@.subrange(i as int, i + p@.len()));
        }
    }
    t
}

/// Without any `p`s at the end.
pub fn trim_end_matches(s: &Text, p: &str) -> (t: Text)
    requires
        p@.len() > 0,
    ensures
        t@ == without_suffixes(s@, p@),
{
    let pat = chars_of(p);
    let mut n: usize = s.len();
    assert(s@.take(n as int) =~= s@);
    while pat.len() <= n && at(s, &pat, n - pat.len())
        invariant
            n <= s@.len(),
            pat@ == p@,
            p@.len() > 0,
            without_suffixes(s@, p@) == without_suffixes(s@.take(n as int), p@),
        decreases n,
    {
        let ghost u = s@.take(n as int);
        assert(u.subrange(n - p@.len(), n as int) =~= s@.subrange(n - p@.len(), n as int));
        assert(u.take(n - p@.len()) =~= s@.take(n - p@.len()));
        n -= pat.len();
    }
    let t = part(s, 0, n);
    assert(t@ =~= s@.take(n as int));
    proof {
        let u = s@.take(n as int);
        if p@.len() <= n {
            assert(u.subrange(n - p@.len(), n as int) =~= s@.subrange(n - p@.len(), n as int));
        }
    }
    t
}

// ---- white space ---------------------------------------------------------

pub fn space(c: char) -> (r: bool)
    ensures
        r == is_space(c),
{
    let v: u32 = c as u32;
    (9 <= v && v <= 13) || v == 0x20 || v == 0x85 || v == 0xA0 || v == 0x1680 || (0x2000 <= v && v
        <= 0x200A) || v == 0x2028 || v == 0x2029 || v == 0x202F || v == 0x205F || v == 0x3000
}

/// Without white space at either end.
pub fn trim(s: &Text) -> (t: Text)
    ensures
        t@ == trimmed(s@),
{
    let mut a: usize = 0;
    assert(s@.skip(0) =~= s@);
    while a < s.len() && space(s[a])
        invariant
            a <= s@.len(),
            without_leading_space(s@) == without_leading_space(s@.skip(a as int)),
        decreases s.len() - a,
    {
        assert(s@.skip(a as int).skip(1) =~= s@.skip(a + 1));
        a += 1;
    }
    let mut b: usize = s.len();
    let ghost left = s@.skip(a as int);
    assert(left == without_leading_space(s@));
    assert(s@.subrange(a as int, b as int) =~= left);
    while b > a && space(s[b - 1])
        invariant
            a <= b <= s@.len(),
            without_trailing_space(left) == without_trailing_space(
                s@.subrange(a as int, b as int),
            ),
        decreases b,
    {
        assert(s@.subrange(a as int, b as int).drop_last() =~= s@.subrange(a as int, b - 1));
        b -= 1;
    }
    part(s, a, b)
}

proof fn lemma_word_len(s: Seq<char>, n: int)
    requires
        0 <= n <= s.len(),
        forall|i: int| 0 <= i < n ==> !is_space(#[trigger] s[i]),
        n < s.len() ==> is_space(s[n]),
    ensures
        word_len(s) == n,
    decreases s.len(),
{
    if n > 0 {
        let t = s.skip(1);
        assert forall|i: int| 0 <= i < n - 1 implies !is_space(#[trigger] t[i]) by {
            assert(t[i] == s[i + 1]);
        }
        lemma_word_len(t, n - 1);
    }
}

/// The runs of characters between white space.
pub fn split_whitespace(s: &Text) -> (out: Vec<Text>)
    ensures
        texts(out@) == words(s@),
{
    let mut out: Vec<Text> = Vec::new();
    let mut i: usize = 0;
    assert(s@.skip(0) =~= s@);
    assert(texts(out@) + words(s@.skip(0)) =~= words(s@));
    while i < s.len()
        invariant
            i <= s@.len(),
            texts(out@) + words(s@.skip(i as int)) == words(s@),
        decreases s.len() - i,
    {
        let ghost rest = s@.skip(i as int);
        if space(s[i]) {
            assert(rest.skip(1) =~= s@.skip(i + 1));
            i += 1;
        } else {
            let mut j: usize = i;
            while j < s.len() && !space(s[j])
                invariant
                    i <= j <= s@.len(),
                    forall|k: int| i <= k < j ==> !is_space(#[trigger] s@[k]),
                decreases s.len() - j,
            {
                j += 1;
            }
            proof {
                assert forall|k: int| 0 <= k < j - i implies !is_space(#[trigger] rest[k]) by {
                    assert(rest[k] == s@[i + k]);
                }
                lemma_word_len(rest, j - i);
            }
            let w = part(s, i, j);
            let ghost before = texts(out@);
            let ghost word = w@;
            assert(word =~= rest.take(j - i));
            assert(rest.skip(j - i) =~= s@.skip(j as int));
            out.push(w);
            assert(texts(out@) =~= before.push(word));
            assert(before + (seq![word] + words(s@.skip(j as int))) =~= before.push(word) + words(
                s@.skip(j as int),
            ));
            i = j;
        }
    }
    assert(texts(out@) =~= words(s@));
    out
}

/// The lines of a text.
pub fn split_lines(s: &Text) -> (out: Vec<Text>)
    ensures
        texts(out@) == lines(s@),
{
    let mut feed: Text = Vec::new();
    feed.push('\n');
    assert(feed@ =~= seq!['\n']);
    let mut out: Vec<Text> = Vec::new();
    let mut rest: Text = part(s, 0, s.len());
    assert(rest@ =~= s@);
    assert(texts(out@) + lines(rest@) =~= lines(s@));
    while rest.len() > 0
        invariant
            feed@ == seq!['\n'],
            texts(out@) + lines(rest@) == lines(s@),
        decreases rest@.len(),
    {
        let ghost before = texts(out@);
        match find(&rest, &feed) {
            None => {
                let ghost last = rest@;
                out.push(rest);
                assert(texts(out@) =~= before.push(last));
                rest = Vec::new();
                assert(before.push(last) + lines(rest@) =~= before + seq![last]);
            },
            Some(i) => {
                let n: usize = if i > 0 && rest[i - 1] == '\r' { i - 1 } else { i };
                let line = part(&rest, 0, n);
                let ghost piece = line@;
                assert(rest@.take(i as int).len() == i);
                assert(i > 0 ==> rest@.take(i as int).last() == rest@[i - 1]);
                assert(piece =~= without_return(rest@.take(i as int)));
                let b = part(&rest, i + 1, rest.len());
                assert(b@ =~= rest@.skip(i + 1));
                out.push(line);
                assert(texts(out@) =~= before.push(piece));
                assert(before + (seq![piece] + lines(b@)) =~= before.push(piece) + lines(b@));
                rest = b;
            },
        }
    }
    assert(texts(out@) =~= lines(s@));
    out
}

// ---- numbers -------------------------------------------------------------

fn digit_value(c: char) -> (d: u64)
    ensures
        d == digit(c),
        d <= 16,
{
    let v: u32 = c as u32;
    if 0x30 <= v && v <= 0x39 {
        (v - 0x30) as u64
    } else if 0x41 <= v && v <= 0x46 {
        (v - 0x41 + 10) as u64
    } else if 0x61 <= v && v <= 0x66 {
        (v - 0x61 + 10) as u64
    } else {
        16
    }
}

proof fn lemma_value_grows(s: Seq<char>, base: int, n: int)
    requires
        base >= 1,
        0 <= n <= s.len(),
        all_digits(s, base),
        forall|i: int| 0 <= i < s.len() ==> digit(#[trigger] s[i]) >= 0,
    ensures
        0 <= value(s.take(n), base) <= value(s, base),
    decreases s.len(),
{
    lemma_value_nonneg(s.take(n), base);
    if n < s.len() {
        let f = s.drop_last();
        assert(f.take(n) =~= s.take(n));
        assert forall|i: int| 0 <= i < f.len() implies digit(#[trigger] f[i]) < base by {
            assert(f[i] == s[i]);
        }
        assert forall|i: int| 0 <= i < f.len() implies digit(#[trigger] f[i]) >= 0 by {
            assert(f[i] == s[i]);
        }
        lemma_value_grows(f, base, n);
        let v = value(f, base);
        assert(v * base >= v) by (nonlinear_arith)
            requires
                v >= 0,
                base >= 1,
        ;
        assert(digit(s.last()) >= 0);
    } else {
        assert(s.take(n) =~= s);
    }
}

proof fn lemma_value_nonneg(s: Seq<char>, base: int)
    requires
        base >= 1,
    ensures
        value(s, base) >= 0,
    decreases s.len(),
{
    if s.len() > 0 {
        lemma_value_nonneg(s.drop_last(), base);
        let v = value(s.drop_last(), base);
        assert(v * base >= 0) by (nonlinear_arith)
            requires
                v >= 0,
                base >= 1,
        ;
    }
}

/// A number of at most `top` in a base of at most 16.
pub fn parse_number(s: &Text, base: u64, top: u64) -> (r: Option<u64>)
    requires
        1 <= base <= 16,
    ensures
        match number(s@, base as int, top as int) {
            Some(v) => r matches Some(x) && x == v,
            None => r is None,
        },
{
    let from: usize = if s.len() > 0 && s[0] == '+' { 1 } else { 0 };
    let ghost t = if s@.len() > 0 && s@[0] == '+' {
        s@.skip(1)
    } else {
        s@
    };
    assert(t =~= s@.skip(from as int));
    if from == s.len() {
        return None;
    }
    let mut acc: u128 = 0;
    let mut i: usize = from;
    assert(t.take(0) =~= seq![]);
    while i < s.len()
        invariant
            from <= i <= s@.len(),
            t == s@.skip(from as int),
            1 <= base <= 16,
            acc <= top,
            acc == value(t.take(i - from), base as int),
            all_digits(t.take(i - from), base as int),
            number(s@, base as int, top as int) == (if t.len() > 0 && all_digits(t, base as int)
                && value(t, base as int) <= top {
                Some(value(t, base as int))
            } else {
                None
            }),
        decreases s.len() - i,
    {
        let d: u64 = digit_value(s[i]);
        let ghost n = i - from;
        assert(t[n] == s@[i as int]);
        if d >= base {
            assert(!all_digits(t, base as int));
            return None;
        }
        assert(t.take(n + 1).drop_last() =~= t.take(n));
        assert(t.take(n + 1).last() == t[n]);
        assert(acc * base <= 0xffff_ffff_ffff_ffff * 16) by (nonlinear_arith)
            requires
                acc <= 0xffff_ffff_ffff_ffff,
                base <= 16,
        ;
        acc = acc * base as u128 + d as u128;
        assert forall|k: int| 0 <= k < n + 1 implies digit(#[trigger] t.take(n + 1)[k])
            < base by {
            if k < n {
                assert(t.take(n)[k] == t.take(n + 1)[k]);
            }
        }
        if acc > top as u128 {
            proof {
                if all_digits(t, base as int) {
                    lemma_value_grows(t, base as int, n + 1);
                }
            }
            return None;
        }
        i += 1;
    }
    assert(t.take(t.len() as int) =~= t);
    Some(acc as u64)
}

// ---- names ---------------------------------------------------------------

/// The last of a list of names that is `name`.
pub fn find_last(names: &Vec<Text>, name: &Text) -> (r: Option<usize>)
    ensures
        match last_named(texts(names@), name@, names@.len() as int) {
            Some(i) => r matches Some(x) && x == i && x < names@.len(),
            None => r is None,
        },
{
    let ghost all = texts(names@);
    let mut n: usize = names.len();
    while n > 0
        invariant
            n <= names@.len(),
            all == texts(names@),
            last_named(all, name@, names@.len() as int) == last_named(all, name@, n as int),
        decreases n,
    {
        if same(&names[n - 1], name) {
            return Some(n - 1);
        }
        n -= 1;
    }
    None
}

// ---- laws ----------------------------------------------------------------

/// What is found by a name bears that name and nothing behind it does; where
/// nothing is found nothing bears it.
pub proof fn the_last_of_a_name_is_found(names: Seq<Seq<char>>, name: Seq<char>, n: int)
    requires
        0 <= n <= names.len(),
    ensures
        match last_named(names, name, n) {
            Some(i) => 0 <= i < n && names[i] == name && forall|k: int|
                i < k < n ==> #[trigger] names[k] != name,
            None => forall|k: int| 0 <= k < n ==> #[trigger] names[k] != name,
        },
    decreases n,
{
    if n > 0 && names[n - 1] != name {
        the_last_of_a_name_is_found(names, name, n - 1);
    }
}

proof fn lemma_found_first(s: Seq<char>, p: Seq<char>, from: int)
    requires
        0 <= from,
    ensures
        ({
            let i = find_from(s, p, from);
            &&& i <= s.len() ==> from <= i && i + p.len() <= s.len() && s.subrange(i, i + p.len())
                == p
            &&& i > s.len() ==> i == s.len() + 1
            &&& forall|k: int|
                from <= k < i && k + p.len() <= s.len() ==> #[trigger] s.subrange(k, k + p.len())
                    != p
        }),
    decreases s.len() + 1 - from,
{
    if from + p.len() <= s.len() && !occurs_at(s, p, from) {
        lemma_found_first(s, p, from + 1);
    }
}

/// A text is found where it first stands, and only where it stands at all.
pub proof fn the_first_place_is_found(s: Seq<char>, p: Seq<char>)
    ensures
        match place(s, p) {
            Some(i) => {
                &&& 0 <= i
                &&& i + p.len() <= s.len()
                &&& s.subrange(i, i + p.len()) == p
                &&& forall|k: int| 0 <= k < i ==> #[trigger] s.subrange(k, k + p.len()) != p
            },
            None => forall|k: int|
                0 <= k && k + p.len() <= s.len() ==> #[trigger] s.subrange(k, k + p.len()) != p,
        },
{
    lemma_found_first(s, p, 0);
}

/// Pieces with something between each two.
pub open spec fn joined(v: Seq<Seq<char>>, p: Seq<char>) -> Seq<char>
    decreases v.len(),
{
    if v.len() == 0 {
        seq![]
    } else if v.len() == 1 {
        v[0]
    } else {
        v[0] + p + joined(v.skip(1), p)
    }
}

/// What is cut at a text joins again with it, no piece holds it, and what joins
/// with another text instead has each of them replaced.
pub proof fn what_is_cut_joins_again(s: Seq<char>, p: Seq<char>, r: Seq<char>)
    requires
        p.len() > 0,
    ensures
        cut(s, p).len() > 0,
        joined(cut(s, p), p) == s,
        joined(cut(s, p), r) == replaced(s, p, r),
        forall|i: int, k: int|
            0 <= i < cut(s, p).len() && 0 <= k && k + p.len() <= cut(s, p)[i].len()
                ==> #[trigger] cut(s, p)[i].subrange(k, k + p.len()) != p,
    decreases s.len(),
{
    the_first_place_is_found(s, p);
    if let Some(i) = place(s, p) {
        let rest = s.skip(i + p.len());
        what_is_cut_joins_again(rest, p, r);
        let v = cut(s, p);
        assert(v == seq![s.take(i)] + cut(rest, p));
        assert(v.skip(1) =~= cut(rest, p));
        assert(s =~= s.take(i) + p + rest);
        assert forall|a: int, k: int|
            0 <= a < v.len() && 0 <= k && k + p.len() <= v[a].len() implies #[trigger] v[a].subrange(
            k,
            k + p.len(),
        ) != p by {
            if a == 0 {
                assert(v[0].subrange(k, k + p.len()) =~= s.subrange(k, k + p.len()));
            } else {
                assert(v[a] == cut(rest, p)[a - 1]);
            }
        }
    }
}

/// A number is read digit by digit: one more digit is worth its place in the
/// row of digits, and what came before the base times as much.
pub proof fn a_digit_is_worth_its_place(s: Seq<char>, c: char, base: int)
    requires
        2 <= base <= 10,
        '0' <= c,
        (c as int) < ('0' as int) + base,
    ensures
        value(s.push(c), base) == value(s, base) * base + (c as int - '0' as int),
        value(seq![c], base) == c as int - '0' as int,
        number(seq![c], base, 255) == Some(c as int - '0' as int),
{
    assert(s.push(c).drop_last() =~= s);
    assert(seq![c].drop_last() =~= seq![]);
    assert(value(seq![], base) == 0);
    assert(0 * base == 0);
}

/// Trimming takes white space from both ends and nothing else.
pub proof fn trimming_takes_the_space_at_the_ends(s: Seq<char>)
    ensures
        exists|a: int, b: int|
            0 <= a <= b <= s.len() && trimmed(s) == #[trigger] s.subrange(a, b) && (forall|k: int|
                0 <= k < a || b <= k < s.len() ==> is_space(#[trigger] s[k])),
        trimmed(s).len() > 0 ==> !is_space(trimmed(s)[0]) && !is_space(trimmed(s).last()),
{
    let t = without_leading_space(s);
    lemma_leading(s);
    lemma_trailing(t);
    let a = s.len() - t.len();
    let u = trimmed(s);
    let b = a + u.len();
    assert(u =~= s.subrange(a, b));
    assert forall|k: int| 0 <= k < a || b <= k < s.len() implies is_space(#[trigger] s[k]) by {
        if k >= b {
            assert(s[k] == t[k - a]);
        }
    }
    if u.len() > 0 {
        assert(u[0] == t[0]);
    }
}

proof fn lemma_leading(s: Seq<char>)
    ensures
        ({
            let t = without_leading_space(s);
            &&& t.len() <= s.len()
            &&& t == s.skip(s.len() - t.len())
            &&& t.len() > 0 ==> !is_space(t[0])
            &&& forall|k: int| 0 <= k < s.len() - t.len() ==> is_space(#[trigger] s[k])
        }),
    decreases s.len(),
{
    if s.len() > 0 && is_space(s[0]) {
        let r = s.skip(1);
        lemma_leading(r);
        let t = without_leading_space(s);
        assert(t =~= s.skip(s.len() - t.len()));
        assert forall|k: int| 0 <= k < s.len() - t.len() implies is_space(#[trigger] s[k]) by {
            if k > 0 {
                assert(s[k] == r[k - 1]);
            }
        }
    } else {
        assert(s.skip(0) =~= s);
    }
}

proof fn lemma_trailing(s: Seq<char>)
    ensures
        ({
            let t = without_trailing_space(s);
            &&& t.len() <= s.len()
            &&& t == s.take(t.len() as int)
            &&& t.len() > 0 ==> !is_space(t.last())
            &&& forall|k: int| t.len() <= k < s.len() ==> is_space(#[trigger] s[k])
        }),
    decreases s.len(),
{
    if s.len() > 0 && is_space(s.last()) {
        let r = s.drop_last();
        lemma_trailing(r);
        let t = without_trailing_space(s);
        assert(t =~= s.take(t.len() as int));
        assert forall|k: int| t.len() <= k < s.len() implies is_space(#[trigger] s[k]) by {
            if k < s.len() - 1 {
                assert(s[k] == r[k]);
            }
        }
    } else {
        assert(s.take(s.len() as int) =~= s);
    }
}

/// The characters of a text that are no white space.
pub open spec fn inked(s: Seq<char>) -> Seq<char>
    decreases s.len(),
{
    if s.len() == 0 {
        seq![]
    } else if is_space(s[0]) {
        inked(s.skip(1))
    } else {
        seq![s[0]] + inked(s.skip(1))
    }
}

/// The words of a text hold all of it but the white space, in its order; none is
/// empty and none holds white space.
pub proof fn words_hold_what_is_written(s: Seq<char>)
    ensures
        joined(words(s), seq![]) == inked(s),
        forall|i: int| 0 <= i < words(s).len() ==> (#[trigger] words(s)[i]).len() > 0,
        forall|i: int, k: int|
            0 <= i < words(s).len() && 0 <= k < words(s)[i].len() ==> !is_space(
                #[trigger] words(s)[i][k],
            ),
    decreases s.len(),
{
    if s.len() > 0 {
        if is_space(s[0]) {
            words_hold_what_is_written(s.skip(1));
        } else {
            lemma_word_bound(s);
            let n = word_len(s);
            lemma_word(s);
            let rest = s.skip(n);
            words_hold_what_is_written(rest);
            let w = words(s);
            assert(w == seq![s.take(n)] + words(rest));
            assert(w.skip(1) =~= words(rest));
            if words(rest).len() == 0 {
                assert(inked(rest) =~= seq![]);
            }
            assert(joined(w, seq![]) =~= s.take(n) + inked(rest));
            assert forall|i: int, k: int| 0 <= i < w.len() && 0 <= k < w[i].len() implies !is_space(
                #[trigger] w[i][k],
            ) by {
                if i > 0 {
                    assert(w[i] == words(rest)[i - 1]);
                }
            }
            assert forall|i: int| 0 <= i < w.len() implies (#[trigger] w[i]).len() > 0 by {
                if i > 0 {
                    assert(w[i] == words(rest)[i - 1]);
                }
            }
        }
    }
}

proof fn lemma_word(s: Seq<char>)
    ensures
        forall|k: int| 0 <= k < word_len(s) ==> !is_space(#[trigger] s[k]),
        0 <= word_len(s) <= s.len(),
        word_len(s) < s.len() ==> is_space(s[word_len(s)]),
        inked(s) == s.take(word_len(s)) + inked(s.skip(word_len(s))),
    decreases s.len(),
{
    lemma_word_bound(s);
    if s.len() > 0 && !is_space(s[0]) {
        let r = s.skip(1);
        lemma_word(r);
        let n = word_len(s);
        assert forall|k: int| 0 <= k < n implies !is_space(#[trigger] s[k]) by {
            if k > 0 {
                assert(s[k] == r[k - 1]);
            }
        }
        if n < s.len() {
            assert(s[n] == r[n - 1]);
        }
        assert(s.skip(n) =~= r.skip(n - 1));
        assert(s.take(n) =~= seq![s[0]] + r.take(n - 1));
        assert(inked(s) =~= s.take(n) + inked(s.skip(n)));
    } else {
        assert(s.skip(0) =~= s);
        assert(inked(s) =~= s.take(0) + inked(s));
    }
}

/// The lines of a text that ends in a line feed, each with one behind it, are
/// the text, where no carriage return stands before a line feed. No line holds a
/// line feed.
pub proof fn lines_hold_the_text(s: Seq<char>)
    requires
        !s.contains('\r'),
    ensures
        s.len() > 0 && s.last() == '\n' ==> joined(lines(s), seq!['\n']) + seq!['\n'] == s,
        s.len() > 0 && s.last() != '\n' ==> joined(lines(s), seq!['\n']) == s,
        s.len() == 0 <==> lines(s).len() == 0,
        forall|i: int, k: int|
            0 <= i < lines(s).len() && 0 <= k < lines(s)[i].len() ==> #[trigger] lines(s)[i][k]
                != '\n',
    decreases s.len(),
{
    let p = seq!['\n'];
    if s.len() > 0 {
        the_first_place_is_found(s, p);
        match place(s, p) {
            None => {
                assert forall|k: int| 0 <= k < s.len() implies #[trigger] s[k] != '\n' by {
                    assert(s.subrange(k, k + 1) != p);
                    if s[k] == '\n' {
                        assert(s.subrange(k, k + 1) =~= p);
                    }
                }
            },
            Some(i) => {
                let rest = s.skip(i + 1);
                assert(s.subrange(i, i + 1)[0] == '\n');
                assert(s[i] == '\n');
                assert forall|k: int| 0 <= k < rest.len() implies #[trigger] rest[k] != '\r' by {
                    assert(s.contains(s[k + i + 1]));
                }
                lines_hold_the_text(rest);
                let first = s.take(i);
                if first.len() > 0 {
                    assert(s.contains(first.last()));
                }
                assert(without_return(first) == first);
                let v = lines(s);
                assert(v == seq![first] + lines(rest));
                assert(v.skip(1) =~= lines(rest));
                assert(s =~= first + p + rest);
                if rest.len() > 0 {
                    assert(rest.last() == s.last());
                    assert(joined(v, p) == first + p + joined(lines(rest), p));
                    if s.last() == '\n' {
                        assert(first + p + joined(lines(rest), p) + p =~= first + p + (joined(
                            lines(rest),
                            p,
                        ) + p));
                    }
                } else {
                    assert(joined(v, p) == first);
                    assert(first + p =~= s);
                }
                assert forall|a: int, k: int| 0 <= a < v.len() && 0 <= k < v[a].len() implies
                    #[trigger] v[a][k] != '\n' by {
                    if a == 0 {
                        assert(s.subrange(k, k + 1) != p);
                        if s[k] == '\n' {
                            assert(s.subrange(k, k + 1) =~= p);
                        }
                    } else {
                        assert(v[a] == lines(rest)[a - 1]);
                    }
                }
            },
        }
    }
}

/// What is left behind the prefixes does not begin with one, and only prefixes
/// were taken: one more in front changes nothing.
pub proof fn prefixes_are_taken_off(s: Seq<char>, p: Seq<char>)
    requires
        p.len() > 0,
    ensures
        !(p.is_prefix_of(without_prefixes(s, p))),
        without_prefixes(p + s, p) == without_prefixes(s, p),
        !p.is_prefix_of(s) ==> without_prefixes(s, p) == s,
    decreases s.len(),
{
    let t = p + s;
    assert(t.subrange(0, p.len() as int) =~= p);
    assert(t.skip(p.len() as int) =~= s);
    if has_prefix(s, p) {
        prefixes_are_taken_off(s.skip(p.len() as int), p);
    } else if p.is_prefix_of(s) {
        assert(s.subrange(0, p.len() as int) =~= p);
    }
}

} // verus!
