//! The byte form that the two packs share: little-endian integers,
//! length-prefixed bytes, strings and words, counted lists.
//!
//! Every item has an encoding `enc`, a sequence of bytes, and a decoding
//! `dec`, which takes the bytes that are left and gives the value and what
//! is left after it, or the message of the first fault.

use vstd::prelude::*;
use vstd::utf8::*;

verus! {

/// A fault found while reading packed data.
#[derive(Debug)]
pub struct PackError(pub &'static str);

/// What a decoder gives back: the value and the bytes after it, or a fault.
pub type Dec<M> = Result<(M, Seq<u8>), Seq<char>>;

// ---- integers ------------------------------------------------------------

#[verifier::opaque]
pub open spec fn le16(v: u16) -> Seq<u8> {
    seq![(v % 256) as u8, (v / 256) as u8]
}

#[verifier::opaque]
pub open spec fn le32(v: u32) -> Seq<u8> {
    seq![
        (v % 256) as u8,
        (v / 256 % 256) as u8,
        (v / 65536 % 256) as u8,
        (v / 16777216) as u8,
    ]
}

#[verifier::opaque]
pub open spec fn from_le16(s: Seq<u8>) -> u16 {
    (s[0] + 256 * s[1]) as u16
}

#[verifier::opaque]
pub open spec fn from_le32(s: Seq<u8>) -> u32 {
    (s[0] + 256 * s[1] + 65536 * s[2] + 16777216 * s[3]) as u32
}

/// Two's complement of a signed word.
pub open spec fn bits32(v: i32) -> u32 {
    if v < 0 {
        (v + 0x1_0000_0000) as u32
    } else {
        v as u32
    }
}

/// The signed word with a given two's complement.
pub open spec fn signed32(v: u32) -> i32 {
    if v >= 0x8000_0000 {
        (v - 0x1_0000_0000) as i32
    } else {
        v as i32
    }
}

/// Two's complement of a signed byte.
pub open spec fn bits8(v: i8) -> u8 {
    if v < 0 {
        (v + 256) as u8
    } else {
        v as u8
    }
}

/// The signed byte with a given two's complement.
pub open spec fn signed8(v: u8) -> i8 {
    if v >= 128 {
        (v - 256) as i8
    } else {
        v as i8
    }
}

/// A length as the format stores it: its low 32 bits.
pub open spec fn len32(n: nat) -> u32 {
    (n % 0x1_0000_0000) as u32
}

/// A flag as the format stores it.
pub open spec fn flag_byte(b: bool) -> u8 {
    if b {
        1
    } else {
        0
    }
}

pub proof fn lemma_le16(v: u16)
    ensures
        le16(v).len() == 2,
        from_le16(le16(v)) == v,
{
    reveal(le16);
    reveal(from_le16);
}

pub proof fn lemma_le32(v: u32)
    ensures
        le32(v).len() == 4,
        from_le32(le32(v)) == v,
{
    reveal(le32);
    reveal(from_le32);
    let a = v % 256;
    let b = v / 256 % 256;
    let c = v / 65536 % 256;
    let d = v / 16777216;
    assert(v == a + 256 * b + 65536 * c + 16777216 * d);
}

// ---- decoders ------------------------------------------------------------

/// The next `n` bytes.
#[verifier::opaque]
pub open spec fn dec_take(n: nat, s: Seq<u8>) -> Dec<Seq<u8>> {
    if n <= s.len() {
        Ok((s.take(n as int), s.skip(n as int)))
    } else {
        Err("truncated"@)
    }
}

#[verifier::opaque]
pub open spec fn dec_u8(s: Seq<u8>) -> Dec<u8> {
    if s.len() >= 1 {
        Ok((s[0], s.skip(1)))
    } else {
        Err("truncated"@)
    }
}

#[verifier::opaque]
pub open spec fn dec_i8(s: Seq<u8>) -> Dec<i8> {
    if s.len() >= 1 {
        Ok((signed8(s[0]), s.skip(1)))
    } else {
        Err("truncated"@)
    }
}

/// A byte that is set or not.
#[verifier::opaque]
pub open spec fn dec_flag(s: Seq<u8>) -> Dec<bool> {
    if s.len() >= 1 {
        Ok((s[0] != 0, s.skip(1)))
    } else {
        Err("truncated"@)
    }
}

#[verifier::opaque]
pub open spec fn dec_u16(s: Seq<u8>) -> Dec<u16> {
    if s.len() >= 2 {
        Ok((from_le16(s), s.skip(2)))
    } else {
        Err("truncated"@)
    }
}

#[verifier::opaque]
pub open spec fn dec_u32(s: Seq<u8>) -> Dec<u32> {
    if s.len() >= 4 {
        Ok((from_le32(s), s.skip(4)))
    } else {
        Err("truncated"@)
    }
}

#[verifier::opaque]
pub open spec fn dec_i32(s: Seq<u8>) -> Dec<i32> {
    match dec_u32(s) {
        Ok((v, r)) => Ok((signed32(v), r)),
        Err(e) => Err(e),
    }
}

/// A word whose largest value stands for nothing.
#[verifier::opaque]
pub open spec fn dec_opt_u32(s: Seq<u8>) -> Dec<Option<u32>> {
    match dec_u32(s) {
        Ok((v, r)) => Ok((if v == u32::MAX { None } else { Some(v) }, r)),
        Err(e) => Err(e),
    }
}

/// A length that the bytes after it can hold.
#[verifier::opaque]
pub open spec fn dec_len(s: Seq<u8>) -> Dec<nat> {
    match dec_u32(s) {
        Ok((n, r)) => if n > r.len() {
            Err("length exceeds data"@)
        } else {
            Ok((n as nat, r))
        },
        Err(e) => Err(e),
    }
}

#[verifier::opaque]
pub open spec fn dec_bytes(s: Seq<u8>) -> Dec<Seq<u8>> {
    match dec_len(s) {
        Ok((n, r)) => dec_take(n, r),
        Err(e) => Err(e),
    }
}

#[verifier::opaque]
pub open spec fn dec_str(s: Seq<u8>) -> Dec<Seq<char>> {
    match dec_bytes(s) {
        Ok((b, r)) => if valid_utf8(b) {
            Ok((decode_utf8(b), r))
        } else {
            Err("bad utf8"@)
        },
        Err(e) => Err(e),
    }
}

/// The 16-bit words in a run of bytes.
pub open spec fn words_of(b: Seq<u8>) -> Seq<u16> {
    Seq::new(b.len() / 2, |i: int| from_le16(b.skip(2 * i)))
}

/// The counted words: the count is held to the bytes that are left, the
/// words themselves to twice as many.
#[verifier::opaque]
pub open spec fn dec_u16s(s: Seq<u8>) -> Dec<Seq<u16>> {
    match dec_len(s) {
        Ok((n, r)) => match dec_take(2 * n, r) {
            Ok((b, r2)) => Ok((words_of(b), r2)),
            Err(e) => Err(e),
        },
        Err(e) => Err(e),
    }
}

// ---- encoders ------------------------------------------------------------

#[verifier::opaque]
pub open spec fn enc_bytes(b: Seq<u8>) -> Seq<u8> {
    le32(len32(b.len())) + b
}

pub open spec fn enc_str(c: Seq<char>) -> Seq<u8> {
    enc_bytes(encode_utf8(c))
}

#[verifier::opaque]
pub open spec fn enc_opt_u32(v: Option<u32>) -> Seq<u8> {
    match v {
        None => le32(u32::MAX),
        Some(x) => le32(x),
    }
}

/// The bytes of a run of words.
pub open spec fn word_bytes(w: Seq<u16>) -> Seq<u8>
    decreases w.len(),
{
    if w.len() == 0 {
        seq![]
    } else {
        word_bytes(w.drop_last()) + le16(w.last())
    }
}

#[verifier::opaque]
pub open spec fn enc_u16s(w: Seq<u16>) -> Seq<u8> {
    le32(len32(w.len())) + word_bytes(w)
}

// ---- what is read back ---------------------------------------------------

pub proof fn lemma_dec_u8(v: u8, post: Seq<u8>)
    ensures
        dec_u8(seq![v] + post) == Ok::<(u8, Seq<u8>), Seq<char>>((v, post)),
{
    reveal(dec_u8);
    assert((seq![v] + post).skip(1) =~= post);
}

pub proof fn lemma_dec_i8(v: i8, post: Seq<u8>)
    ensures
        dec_i8(seq![bits8(v)] + post) == Ok::<(i8, Seq<u8>), Seq<char>>((v, post)),
{
    reveal(dec_i8);
    assert((seq![bits8(v)] + post).skip(1) =~= post);
}

pub proof fn lemma_dec_flag(v: bool, post: Seq<u8>)
    ensures
        dec_flag(seq![flag_byte(v)] + post) == Ok::<(bool, Seq<u8>), Seq<char>>((v, post)),
{
    reveal(dec_flag);
    assert((seq![flag_byte(v)] + post).skip(1) =~= post);
}

pub proof fn lemma_dec_u16(v: u16, post: Seq<u8>)
    ensures
        dec_u16(le16(v) + post) == Ok::<(u16, Seq<u8>), Seq<char>>((v, post)),
{
    reveal(dec_u16);
    reveal(le16);
    reveal(from_le16);
    lemma_le16(v);
    let s = le16(v) + post;
    assert(s.skip(2) =~= post);
    assert(s[0] == le16(v)[0] && s[1] == le16(v)[1]);
}

pub proof fn lemma_dec_u32(v: u32, post: Seq<u8>)
    ensures
        dec_u32(le32(v) + post) == Ok::<(u32, Seq<u8>), Seq<char>>((v, post)),
{
    reveal(dec_u32);
    reveal(le32);
    reveal(from_le32);
    lemma_le32(v);
    let s = le32(v) + post;
    assert(s.skip(4) =~= post);
    assert(s[0] == le32(v)[0] && s[1] == le32(v)[1] && s[2] == le32(v)[2] && s[3] == le32(v)[3]);
}

pub proof fn lemma_dec_i32(v: i32, post: Seq<u8>)
    ensures
        dec_i32(le32(bits32(v)) + post) == Ok::<(i32, Seq<u8>), Seq<char>>((v, post)),
{
    reveal(dec_u32);
    reveal(dec_i32);
    reveal(le32);
    reveal(from_le32);
    lemma_dec_u32(bits32(v), post);
}

pub proof fn lemma_dec_opt_u32(v: Option<u32>, post: Seq<u8>)
    requires
        v != Some(u32::MAX),
    ensures
        dec_opt_u32(enc_opt_u32(v) + post) == Ok::<(Option<u32>, Seq<u8>), Seq<char>>((v, post)),
{
    reveal(dec_u32);
    reveal(dec_opt_u32);
    reveal(le32);
    reveal(from_le32);
    reveal(enc_opt_u32);
    match v {
        None => lemma_dec_u32(u32::MAX, post),
        Some(x) => lemma_dec_u32(x, post),
    }
}

pub proof fn lemma_dec_take(b: Seq<u8>, post: Seq<u8>)
    ensures
        dec_take(b.len(), b + post) == Ok::<(Seq<u8>, Seq<u8>), Seq<char>>((b, post)),
{
    reveal(dec_take);
    assert((b + post).take(b.len() as int) =~= b);
    assert((b + post).skip(b.len() as int) =~= post);
}

pub proof fn lemma_dec_bytes(b: Seq<u8>, post: Seq<u8>)
    requires
        b.len() < 0x1_0000_0000,
    ensures
        dec_bytes(enc_bytes(b) + post) == Ok::<(Seq<u8>, Seq<u8>), Seq<char>>((b, post)),
{
    reveal(dec_u32);
    reveal(dec_len);
    reveal(dec_take);
    reveal(dec_bytes);
    reveal(enc_bytes);
    reveal(le32);
    reveal(from_le32);
    assert(enc_bytes(b) + post =~= le32(len32(b.len())) + (b + post));
    lemma_dec_u32(len32(b.len()), b + post);
    lemma_dec_take(b, post);
}

pub proof fn lemma_dec_str(c: Seq<char>, post: Seq<u8>)
    requires
        encode_utf8(c).len() < 0x1_0000_0000,
    ensures
        dec_str(enc_str(c) + post) == Ok::<(Seq<char>, Seq<u8>), Seq<char>>((c, post)),
{
    reveal(dec_u32);
    reveal(dec_len);
    reveal(dec_take);
    reveal(dec_bytes);
    reveal(dec_str);
    reveal(enc_bytes);
    reveal(le32);
    reveal(from_le32);
    lemma_dec_bytes(encode_utf8(c), post);
    encode_utf8_valid_utf8(c);
    encode_utf8_decode_utf8(c);
}

pub proof fn lemma_word_bytes(w: Seq<u16>)
    ensures
        word_bytes(w).len() == 2 * w.len(),
        words_of(word_bytes(w)) == w,
        forall|i: int|
            0 <= i < w.len() ==> from_le16(#[trigger] word_bytes(w).skip(2 * i)) == w[i],
    decreases w.len(),
{
    reveal(le16);
    reveal(from_le16);
    if w.len() > 0 {
        lemma_word_bytes(w.drop_last());
        lemma_le16(w.last());
        let front = word_bytes(w.drop_last());
        assert forall|i: int| 0 <= i < w.len() implies from_le16(
            #[trigger] word_bytes(w).skip(2 * i),
        ) == w[i] by {
            let t = word_bytes(w).skip(2 * i);
            assert(t[0] == word_bytes(w)[2 * i]);
            assert(t[1] == word_bytes(w)[2 * i + 1]);
            if i < w.len() - 1 {
                assert(front.skip(2 * i)[0] == front[2 * i]);
                assert(front.skip(2 * i)[1] == front[2 * i + 1]);
                assert(from_le16(front.skip(2 * i)) == w.drop_last()[i]);
            } else {
                assert(t[0] == le16(w.last())[0]);
                assert(t[1] == le16(w.last())[1]);
            }
        }
    }
    assert(words_of(word_bytes(w)) =~= w);
}

pub proof fn lemma_dec_u16s(w: Seq<u16>, post: Seq<u8>)
    requires
        w.len() < 0x1_0000_0000,
    ensures
        dec_u16s(enc_u16s(w) + post) == Ok::<(Seq<u16>, Seq<u8>), Seq<char>>((w, post)),
{
    reveal(dec_u32);
    reveal(dec_len);
    reveal(dec_take);
    reveal(dec_u16s);
    reveal(enc_u16s);
    reveal(le32);
    reveal(from_le32);
    let b = word_bytes(w);
    assert(b.len() == 2 * w.len() && words_of(b) == w) by {
        lemma_word_bytes(w);
    }
    let n = len32(w.len());
    assert(enc_u16s(w) + post =~= le32(n) + (b + post));
    lemma_dec_u32(n, b + post);
    assert(dec_len(le32(n) + (b + post)) == Ok::<(nat, Seq<u8>), Seq<char>>((w.len(), b + post)));
    lemma_dec_take(b, post);
}

// ---- more bytes behind ---------------------------------------------------

/// Whether a decoder that succeeds on `d` gives `e` with `t` behind the rest.
pub open spec fn extends<M>(d: Dec<M>, e: Dec<M>, t: Seq<u8>) -> bool {
    match d {
        Ok((m, r)) => e == Ok::<(M, Seq<u8>), Seq<char>>((m, r + t)),
        Err(_) => true,
    }
}

pub broadcast proof fn lemma_assoc(a: Seq<u8>, b: Seq<u8>, c: Seq<u8>)
    ensures
        #[trigger] ((a + b) + c) == a + (b + c),
{
    assert((a + b) + c =~= a + (b + c));
}

pub proof fn lemma_more_take(n: nat, s: Seq<u8>, t: Seq<u8>)
    ensures
        extends(dec_take(n, s), dec_take(n, s + t), t),
{
    reveal(dec_take);
    if n <= s.len() {
        assert((s + t).take(n as int) =~= s.take(n as int));
        assert((s + t).skip(n as int) =~= s.skip(n as int) + t);
    }
}

pub proof fn lemma_more_u8(s: Seq<u8>, t: Seq<u8>)
    ensures
        extends(dec_u8(s), dec_u8(s + t), t),
        extends(dec_i8(s), dec_i8(s + t), t),
        extends(dec_flag(s), dec_flag(s + t), t),
{
    reveal(dec_u8);
    reveal(dec_i8);
    reveal(dec_flag);
    if s.len() >= 1 {
        assert((s + t).skip(1) =~= s.skip(1) + t);
    }
}

pub proof fn lemma_more_u16(s: Seq<u8>, t: Seq<u8>)
    ensures
        extends(dec_u16(s), dec_u16(s + t), t),
{
    reveal(dec_u16);
    reveal(from_le16);
    if s.len() >= 2 {
        assert((s + t).skip(2) =~= s.skip(2) + t);
    }
}

pub proof fn lemma_more_u32(s: Seq<u8>, t: Seq<u8>)
    ensures
        extends(dec_u32(s), dec_u32(s + t), t),
        extends(dec_i32(s), dec_i32(s + t), t),
        extends(dec_opt_u32(s), dec_opt_u32(s + t), t),
        extends(dec_len(s), dec_len(s + t), t),
{
    reveal(dec_u32);
    reveal(dec_i32);
    reveal(dec_opt_u32);
    reveal(dec_len);
    reveal(from_le32);
    if s.len() >= 4 {
        assert((s + t).skip(4) =~= s.skip(4) + t);
    }
}

pub proof fn lemma_more_bytes(s: Seq<u8>, t: Seq<u8>)
    ensures
        extends(dec_bytes(s), dec_bytes(s + t), t),
        extends(dec_str(s), dec_str(s + t), t),
{
    reveal(dec_u32);
    reveal(dec_len);
    reveal(dec_take);
    reveal(dec_bytes);
    reveal(dec_str);
    reveal(from_le32);
    lemma_more_u32(s, t);
    if let Ok((n, r)) = dec_len(s) {
        lemma_more_take(n, r, t);
    }
}

pub proof fn lemma_more_u16s(s: Seq<u8>, t: Seq<u8>)
    ensures
        extends(dec_u16s(s), dec_u16s(s + t), t),
{
    reveal(dec_u32);
    reveal(dec_len);
    reveal(dec_take);
    reveal(dec_u16s);
    reveal(from_le32);
    lemma_more_u32(s, t);
    if let Ok((n, r)) = dec_len(s) {
        lemma_more_take(2 * n, r, t);
    }
}

// ---- writing -------------------------------------------------------------

/// The bytes of a pack as they are put together.
pub struct W(pub Vec<u8>);

impl W {
    pub fn u8(&mut self, v: u8)
        ensures
            final(self).0@ == old(self).0@ + seq![v],
    {
        self.0.push(v);
        assert(self.0@ =~= old(self).0@ + seq![v]);
    }

    pub fn i8(&mut self, v: i8)
        ensures
            final(self).0@ == old(self).0@ + seq![bits8(v)],
    {
        self.u8(if v < 0 { (v as i16 + 256) as u8 } else { v as u8 });
    }

    pub fn flag(&mut self, v: bool)
        ensures
            final(self).0@ == old(self).0@ + seq![flag_byte(v)],
    {
        self.u8(if v { 1 } else { 0 });
    }

    pub fn u16(&mut self, v: u16)
        ensures
            final(self).0@ == old(self).0@ + le16(v),
    {
        proof {
            reveal(le16);
        }
        self.0.push((v % 256) as u8);
        self.0.push((v / 256) as u8);
        assert(self.0@ =~= old(self).0@ + le16(v));
    }

    pub fn u32(&mut self, v: u32)
        ensures
            final(self).0@ == old(self).0@ + le32(v),
    {
        proof {
            reveal(le32);
        }
        self.0.push((v % 256) as u8);
        self.0.push((v / 256 % 256) as u8);
        self.0.push((v / 65536 % 256) as u8);
        self.0.push((v / 16777216) as u8);
        assert(self.0@ =~= old(self).0@ + le32(v));
    }

    pub fn i32(&mut self, v: i32)
        ensures
            final(self).0@ == old(self).0@ + le32(bits32(v)),
    {
        proof {
            reveal(le32);
        }
        self.u32(if v < 0 { (v as i64 + 0x1_0000_0000) as u32 } else { v as u32 });
    }

    pub fn opt_u32(&mut self, v: Option<u32>)
        ensures
            final(self).0@ == old(self).0@ + enc_opt_u32(v),
    {
        proof {
            reveal(le32);
            reveal(enc_opt_u32);
        }
        match v {
            None => self.u32(u32::MAX),
            Some(x) => self.u32(x),
        }
    }

    /// A length or a count.
    pub fn count(&mut self, n: usize)
        ensures
            final(self).0@ == old(self).0@ + le32(len32(n as nat)),
    {
        proof {
            reveal(le32);
        }
        self.u32((n as u64 % 0x1_0000_0000) as u32);
    }

    /// Bytes without a length before them.
    pub fn raw(&mut self, v: &[u8])
        ensures
            final(self).0@ == old(self).0@ + v@,
    {
        self.0.extend_from_slice(v);
        assert(self.0@ =~= old(self).0@ + v@);
    }

    pub fn bytes(&mut self, v: &[u8])
        ensures
            final(self).0@ == old(self).0@ + enc_bytes(v@),
    {
        proof {
            reveal(enc_bytes);
            reveal(le32);
        }
        self.count(v.len());
        self.raw(v);
        assert(self.0@ =~= old(self).0@ + enc_bytes(v@));
    }

    pub fn str(&mut self, v: &str)
        ensures
            final(self).0@ == old(self).0@ + enc_str(v@),
    {
        proof {
            reveal(enc_bytes);
            reveal(le32);
        }
        self.bytes(v.as_bytes());
    }

    pub fn u16s(&mut self, v: &[u16])
        ensures
            final(self).0@ == old(self).0@ + enc_u16s(v@),
    {
        proof {
            reveal(enc_u16s);
            reveal(le32);
        }
        self.count(v.len());
        let ghost base = self.0@;
        let mut i: usize = 0;
        assert(self.0@ =~= base + word_bytes(v@.take(0)));
        while i < v.len()
            invariant
                i <= v.len(),
                self.0@ == base + word_bytes(v@.take(i as int)),
            decreases v.len() - i,
        {
            self.u16(v[i]);
            assert(v@.take(i + 1).drop_last() =~= v@.take(i as int));
            assert(self.0@ =~= base + word_bytes(v@.take(i + 1)));
            i += 1;
        }
        assert(v@.take(v.len() as int) =~= v@);
        assert(self.0@ =~= old(self).0@ + enc_u16s(v@));
    }
}

// ---- reading -------------------------------------------------------------

/// A place in packed data.
pub struct R<'a> {
    pub b: &'a [u8],
    pub p: usize,
}

/// What `String::from_utf8` gives for the bytes `b`: the characters that they
/// encode where they are well-formed UTF-8, nothing otherwise.
#[verifier::external_body]
pub(crate) fn string_from_utf8(b: Vec<u8>) -> (res: Option<String>)
    ensures
        match res {
            Some(s) => valid_utf8(b@) && s@ == decode_utf8(b@),
            None => !valid_utf8(b@),
        },
{
    String::from_utf8(b).ok()
}

impl<'a> R<'a> {
    pub open spec fn wf(&self) -> bool {
        self.p <= self.b@.len()
    }

    /// The bytes that are left.
    pub open spec fn rest(&self) -> Seq<u8> {
        self.b@.skip(self.p as int)
    }

    pub fn take(&mut self, n: usize) -> (res: Result<&'a [u8], PackError>)
        requires
            old(self).wf(),
        ensures
            final(self).wf(),
            match dec_take(n as nat, old(self).rest()) {
                Ok((v, rest)) => (res matches Ok(x) && x@ == v && final(self).rest() == rest),
                Err(m) => (res matches Err(e) && e.0@ == m),
            },
            res matches Ok(x) ==> x@.len() == n,
    {
        proof {
            reveal(dec_take);
        }
        if n > self.b.len() - self.p {
            return Err(PackError("truncated"));
        }
        let s = vstd::slice::slice_subrange(self.b, self.p, self.p + n);
        self.p = self.p + n;
        assert(s@ =~= old(self).rest().take(n as int));
        assert(self.rest() =~= old(self).rest().skip(n as int));
        Ok(s)
    }

    pub fn u8(&mut self) -> (res: Result<u8, PackError>)
        requires
            old(self).wf(),
        ensures
            final(self).wf(),
            match dec_u8(old(self).rest()) {
                Ok((v, rest)) => (res matches Ok(x) && x == v && final(self).rest() == rest),
                Err(m) => (res matches Err(e) && e.0@ == m),
            },
    {
        proof {
            reveal(dec_u8);
            reveal(dec_take);
        }
        let s = self.take(1)?;
        Ok(s[0])
    }

    pub fn i8(&mut self) -> (res: Result<i8, PackError>)
        requires
            old(self).wf(),
        ensures
            final(self).wf(),
            match dec_i8(old(self).rest()) {
                Ok((v, rest)) => (res matches Ok(x) && x == v && final(self).rest() == rest),
                Err(m) => (res matches Err(e) && e.0@ == m),
            },
    {
        proof {
            reveal(dec_i8);
            reveal(dec_u8);
        }
        let v = self.u8()?;
        Ok(signed_byte(v))
    }

    pub fn flag(&mut self) -> (res: Result<bool, PackError>)
        requires
            old(self).wf(),
        ensures
            final(self).wf(),
            match dec_flag(old(self).rest()) {
                Ok((v, rest)) => (res matches Ok(x) && x == v && final(self).rest() == rest),
                Err(m) => (res matches Err(e) && e.0@ == m),
            },
    {
        proof {
            reveal(dec_flag);
            reveal(dec_u8);
        }
        let v = self.u8()?;
        Ok(v != 0)
    }

    pub fn u16(&mut self) -> (res: Result<u16, PackError>)
        requires
            old(self).wf(),
        ensures
            final(self).wf(),
            match dec_u16(old(self).rest()) {
                Ok((v, rest)) => (res matches Ok(x) && x == v && final(self).rest() == rest),
                Err(m) => (res matches Err(e) && e.0@ == m),
            },
    {
        proof {
            reveal(dec_u16);
            reveal(from_le16);
            reveal(dec_take);
        }
        let s = self.take(2)?;
        Ok(s[0] as u16 + 256 * (s[1] as u16))
    }

    pub fn u32(&mut self) -> (res: Result<u32, PackError>)
        requires
            old(self).wf(),
        ensures
            final(self).wf(),
            match dec_u32(old(self).rest()) {
                Ok((v, rest)) => (res matches Ok(x) && x == v && final(self).rest() == rest),
                Err(m) => (res matches Err(e) && e.0@ == m),
            },
    {
        proof {
            reveal(dec_u32);
            reveal(from_le32);
            reveal(dec_take);
        }
        let s = self.take(4)?;
        Ok(s[0] as u32 + 256 * (s[1] as u32) + 65536 * (s[2] as u32) + 16777216 * (s[3] as u32))
    }

    pub fn i32(&mut self) -> (res: Result<i32, PackError>)
        requires
            old(self).wf(),
        ensures
            final(self).wf(),
            match dec_i32(old(self).rest()) {
                Ok((v, rest)) => (res matches Ok(x) && x == v && final(self).rest() == rest),
                Err(m) => (res matches Err(e) && e.0@ == m),
            },
    {
        proof {
            reveal(dec_u32);
            reveal(dec_i32);
            reveal(from_le32);
        }
        let v = self.u32()?;
        Ok(signed_word(v))
    }

    pub fn opt_u32(&mut self) -> (res: Result<Option<u32>, PackError>)
        requires
            old(self).wf(),
        ensures
            final(self).wf(),
            match dec_opt_u32(old(self).rest()) {
                Ok((v, rest)) => (res matches Ok(x) && x == v && final(self).rest() == rest),
                Err(m) => (res matches Err(e) && e.0@ == m),
            },
    {
        proof {
            reveal(dec_u32);
            reveal(dec_opt_u32);
            reveal(from_le32);
        }
        let v = self.u32()?;
        if v == u32::MAX {
            Ok(None)
        } else {
            Ok(Some(v))
        }
    }

    pub fn len(&mut self) -> (res: Result<usize, PackError>)
        requires
            old(self).wf(),
        ensures
            final(self).wf(),
            match dec_len(old(self).rest()) {
                Ok((v, rest)) => (res matches Ok(x) && x == v && final(self).rest() == rest),
                Err(m) => (res matches Err(e) && e.0@ == m),
            },
    {
        proof {
            reveal(dec_u32);
            reveal(dec_len);
            reveal(from_le32);
        }
        let n = self.u32()?;
        if n as u64 > (self.b.len() - self.p) as u64 {
            return Err(PackError("length exceeds data"));
        }
        Ok(n as usize)
    }

    pub fn bytes(&mut self) -> (res: Result<Vec<u8>, PackError>)
        requires
            old(self).wf(),
        ensures
            final(self).wf(),
            match dec_bytes(old(self).rest()) {
                Ok((v, rest)) => (res matches Ok(x) && x@ == v && final(self).rest() == rest),
                Err(m) => (res matches Err(e) && e.0@ == m),
            },
    {
        proof {
            reveal(dec_u32);
            reveal(dec_len);
            reveal(dec_take);
            reveal(dec_bytes);
            reveal(from_le32);
        }
        let n = self.len()?;
        let s = self.take(n)?;
        Ok(vstd::slice::slice_to_vec(s))
    }

    pub fn str(&mut self) -> (res: Result<String, PackError>)
        requires
            old(self).wf(),
        ensures
            final(self).wf(),
            match dec_str(old(self).rest()) {
                Ok((v, rest)) => (res matches Ok(x) && x@ == v && final(self).rest() == rest),
                Err(m) => (res matches Err(e) && e.0@ == m),
            },
    {
        proof {
            reveal(dec_u32);
            reveal(dec_len);
            reveal(dec_take);
            reveal(dec_bytes);
            reveal(dec_str);
            reveal(from_le32);
        }
        let b = self.bytes()?;
        match string_from_utf8(b) {
            Some(s) => Ok(s),
            None => Err(PackError("bad utf8")),
        }
    }

    pub fn u16s(&mut self) -> (res: Result<Vec<u16>, PackError>)
        requires
            old(self).wf(),
        ensures
            final(self).wf(),
            match dec_u16s(old(self).rest()) {
                Ok((v, rest)) => (res matches Ok(x) && x@ == v && final(self).rest() == rest),
                Err(m) => (res matches Err(e) && e.0@ == m),
            },
    {
        proof {
            reveal(dec_u32);
            reveal(dec_len);
            reveal(dec_take);
            reveal(dec_u16s);
            reveal(from_le32);
        }
        let n = self.len()?;
        if n > (self.b.len() - self.p) / 2 {
            return Err(PackError("truncated"));
        }
        let s = self.take(n * 2)?;
        Ok(words(s))
    }
}

pub fn signed_byte(v: u8) -> (r: i8)
    ensures
        r == signed8(v),
{
    if v >= 128 {
        (v as i16 - 256) as i8
    } else {
        v as i8
    }
}

pub fn signed_word(v: u32) -> (r: i32)
    ensures
        r == signed32(v),
{
    if v >= 0x8000_0000 {
        (v as i64 - 0x1_0000_0000) as i32
    } else {
        v as i32
    }
}

/// The whole 16-bit words in a run of bytes; an odd byte at the end is left.
pub fn words(s: &[u8]) -> (out: Vec<u16>)
    ensures
        out@ == words_of(s@),
{
    let mut out: Vec<u16> = Vec::new();
    let n: usize = s.len() / 2;
    let mut i: usize = 0;
    while i < n
        invariant
            i <= n,
            n == s@.len() / 2,
            2 * n <= usize::MAX,
            out@.len() == i,
            forall|k: int| 0 <= k < i ==> #[trigger] out@[k] == from_le16(s@.skip(2 * k)),
        decreases n - i,
    {
        proof {
            reveal(from_le16);
        }
        out.push(s[2 * i] as u16 + 256 * (s[2 * i + 1] as u16));
        i += 1;
    }
    assert(out@ =~= words_of(s@));
    out
}

/// Whether two runs of bytes are the same.
pub fn same_bytes(a: &[u8], b: &[u8]) -> (r: bool)
    ensures
        r == (a@ == b@),
{
    if a.len() != b.len() {
        return false;
    }
    let mut i: usize = 0;
    while i < a.len()
        invariant
            i <= a.len(),
            a@.len() == b@.len(),
            forall|k: int| 0 <= k < i ==> a@[k] == b@[k],
        decreases a.len() - i,
    {
        if a[i] != b[i] {
            return false;
        }
        i += 1;
    }
    assert(a@ =~= b@);
    true
}

/// The bytes of a slice as an array.
pub fn array4(s: &[u8]) -> (a: [u8; 4])
    requires
        s@.len() == 4,
    ensures
        a@ == s@,
{
    let a = [s[0], s[1], s[2], s[3]];
    assert(a@ =~= s@);
    a
}

/// The bytes of a slice as an array.
pub fn array32(s: &[u8]) -> (a: [u8; 32])
    requires
        s@.len() == 32,
    ensures
        a@ == s@,
{
    let mut a = [0u8; 32];
    let mut i: usize = 0;
    while i < 32
        invariant
            i <= 32,
            s@.len() == 32,
            forall|k: int| 0 <= k < i ==> a@[k] == s@[k],
        decreases 32 - i,
    {
        a[i] = s[i];
        i += 1;
    }
    assert(a@ =~= s@);
    a
}

/// The bytes of a slice as an array.
pub fn array128(s: &[u8]) -> (a: [u8; 128])
    requires
        s@.len() == 128,
    ensures
        a@ == s@,
{
    let mut a = [0u8; 128];
    let mut i: usize = 0;
    while i < 128
        invariant
            i <= 128,
            s@.len() == 128,
            forall|k: int| 0 <= k < i ==> a@[k] == s@[k],
        decreases 128 - i,
    {
        a[i] = s[i];
        i += 1;
    }
    assert(a@ =~= s@);
    a
}

/// The bytes of a slice as an array.
pub fn array256(s: &[u8]) -> (a: [u8; 256])
    requires
        s@.len() == 256,
    ensures
        a@ == s@,
{
    let mut a = [0u8; 256];
    let mut i: usize = 0;
    while i < 256
        invariant
            i <= 256,
            s@.len() == 256,
            forall|k: int| 0 <= k < i ==> a@[k] == s@[k],
        decreases 256 - i,
    {
        a[i] = s[i];
        i += 1;
    }
    assert(a@ =~= s@);
    a
}

// ---- items and lists -----------------------------------------------------

/// An item of a pack: what it models, how that is laid out, and the two
/// functions that write and read it.
pub trait Wire: Sized {
    /// The item as a mathematical value.
    type M;

    spec fn model(&self) -> Self::M;

    spec fn enc(m: Self::M) -> Seq<u8>;

    spec fn dec(s: Seq<u8>) -> Dec<Self::M>;

    /// Whether every length in the item fits its 32-bit field and every value
    /// that the reader tests passes its test.
    spec fn fits(m: Self::M) -> bool;

    /// What was written is read back, and nothing after it is touched.
    proof fn dec_enc(m: Self::M, post: Seq<u8>)
        requires
            Self::fits(m),
        ensures
            Self::dec(Self::enc(m) + post) == Ok::<(Self::M, Seq<u8>), Seq<char>>((m, post)),
    ;

    /// Bytes behind those that an item was read from change nothing.
    proof fn dec_more(s: Seq<u8>, t: Seq<u8>)
        ensures
            extends(Self::dec(s), Self::dec(s + t), t),
    ;

    fn write(&self, w: &mut W)
        ensures
            final(w).0@ == old(w).0@ + Self::enc(self.model()),
    ;

    fn read(r: &mut R<'_>) -> (res: Result<Self, PackError>)
        requires
            old(r).wf(),
        ensures
            final(r).wf(),
            match Self::dec(old(r).rest()) {
                Ok((m, rest)) => (res matches Ok(v) && v.model() == m && final(r).rest() == rest),
                Err(m) => (res matches Err(e) && e.0@ == m),
            },
    ;
}

/// What a list of items models.
pub open spec fn models<T: Wire>(v: Seq<T>) -> Seq<T::M> {
    Seq::new(v.len(), |i: int| v[i].model())
}

/// The encodings of a run of items, one after the other.
pub open spec fn enc_run<T: Wire>(ms: Seq<T::M>) -> Seq<u8>
    decreases ms.len(),
{
    if ms.len() == 0 {
        seq![]
    } else {
        enc_run::<T>(ms.drop_last()) + T::enc(ms.last())
    }
}

/// A counted list.
#[verifier::opaque]
pub open spec fn enc_list<T: Wire>(ms: Seq<T::M>) -> Seq<u8> {
    le32(len32(ms.len())) + enc_run::<T>(ms)
}

/// The next `n` items.
pub open spec fn dec_run<T: Wire>(n: nat, s: Seq<u8>) -> Dec<Seq<T::M>>
    decreases n,
{
    if n == 0 {
        Ok((seq![], s))
    } else {
        match dec_run::<T>((n - 1) as nat, s) {
            Ok((ms, r)) => match T::dec(r) {
                Ok((m, r2)) => Ok((ms.push(m), r2)),
                Err(e) => Err(e),
            },
            Err(e) => Err(e),
        }
    }
}

#[verifier::opaque]
pub open spec fn dec_list<T: Wire>(s: Seq<u8>) -> Dec<Seq<T::M>> {
    match dec_u32(s) {
        Ok((n, r)) => dec_run::<T>(n as nat, r),
        Err(e) => Err(e),
    }
}

pub open spec fn fits_list<T: Wire>(ms: Seq<T::M>) -> bool {
    &&& ms.len() < 0x1_0000_0000
    &&& forall|i: int| 0 <= i < ms.len() ==> T::fits(#[trigger] ms[i])
}

proof fn lemma_dec_run<T: Wire>(ms: Seq<T::M>, post: Seq<u8>)
    requires
        forall|i: int| 0 <= i < ms.len() ==> T::fits(#[trigger] ms[i]),
    ensures
        dec_run::<T>(ms.len(), enc_run::<T>(ms) + post) == Ok::<
            (Seq<T::M>, Seq<u8>),
            Seq<char>,
        >((ms, post)),
    decreases ms.len(),
{
    if ms.len() == 0 {
        assert(enc_run::<T>(ms) + post =~= post);
        assert(ms =~= seq![]);
    } else {
        let front = ms.drop_last();
        let tail = T::enc(ms.last()) + post;
        assert(enc_run::<T>(ms) + post =~= enc_run::<T>(front) + tail);
        lemma_dec_run::<T>(front, tail);
        T::dec_enc(ms.last(), post);
        assert(front.push(ms.last()) =~= ms);
    }
}

pub proof fn lemma_dec_list<T: Wire>(ms: Seq<T::M>, post: Seq<u8>)
    requires
        fits_list::<T>(ms),
    ensures
        dec_list::<T>(enc_list::<T>(ms) + post) == Ok::<(Seq<T::M>, Seq<u8>), Seq<char>>(
            (ms, post),
        ),
{
    reveal(enc_list);
    reveal(dec_list);
    let body = enc_run::<T>(ms) + post;
    assert(enc_list::<T>(ms) + post =~= le32(len32(ms.len())) + body);
    lemma_dec_u32(len32(ms.len()), body);
    lemma_dec_run::<T>(ms, post);
}

/// A fault in a run stays a fault however many items follow.
proof fn lemma_dec_run_fault<T: Wire>(n: nat, m: nat, s: Seq<u8>)
    requires
        n <= m,
        dec_run::<T>(n, s) is Err,
    ensures
        dec_run::<T>(m, s) == dec_run::<T>(n, s),
    decreases m,
{
    if n < m {
        lemma_dec_run_fault::<T>(n, (m - 1) as nat, s);
    }
}

proof fn lemma_more_run<T: Wire>(n: nat, s: Seq<u8>, t: Seq<u8>)
    ensures
        extends(dec_run::<T>(n, s), dec_run::<T>(n, s + t), t),
    decreases n,
{
    if n > 0 {
        lemma_more_run::<T>((n - 1) as nat, s, t);
        if let Ok((ms, r)) = dec_run::<T>((n - 1) as nat, s) {
            T::dec_more(r, t);
        }
    }
}

pub proof fn lemma_more_list<T: Wire>(s: Seq<u8>, t: Seq<u8>)
    ensures
        extends(dec_list::<T>(s), dec_list::<T>(s + t), t),
{
    reveal(dec_list);
    lemma_more_u32(s, t);
    if let Ok((n, r)) = dec_u32(s) {
        lemma_more_run::<T>(n as nat, r, t);
    }
}

pub fn write_list<T: Wire>(v: &Vec<T>, w: &mut W)
    ensures
        final(w).0@ == old(w).0@ + enc_list::<T>(models(v@)),
{
    proof {
        reveal(enc_list);
    }
    w.count(v.len());
    let ghost base = w.0@;
    let ghost ms = models(v@);
    let mut i: usize = 0;
    assert(w.0@ =~= base + enc_run::<T>(ms.take(0)));
    while i < v.len()
        invariant
            i <= v.len(),
            ms == models(v@),
            w.0@ == base + enc_run::<T>(ms.take(i as int)),
        decreases v.len() - i,
    {
        v[i].write(w);
        assert(ms.take(i + 1).drop_last() =~= ms.take(i as int));
        assert(ms.take(i + 1).last() == v@[i as int].model());
        assert(w.0@ =~= base + enc_run::<T>(ms.take(i + 1)));
        i += 1;
    }
    assert(ms.take(v.len() as int) =~= ms);
    assert(w.0@ =~= old(w).0@ + enc_list::<T>(ms));
}

pub fn read_list<T: Wire>(r: &mut R<'_>) -> (res: Result<Vec<T>, PackError>)
    requires
        old(r).wf(),
    ensures
        final(r).wf(),
        match dec_list::<T>(old(r).rest()) {
            Ok((ms, rest)) => (res matches Ok(v) && models(v@) == ms && final(r).rest() == rest),
            Err(m) => (res matches Err(e) && e.0@ == m),
        },
{
    proof {
        reveal(dec_list);
    }
    let n = r.u32()?;
    let ghost start = r.rest();
    let mut out: Vec<T> = Vec::new();
    let mut i: u32 = 0;
    assert(models(out@) =~= seq![]);
    while i < n
        invariant
            i <= n,
            r.wf(),
            dec_run::<T>(i as nat, start) == Ok::<(Seq<T::M>, Seq<u8>), Seq<char>>(
                (models(out@), r.rest()),
            ),
            dec_list::<T>(old(r).rest()) == dec_run::<T>(n as nat, start),
        decreases n - i,
    {
        let ghost before = models(out@);
        let ghost left = r.rest();
        proof {
            if T::dec(left) is Err {
                lemma_dec_run_fault::<T>((i + 1) as nat, n as nat, start);
            }
        }
        let item = T::read(r)?;
        out.push(item);
        assert(models(out@) =~= before.push(item.model()));
        i += 1;
    }
    Ok(out)
}

} // verus!
