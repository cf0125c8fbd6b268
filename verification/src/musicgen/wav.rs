//! Samples from RIFF files: 8-bit unsigned mono PCM. The `smpl` chunk gives
//! the loop (its end stored inclusive); the custom `agbp` chunk is the exact
//! pitch (rate * 1024) and `agbl` the exact loop end, and both beat the header
//! values. Data past the loop end never plays, so it is trimmed.

use vstd::prelude::*;
use crate::audio::data::SampleData;
use crate::single;
use crate::single::{bits_of, bits_of_1024ths};

verus! {

/// What reading a file came to.
pub enum Wav {
    Sample(SampleData),
    /// The bytes are no such file, or not of the shape that plays.
    Refused,
    /// A chunk is too short for what it should hold, or a loop end has no
    /// place in 32 bits.
    Broken,
}

/// What the chunks so far have told.
#[verifier::ext_equal]
pub struct Told {
    /// The bits of the rate.
    pub rate: Option<u32>,
    pub pcm: Option<Seq<i8>>,
    pub loop_start: Option<u32>,
    /// The end that the sampler chunk gives.
    pub loop_end: Option<u32>,
    /// The end that a chunk of its own gives.
    pub exact_end: Option<u32>,
}

/// Where the samples end: at the exact end, or else at that of the sampler.
pub open spec fn end_of(t: Told) -> Option<u32> {
    match t.exact_end {
        Some(e) => Some(e),
        None => t.loop_end,
    }
}

pub enum Step {
    Next(Told),
    Refused,
    Broken,
}

pub open spec fn word(d: Seq<u8>, i: int) -> int {
    d[i] + 256 * d[i + 1]
}

pub open spec fn long(d: Seq<u8>, i: int) -> int {
    d[i] + 256 * d[i + 1] + 65536 * d[i + 2] + 16777216 * d[i + 3]
}

pub open spec fn tag_at(d: Seq<u8>, i: int, t: Seq<u8>) -> bool {
    d.subrange(i, i + 4) == t
}

/// The samples of unsigned bytes, around zero.
pub open spec fn centred(b: Seq<u8>) -> Seq<i8> {
    Seq::new(b.len(), |i: int| (b[i] - 128) as i8)
}

/// The format chunk: only one channel of 8-bit PCM will do; the first gives
/// the rate, unless a pitch came before it.
pub open spec fn after_format(d: Seq<u8>, t: Told, b: int) -> Step {
    if b + 16 > d.len() {
        Step::Broken
    } else if word(d, b) != 1 || word(d, b + 2) != 1 || word(d, b + 14) != 8 {
        Step::Refused
    } else {
        Step::Next(
            Told {
                rate: match t.rate {
                    Some(r) => Some(r),
                    None => Some(single::single_of(long(d, b + 4) as u32) as u32),
                },
                ..t
            },
        )
    }
}

/// The sampler chunk: its first loop, where that is a plain one.
pub open spec fn after_sampler(d: Seq<u8>, t: Told, b: int, sz: int) -> Step {
    if b + 32 > d.len() {
        Step::Broken
    } else if long(d, b + 28) > 0 && sz >= 60 && long(d, b + 40) == 0 {
        if long(d, b + 48) == u32::MAX {
            Step::Broken
        } else {
            Step::Next(
                Told {
                    loop_start: Some(long(d, b + 44) as u32),
                    loop_end: Some((long(d, b + 48) + 1) as u32),
                    ..t
                },
            )
        }
    } else {
        Step::Next(t)
    }
}

/// One chunk, by its tag.
pub open spec fn after_chunk(d: Seq<u8>, t: Told, i: int) -> Step {
    let sz = long(d, i + 4);
    let b = i + 8;
    if b + sz > d.len() {
        Step::Refused
    } else if tag_at(d, i, seq![0x66u8, 0x6Du8, 0x74u8, 0x20u8]) {
        after_format(d, t, b)
    } else if tag_at(d, i, seq![0x73u8, 0x6Du8, 0x70u8, 0x6Cu8]) {
        after_sampler(d, t, b, sz)
    } else if tag_at(d, i, seq![0x61u8, 0x67u8, 0x62u8, 0x70u8]) && sz >= 4 {
        Step::Next(Told { rate: Some(single::single_of_1024ths(long(d, b) as u32) as u32), ..t })
    } else if tag_at(d, i, seq![0x61u8, 0x67u8, 0x62u8, 0x6Cu8]) && sz >= 4 {
        Step::Next(Told { exact_end: Some(long(d, b) as u32), ..t })
    } else if tag_at(d, i, seq![0x64u8, 0x61u8, 0x74u8, 0x61u8]) {
        Step::Next(Told { pcm: Some(centred(d.subrange(b, b + sz))), ..t })
    } else {
        Step::Next(t)
    }
}

/// The chunks from place `i` on; each begins at an even distance.
pub open spec fn after_chunks(d: Seq<u8>, t: Told, i: int) -> Step
    decreases d.len() + 1 - i,
{
    if i + 8 > d.len() {
        Step::Next(t)
    } else {
        match after_chunk(d, t, i) {
            Step::Next(u) => after_chunks(
                d,
                u,
                i + 8 + long(d, i + 4) + long(d, i + 4) % 2,
            ),
            other => other,
        }
    }
}

/// Samples up to a loop end.
pub open spec fn trimmed(p: Seq<i8>, end: Option<u32>) -> Seq<i8> {
    match end {
        Some(e) => if e < p.len() {
            p.take(e as int)
        } else {
            p
        },
        None => p,
    }
}

pub enum SampleResult {
    Sample { rate: u32, loop_start: Option<u32>, pcm: Seq<i8> },
    Refused,
    Broken,
}

/// The sample that the bytes of a file hold.
pub open spec fn sample_of(d: Seq<u8>) -> SampleResult {
    if d.len() < 12 || !tag_at(d, 0, seq![0x52u8, 0x49u8, 0x46u8, 0x46u8]) || !tag_at(
        d,
        8,
        seq![0x57u8, 0x41u8, 0x56u8, 0x45u8],
    ) {
        SampleResult::Refused
    } else {
        let none = Told {
            rate: None,
            pcm: None,
            loop_start: None,
            loop_end: None,
            exact_end: None,
        };
        match after_chunks(d, none, 12) {
            Step::Refused => SampleResult::Refused,
            Step::Broken => SampleResult::Broken,
            Step::Next(t) => if t.rate is None || t.pcm is None {
                SampleResult::Refused
            } else {
                SampleResult::Sample {
                    rate: t.rate->0,
                    loop_start: t.loop_start,
                    pcm: trimmed(t.pcm->0, end_of(t)),
                }
            },
        }
    }
}

// ---- reading -------------------------------------------------------------

struct Heard {
    rate: Option<u32>,
    pcm: Option<Vec<i8>>,
    loop_start: Option<u32>,
    loop_end: Option<u32>,
    exact_end: Option<u32>,
}

impl Heard {
    spec fn model(&self) -> Told {
        Told {
            rate: self.rate,
            pcm: match self.pcm {
                Some(p) => Some(p@),
                None => None,
            },
            loop_start: self.loop_start,
            loop_end: self.loop_end,
            exact_end: self.exact_end,
        }
    }
}

enum Outcome {
    Next,
    Refused,
    Broken,
}

spec fn agrees(o: Outcome, h: Heard, s: Step) -> bool {
    match s {
        Step::Next(t) => o is Next && h.model() == t,
        Step::Refused => o is Refused,
        Step::Broken => o is Broken,
    }
}

fn read_word(d: &[u8], i: usize) -> (v: u16)
    requires
        i + 2 <= d@.len(),
    ensures
        v == word(d@, i as int),
{
    let n: usize = d.len();
    d[i] as u16 + 256 * (d[i + 1] as u16)
}

fn read_long(d: &[u8], i: usize) -> (v: u32)
    requires
        i + 4 <= d@.len(),
    ensures
        v == long(d@, i as int),
{
    let n: usize = d.len();
    d[i] as u32 + 256 * (d[i + 1] as u32) + 65536 * (d[i + 2] as u32) + 16777216 * (d[i
        + 3] as u32)
}

fn has_tag(d: &[u8], i: usize, t: [u8; 4]) -> (r: bool)
    requires
        i + 4 <= d@.len(),
    ensures
        r == tag_at(d@, i as int, t@),
{
    let n: usize = d.len();
    let ghost s = d@.subrange(i as int, i + 4);
    assert(s[0] == d@[i as int] && s[1] == d@[i + 1] && s[2] == d@[i + 2] && s[3] == d@[i + 3]);
    let r = d[i] == t[0] && d[i + 1] == t[1] && d[i + 2] == t[2] && d[i + 3] == t[3];
    if r {
        assert(s =~= t@);
    }
    r
}

fn centre(d: &[u8], a: usize, b: usize) -> (p: Vec<i8>)
    requires
        a <= b <= d@.len(),
    ensures
        p@ == centred(d@.subrange(a as int, b as int)),
{
    let mut p: Vec<i8> = Vec::new();
    let mut i: usize = a;
    while i < b
        invariant
            a <= i <= b <= d@.len(),
            p@ == centred(d@.subrange(a as int, i as int)),
        decreases b - i,
    {
        p.push((d[i] as i16 - 128) as i8);
        assert(p@ =~= centred(d@.subrange(a as int, i + 1)));
        i += 1;
    }
    p
}

fn hear(d: &[u8], h: &mut Heard, i: usize) -> (o: Outcome)
    requires
        i + 8 <= d@.len(),
        d@.len() <= i64::MAX,
    ensures
        agrees(o, *final(h), after_chunk(d@, old(h).model(), i as int)),
{
    let n: usize = d.len();
    let sz: u32 = read_long(d, i + 4);
    let b: usize = i + 8;
    if sz as u64 > (n - b) as u64 {
        return Outcome::Refused;
    }
    if has_tag(d, i, [0x66, 0x6D, 0x74, 0x20]) {
        assert([0x66u8, 0x6Du8, 0x74u8, 0x20u8]@ =~= seq![0x66u8, 0x6Du8, 0x74u8, 0x20u8]);
        if n - b < 16 {
            return Outcome::Broken;
        }
        if read_word(d, b) != 1 || read_word(d, b + 2) != 1 || read_word(d, b + 14) != 8 {
            return Outcome::Refused;
        }
        if h.rate.is_none() {
            h.rate = Some(bits_of(read_long(d, b + 4)));
        }
        return Outcome::Next;
    }
    assert([0x66u8, 0x6Du8, 0x74u8, 0x20u8]@ =~= seq![0x66u8, 0x6Du8, 0x74u8, 0x20u8]);
    if has_tag(d, i, [0x73, 0x6D, 0x70, 0x6C]) {
        assert([0x73u8, 0x6Du8, 0x70u8, 0x6Cu8]@ =~= seq![0x73u8, 0x6Du8, 0x70u8, 0x6Cu8]);
        if n - b < 32 {
            return Outcome::Broken;
        }
        if read_long(d, b + 28) > 0 && sz >= 60 && read_long(d, b + 40) == 0 {
            let end: u32 = read_long(d, b + 48);
            if end == u32::MAX {
                return Outcome::Broken;
            }
            h.loop_start = Some(read_long(d, b + 44));
            h.loop_end = Some(end + 1);
        }
        return Outcome::Next;
    }
    assert([0x73u8, 0x6Du8, 0x70u8, 0x6Cu8]@ =~= seq![0x73u8, 0x6Du8, 0x70u8, 0x6Cu8]);
    assert([0x61u8, 0x67u8, 0x62u8, 0x70u8]@ =~= seq![0x61u8, 0x67u8, 0x62u8, 0x70u8]);
    assert([0x61u8, 0x67u8, 0x62u8, 0x6Cu8]@ =~= seq![0x61u8, 0x67u8, 0x62u8, 0x6Cu8]);
    assert([0x64u8, 0x61u8, 0x74u8, 0x61u8]@ =~= seq![0x64u8, 0x61u8, 0x74u8, 0x61u8]);
    if has_tag(d, i, [0x61, 0x67, 0x62, 0x70]) && sz >= 4 {
        h.rate = Some(bits_of_1024ths(read_long(d, b)));
    } else if has_tag(d, i, [0x61, 0x67, 0x62, 0x6C]) && sz >= 4 {
        h.exact_end = Some(read_long(d, b));
    } else if has_tag(d, i, [0x64, 0x61, 0x74, 0x61]) {
        h.pcm = Some(centre(d, b, b + sz as usize));
    }
    Outcome::Next
}

/// The sample in the bytes of a file, under a name.
pub fn scan_wav(d: &[u8], name: &str) -> (r: Wav)
    requires
        d@.len() <= i64::MAX,
    ensures
        match sample_of(d@) {
            SampleResult::Sample { rate, loop_start, pcm } => r matches Wav::Sample(s) && s.name@
                == name@ && s.rate == rate && s.loop_start == loop_start && s.pcm@ == pcm,
            SampleResult::Refused => r is Refused,
            SampleResult::Broken => r is Broken,
        },
{
    assert([0x52u8, 0x49u8, 0x46u8, 0x46u8]@ =~= seq![0x52u8, 0x49u8, 0x46u8, 0x46u8]);
    assert([0x57u8, 0x41u8, 0x56u8, 0x45u8]@ =~= seq![0x57u8, 0x41u8, 0x56u8, 0x45u8]);
    let n: usize = d.len();
    if n < 12 || !has_tag(d, 0, [0x52, 0x49, 0x46, 0x46]) || !has_tag(
        d,
        8,
        [0x57, 0x41, 0x56, 0x45],
    ) {
        return Wav::Refused;
    }
    let mut h = Heard {
        rate: None,
        pcm: None,
        loop_start: None,
        loop_end: None,
        exact_end: None,
    };
    let ghost none = h.model();
    let mut i: u64 = 12;
    while i + 8 <= n as u64
        invariant
            n == d@.len(),
            n <= i64::MAX,
            i <= n + 0x1_0000_0001,
            after_chunks(d@, none, 12) == after_chunks(d@, h.model(), i as int),
            sample_of(d@) == (match after_chunks(d@, none, 12) {
                Step::Refused => SampleResult::Refused,
                Step::Broken => SampleResult::Broken,
                Step::Next(t) => if t.rate is None || t.pcm is None {
                    SampleResult::Refused
                } else {
                    SampleResult::Sample {
                        rate: t.rate->0,
                        loop_start: t.loop_start,
                        pcm: trimmed(t.pcm->0, end_of(t)),
                    }
                },
            }),
        decreases n + 0x2_0000_0000 - i,
    {
        match hear(d, &mut h, i as usize) {
            Outcome::Next => {},
            Outcome::Refused => return Wav::Refused,
            Outcome::Broken => return Wav::Broken,
        }
        let sz: u64 = read_long(d, (i + 4) as usize) as u64;
        i = i + 8 + sz + sz % 2;
    }
    let rate: u32 = match h.rate {
        Some(r) => r,
        None => return Wav::Refused,
    };
    let mut pcm = match h.pcm {
        Some(p) => p,
        None => return Wav::Refused,
    };
    let ghost all = pcm@;
    let end: Option<u32> = match h.exact_end {
        Some(e) => Some(e),
        None => h.loop_end,
    };
    if let Some(end) = end {
        if (end as u64) < pcm.len() as u64 {
            pcm.truncate(end as usize);
            assert(pcm@ =~= all.take(end as int));
        }
    }
    Wav::Sample(
        SampleData { name: name.to_owned(), rate, loop_start: h.loop_start, pcm },
    )
}

/// Read a file none of whose chunks is too short.
pub fn parse_wav(d: &[u8], name: &str) -> (r: Option<SampleData>)
    requires
        d@.len() <= i64::MAX,
        !(sample_of(d@) is Broken),
    ensures
        match sample_of(d@) {
            SampleResult::Sample { rate, loop_start, pcm } => r matches Some(s) && s.name@ == name@
                && s.rate == rate && s.loop_start == loop_start && s.pcm@ == pcm,
            _ => r is None,
        },
{
    match scan_wav(d, name) {
        Wav::Sample(s) => Some(s),
        _ => None,
    }
}

// ---- laws ----------------------------------------------------------------

/// The exact values beat those of the header, in whatever order the chunks
/// come: a format chunk never changes a rate that was told, and a sampler chunk
/// never changes where the samples end once the exact end was told.
pub proof fn exact_values_win(d: Seq<u8>, t: Told, i: int)
    ensures
        t.rate is Some ==> (after_format(d, t, i) matches Step::Next(u) ==> u.rate == t.rate),
        t.exact_end is Some ==> forall|sz: int|
            (#[trigger] after_sampler(d, t, i, sz)) matches Step::Next(u) ==> end_of(u) == end_of(
                t,
            ),
{
}

/// An exact end that was told among the chunks is where the samples end.
pub proof fn an_exact_end_stays(d: Seq<u8>, t: Told, i: int)
    requires
        t.exact_end is Some,
    ensures
        after_chunks(d, t, i) matches Step::Next(u) ==> u.exact_end is Some && end_of(u)
            == u.exact_end,
    decreases d.len() + 1 - i,
{
    if i + 8 <= d.len() {
        if let Step::Next(u) = after_chunk(d, t, i) {
            an_exact_end_stays(d, u, i + 8 + long(d, i + 4) + long(d, i + 4) % 2);
        }
    }
}

} // verus!
