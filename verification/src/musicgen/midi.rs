//! Standard MIDI files as tick-exact event streams: velocities quantised,
//! the master volume folded into volume events, notes with their durations,
//! loop points from the `[` and `]` markers.

use vstd::prelude::*;
use crate::codec;
use crate::codec::signed_byte;
use crate::audio::data::{Event, EventKind};

verus! {

/// What a file holds: ticks per beat, tempos, loop start and end, tracks.
pub type ParsedMidi = (u16, Vec<(u32, u32)>, Option<u32>, Option<u32>, Vec<Vec<Event>>);

/// What reading a file came to.
pub enum Midi {
    Parsed(ParsedMidi),
    /// The bytes are no such file.
    Refused,
    /// A number in the file has no place in the event stream: a tick past 32
    /// bits, a pan outside its range, a track head cut short.
    Broken,
}

// ---- the model -----------------------------------------------------------

/// A file as a value.
#[verifier::ext_equal]
pub struct Score {
    pub division: u16,
    pub tempos: Seq<(u32, u32)>,
    pub loop_start: Option<u32>,
    pub loop_end: Option<u32>,
    pub tracks: Seq<Seq<Event>>,
}

pub enum ScoreResult {
    Parsed(Score),
    Refused,
    Broken,
}

/// A track while it is read.
#[verifier::ext_equal]
pub struct Reading {
    /// Where the next message begins.
    pub j: int,
    pub tick: int,
    /// The status in force where a message gives none.
    pub running: u8,
    pub events: Seq<Event>,
    /// The places in `events` of the notes still held, in the order in which
    /// they began.
    pub held: Seq<int>,
    pub tempos: Seq<(u32, u32)>,
    pub loop_start: Option<u32>,
    pub loop_end: Option<u32>,
}

pub enum Step {
    Next(Reading),
    Refused,
    Broken,
}

/// A variable-length number: seven bits to a byte, the highest first, the
/// last byte below 128; the low 32 bits of it, and where it ends.
pub open spec fn varlen(d: Seq<u8>, j: int, acc: int) -> Option<(int, int)>
    decreases d.len() - j,
{
    if j < 0 || j >= d.len() {
        None
    } else {
        let v = (acc * 128 + d[j] % 128) % 0x1_0000_0000;
        if d[j] < 128 {
            Some((v, j + 1))
        } else {
            varlen(d, j + 1, v)
        }
    }
}

/// The velocity steps of the hardware: up to the next multiple of four, at
/// most 127.
pub open spec fn velocity(v: u8) -> u8 {
    if v == 0 {
        0
    } else if v > 124 {
        127
    } else {
        ((v + 3) / 4 * 4) as u8
    }
}

/// The note-off of key `k` ends the earliest note of that key still held.
pub open spec fn first_held(events: Seq<Event>, held: Seq<int>, k: u8, from: int) -> Option<int>
    decreases held.len() - from,
{
    if from < 0 || from >= held.len() {
        None
    } else if events[held[from]].kind matches EventKind::Note { key, .. } && key == k {
        Some(from)
    } else {
        first_held(events, held, k, from + 1)
    }
}

/// An event with its duration set.
pub open spec fn lasting(e: Event, until: int) -> Event {
    match e.kind {
        EventKind::Note { key, vel, dur } => Event {
            tick: e.tick,
            kind: EventKind::Note { key, vel, dur: (until - e.tick) as u32 },
        },
        _ => e,
    }
}

/// Division that rounds toward zero.
pub open spec fn toward_zero(a: int, b: int) -> int {
    if a >= 0 {
        a / b
    } else {
        -((-a) / b)
    }
}

/// The low byte of a number, signed.
pub open spec fn low_byte(q: int) -> i8 {
    codec::signed8((q % 256) as u8)
}

/// The bend of a wheel message: 14 bits around their middle, over 128. A data
/// byte past 127 sets the bit that it shares with the other.
pub open spec fn bend_of(p1: u8, p2: u8) -> i8 {
    let shared: int = if p1 >= 128 && p2 % 2 == 0 {
        128
    } else {
        0
    };
    low_byte(toward_zero(p2 * 128 + p1 % 128 + shared - 8192, 128))
}

/// What a controller message adds; nothing where it is not played.
pub open spec fn control_of(p1: u8, p2: u8, mvl: u8) -> Option<EventKind> {
    if p1 == 7 {
        Some(EventKind::Volume((p2 * mvl / 127 % 256) as u8))
    } else if p1 == 10 {
        Some(EventKind::Pan((codec::signed8(p2) - 64) as i8))
    } else if p1 == 1 {
        Some(EventKind::Mod(p2))
    } else if p1 == 20 {
        Some(EventKind::BendRange(p2))
    } else if p1 == 21 {
        Some(EventKind::LfoSpeed(p2))
    } else {
        None
    }
}

pub open spec fn with_event(s: Reading, k: EventKind) -> Reading {
    Reading { events: s.events.push(Event { tick: s.tick as u32, kind: k }), ..s }
}

/// A channel message with two data bytes.
pub open spec fn after_channel(s: Reading, hi: int, p1: u8, p2: u8, mvl: u8) -> Step {
    if hi == 0x90 && p2 > 0 {
        let t = with_event(s, EventKind::Note { key: p1, vel: velocity(p2), dur: 0 });
        Step::Next(Reading { held: s.held.push(s.events.len() as int), ..t })
    } else if hi == 0x80 || hi == 0x90 {
        match first_held(s.events, s.held, p1, 0) {
            None => Step::Next(s),
            Some(n) => {
                let slot = s.held[n];
                Step::Next(
                    Reading {
                        events: s.events.update(slot, lasting(s.events[slot], s.tick)),
                        held: s.held.remove(n),
                        ..s
                    },
                )
            },
        }
    } else if hi == 0xB0 {
        if p1 == 10 && codec::signed8(p2) < -64 {
            Step::Broken
        } else {
            match control_of(p1, p2, mvl) {
                None => Step::Next(s),
                Some(k) => Step::Next(with_event(s, k)),
            }
        }
    } else if hi == 0xE0 {
        Step::Next(with_event(s, EventKind::Bend(bend_of(p1, p2))))
    } else {
        Step::Next(s)
    }
}

/// A meta event: tempos and loop markers are kept.
pub open spec fn after_meta(d: Seq<u8>, s: Reading) -> Step {
    if s.j + 1 >= d.len() || s.j + 2 + d[s.j + 1] > d.len() {
        Step::Refused
    } else {
        let kind = d[s.j];
        let len = d[s.j + 1] as int;
        let b = s.j + 2;
        let t = Reading { j: b + len, ..s };
        if kind == 0x51 && len == 3 {
            let us = (d[b] * 65536 + d[b + 1] * 256 + d[b + 2]) as u32;
            Step::Next(Reading { tempos: s.tempos.push((s.tick as u32, us)), ..t })
        } else if kind == 0x06 && len == 1 && d[b] == 0x5B {
            Step::Next(Reading { loop_start: Some(s.tick as u32), ..t })
        } else if kind == 0x06 && len == 1 && d[b] == 0x5D {
            Step::Next(Reading { loop_end: Some(s.tick as u32), ..t })
        } else {
            Step::Next(t)
        }
    }
}

/// What follows a status byte.
pub open spec fn after_status(d: Seq<u8>, s: Reading, st: u8, mvl: u8) -> Step {
    if st == 0xFF {
        after_meta(d, s)
    } else if st == 0xF0 || st == 0xF7 {
        match varlen(d, s.j, 0) {
            None => Step::Refused,
            Some((l, nj)) => Step::Next(Reading { j: nj + l, ..s }),
        }
    } else {
        let hi = st / 16 * 16;
        if hi == 0xC0 || hi == 0xD0 {
            if s.j >= d.len() {
                Step::Refused
            } else {
                let t = Reading { j: s.j + 1, ..s };
                if hi == 0xC0 {
                    Step::Next(with_event(t, EventKind::Program(d[s.j])))
                } else {
                    Step::Next(t)
                }
            }
        } else if s.j + 1 >= d.len() {
            Step::Refused
        } else {
            after_channel(Reading { j: s.j + 2, ..s }, hi as int, d[s.j], d[s.j + 1], mvl)
        }
    }
}

/// One message: a delta time, a status byte or the running status, its data.
#[verifier::opaque]
pub open spec fn after_message(d: Seq<u8>, s: Reading, mvl: u8) -> Step {
    match varlen(d, s.j, 0) {
        None => Step::Refused,
        Some((delta, j)) => if s.tick + delta > u32::MAX {
            Step::Broken
        } else if j >= d.len() {
            Step::Refused
        } else if d[j] >= 128 {
            let t = Reading { j: j + 1, tick: s.tick + delta, running: d[j], ..s };
            after_status(d, t, d[j], mvl)
        } else {
            let t = Reading { j, tick: s.tick + delta, ..s };
            after_status(d, t, s.running, mvl)
        },
    }
}

/// The messages up to `end`.
pub open spec fn after_track(d: Seq<u8>, s: Reading, end: int, mvl: u8) -> Step
    decreases if s.j < end {
        end - s.j
    } else {
        0
    },
{
    if s.j >= end {
        Step::Next(s)
    } else {
        proof {
            lemma_message_advances(d, s, mvl);
        }
        match after_message(d, s, mvl) {
            Step::Next(t) => after_track(d, t, end, mvl),
            other => other,
        }
    }
}

pub open spec fn is_note(e: Event) -> bool {
    e.kind is Note
}

/// A note that was never ended, or ended on the tick on which it began.
pub open spec fn is_empty_note(e: Event) -> bool {
    e.kind matches EventKind::Note { dur, .. } && dur == 0
}

pub open spec fn has_note(evs: Seq<Event>) -> bool {
    exists|i: int| 0 <= i < evs.len() && is_note(#[trigger] evs[i])
}

/// The first `n` events without the empty notes.
pub open spec fn full_events(evs: Seq<Event>, n: int) -> Seq<Event>
    decreases n,
{
    if n <= 0 {
        seq![]
    } else if is_empty_note(evs[n - 1]) {
        full_events(evs, n - 1)
    } else {
        full_events(evs, n - 1).push(evs[n - 1])
    }
}

/// A tempo change comes before another: by tick, then by value.
pub open spec fn no_later(a: (u32, u32), b: (u32, u32)) -> bool {
    a.0 < b.0 || (a.0 == b.0 && a.1 <= b.1)
}

/// Where in an ordered list `t` goes: behind all that is no later.
pub open spec fn place_of(s: Seq<(u32, u32)>, t: (u32, u32), n: int) -> int
    decreases n,
{
    if n <= 0 {
        0
    } else if no_later(s[n - 1], t) {
        n
    } else {
        place_of(s, t, n - 1)
    }
}

/// The first `n` tempo changes in order.
pub open spec fn ordered(s: Seq<(u32, u32)>, n: int) -> Seq<(u32, u32)>
    decreases n,
{
    if n <= 0 {
        seq![]
    } else {
        let front = ordered(s, n - 1);
        front.insert(place_of(front, s[n - 1], front.len() as int), s[n - 1])
    }
}

pub open spec fn be16(d: Seq<u8>, i: int) -> int {
    d[i] * 256 + d[i + 1]
}

pub open spec fn be32(d: Seq<u8>, i: int) -> int {
    d[i] * 16777216 + d[i + 1] * 65536 + d[i + 2] * 256 + d[i + 3]
}

pub open spec fn tag_at(d: Seq<u8>, i: int, a: u8, b: u8, c: u8, e: u8) -> bool {
    d[i] == a && d[i + 1] == b && d[i + 2] == c && d[i + 3] == e
}

/// What is known of a file after some of its tracks.
#[verifier::ext_equal]
pub struct Whole {
    pub i: int,
    pub tempos: Seq<(u32, u32)>,
    pub loop_start: Option<u32>,
    pub loop_end: Option<u32>,
    pub tracks: Seq<Seq<Event>>,
}

pub enum WholeStep {
    Next(Whole),
    Refused,
    Broken,
}

/// One track: its tag, its length, its messages. It is kept if it makes a
/// sound, that is if a note is left when those that never end or end at once
/// are gone.
#[verifier::opaque]
pub open spec fn after_chunk(d: Seq<u8>, w: Whole, mvl: u8) -> WholeStep {
    if w.i + 4 > d.len() || !tag_at(d, w.i, 0x4D, 0x54, 0x72, 0x6B) {
        WholeStep::Refused
    } else if w.i + 8 > d.len() {
        WholeStep::Broken
    } else {
        let end = w.i + 8 + be32(d, w.i + 4);
        let s = Reading {
            j: w.i + 8,
            tick: 0,
            running: 0,
            events: seq![],
            held: seq![],
            tempos: w.tempos,
            loop_start: w.loop_start,
            loop_end: w.loop_end,
        };
        match after_track(d, s, end, mvl) {
            Step::Next(t) => WholeStep::Next(
                Whole {
                    i: end,
                    tempos: t.tempos,
                    loop_start: t.loop_start,
                    loop_end: t.loop_end,
                    tracks: if has_note(full_events(t.events, t.events.len() as int)) {
                        w.tracks.push(full_events(t.events, t.events.len() as int))
                    } else {
                        w.tracks
                    },
                },
            ),
            Step::Refused => WholeStep::Refused,
            Step::Broken => WholeStep::Broken,
        }
    }
}

/// The first `n` tracks.
pub open spec fn after_chunks(d: Seq<u8>, n: int, mvl: u8) -> WholeStep
    decreases n,
{
    if n <= 0 {
        WholeStep::Next(
            Whole { i: 14, tempos: seq![], loop_start: None, loop_end: None, tracks: seq![] },
        )
    } else {
        match after_chunks(d, n - 1, mvl) {
            WholeStep::Next(w) => after_chunk(d, w, mvl),
            other => other,
        }
    }
}

/// What the bytes of a file hold, its master volume being `mvl`.
pub open spec fn score_of(d: Seq<u8>, mvl: u8) -> ScoreResult {
    if d.len() < 14 || !tag_at(d, 0, 0x4D, 0x54, 0x68, 0x64) {
        ScoreResult::Refused
    } else {
        match after_chunks(d, be16(d, 10), mvl) {
            WholeStep::Refused => ScoreResult::Refused,
            WholeStep::Broken => ScoreResult::Broken,
            WholeStep::Next(w) => {
                let tempos = if w.tempos.len() == 0 {
                    seq![(0u32, 500000u32)]
                } else {
                    w.tempos
                };
                ScoreResult::Parsed(
                    Score {
                        division: be16(d, 12) as u16,
                        tempos: ordered(tempos, tempos.len() as int),
                        loop_start: w.loop_start,
                        loop_end: w.loop_end,
                        tracks: w.tracks,
                    },
                )
            },
        }
    }
}

// ---- facts about messages ------------------------------------------------

proof fn lemma_varlen(d: Seq<u8>, j: int, acc: int)
    requires
        0 <= acc < 0x1_0000_0000,
    ensures
        varlen(d, j, acc) matches Some((v, nj)) ==> 0 <= v < 0x1_0000_0000 && 0 <= j < nj
            <= d.len(),
    decreases d.len() - j,
{
    if 0 <= j < d.len() && d[j] >= 128 {
        lemma_varlen(d, j + 1, (acc * 128 + d[j] % 128) % 0x1_0000_0000);
    }
}

/// A message takes at least one byte and lets no time run backwards.
pub proof fn lemma_message_advances(d: Seq<u8>, s: Reading, mvl: u8)
    ensures
        after_message(d, s, mvl) matches Step::Next(t) ==> t.j > s.j && s.tick <= t.tick
            <= u32::MAX,
{
    reveal(after_message);
    lemma_varlen(d, s.j, 0);
    if let Some((delta, j)) = varlen(d, s.j, 0) {
        lemma_varlen(d, j, 0);
        lemma_varlen(d, j + 1, 0);
    }
}

/// What holds of a track at every message: its events are in order and none
/// lies ahead, and the notes still held are among them.
pub open spec fn in_step(s: Reading) -> bool {
    &&& 0 <= s.tick <= u32::MAX
    &&& forall|i: int| 0 <= i < s.events.len() ==> (#[trigger] s.events[i]).tick <= s.tick
    &&& forall|i: int, k: int|
        0 <= i <= k < s.events.len() ==> (#[trigger] s.events[i]).tick <= (
        #[trigger] s.events[k]).tick
    &&& forall|n: int|
        0 <= n < s.held.len() ==> 0 <= (#[trigger] s.held[n]) < s.events.len() && is_note(
            s.events[s.held[n]],
        )
}

proof fn lemma_first_held(events: Seq<Event>, held: Seq<int>, k: u8, from: int)
    requires
        0 <= from,
    ensures
        first_held(events, held, k, from) matches Some(n) ==> from <= n < held.len(),
    decreases held.len() - from,
{
    if from < held.len() {
        lemma_first_held(events, held, k, from + 1);
    }
}

proof fn lemma_channel_in_step(s: Reading, hi: int, p1: u8, p2: u8, mvl: u8)
    requires
        in_step(s),
    ensures
        after_channel(s, hi, p1, p2, mvl) matches Step::Next(t) ==> in_step(t),
{
    lemma_first_held(s.events, s.held, p1, 0);
    if let Step::Next(t) = after_channel(s, hi, p1, p2, mvl) {
        assert forall|n: int| 0 <= n < t.held.len() implies 0 <= (#[trigger] t.held[n])
            < t.events.len() && is_note(t.events[t.held[n]]) by {
            if (hi == 0x80 || hi == 0x90) && !(hi == 0x90 && p2 > 0) {
                if let Some(c) = first_held(s.events, s.held, p1, 0) {
                    if n < c {
                        assert(t.held[n] == s.held[n]);
                    } else {
                        assert(t.held[n] == s.held[n + 1]);
                    }
                } else {
                    assert(t.held[n] == s.held[n]);
                }
            } else if n < s.held.len() {
                assert(t.held[n] == s.held[n]);
            }
        }
    }
}

proof fn lemma_message_in_step(d: Seq<u8>, s: Reading, mvl: u8)
    requires
        in_step(s),
    ensures
        after_message(d, s, mvl) matches Step::Next(t) ==> in_step(t),
{
    reveal(after_message);
    lemma_varlen(d, s.j, 0);
    if let Some((delta, j)) = varlen(d, s.j, 0) {
        if s.tick + delta <= u32::MAX && j < d.len() {
            let (st, t) = if d[j] >= 128 {
                (d[j], Reading { j: j + 1, tick: s.tick + delta, running: d[j], ..s })
            } else {
                (s.running, Reading { j, tick: s.tick + delta, ..s })
            };
            assert(in_step(t));
            if t.j + 1 < d.len() {
                lemma_channel_in_step(
                    Reading { j: t.j + 2, ..t },
                    (st / 16 * 16) as int,
                    d[t.j],
                    d[t.j + 1],
                    mvl,
                );
            }
        }
    }
}

proof fn lemma_track_in_step(d: Seq<u8>, s: Reading, end: int, mvl: u8)
    requires
        in_step(s),
    ensures
        after_track(d, s, end, mvl) matches Step::Next(t) ==> in_step(t),
    decreases if s.j < end {
        end - s.j
    } else {
        0
    },
{
    if s.j < end {
        lemma_message_advances(d, s, mvl);
        lemma_message_in_step(d, s, mvl);
        if let Step::Next(t) = after_message(d, s, mvl) {
            lemma_track_in_step(d, t, end, mvl);
        }
    }
}

// ---- reading -------------------------------------------------------------

/// A track while it is read.
struct Cursor {
    j: u64,
    tick: u32,
    running: u8,
    events: Vec<Event>,
    held: Vec<usize>,
    tempos: Vec<(u32, u32)>,
    loop_start: Option<u32>,
    loop_end: Option<u32>,
}

enum Outcome {
    Next,
    Refused,
    Broken,
}

impl Cursor {
    spec fn model(&self) -> Reading {
        Reading {
            j: self.j as int,
            tick: self.tick as int,
            running: self.running,
            events: self.events@,
            held: Seq::new(self.held@.len(), |n: int| self.held@[n] as int),
            tempos: self.tempos@,
            loop_start: self.loop_start,
            loop_end: self.loop_end,
        }
    }
}

/// Whether an outcome, and what it left, is what a step gives.
spec fn agrees(o: Outcome, c: Cursor, step: Step) -> bool {
    match step {
        Step::Next(t) => o is Next && c.model() == t,
        Step::Refused => o is Refused,
        Step::Broken => o is Broken,
    }
}

/// A variable-length number and where it ends.
pub fn read_varlen(d: &[u8], j: u64) -> (r: Option<(u32, u64)>)
    ensures
        match varlen(d@, j as int, 0) {
            Some((v, nj)) => r matches Some(x) && x.0 == v && x.1 == nj,
            None => r is None,
        },
{
    let mut v: u32 = 0;
    let mut k: u64 = j;
    while k < d.len() as u64
        invariant
            varlen(d@, j as int, 0) == varlen(d@, k as int, v as int),
        decreases d@.len() - k,
    {
        let b: u8 = d[k as usize];
        let w: u32 = ((v as u64 * 128 + (b % 128) as u64) % 0x1_0000_0000) as u32;
        if b < 128 {
            return Some((w, k + 1));
        }
        v = w;
        k += 1;
    }
    None
}

/// The velocity steps of the hardware.
pub fn vel_lut(v: u8) -> (r: u8)
    ensures
        r == velocity(v),
{
    if v == 0 {
        0
    } else if v > 124 {
        127
    } else {
        (v + 3) / 4 * 4
    }
}

fn wheel(p1: u8, p2: u8) -> (b: i8)
    ensures
        b == bend_of(p1, p2),
{
    let shared: i32 = if p1 >= 128 && p2 % 2 == 0 { 128 } else { 0 };
    let raw: i32 = p2 as i32 * 128 + (p1 % 128) as i32 + shared - 8192;
    let q: i32 = if raw >= 0 { raw / 128 } else { -((-raw) / 128) };
    let low: u8 = if q < 0 {
        (q + 256) as u8
    } else {
        q as u8
    };
    assert(low == (q as int) % 256);
    signed_byte(low)
}

fn push_event(c: &mut Cursor, kind: EventKind)
    ensures
        final(c).model() == with_event(old(c).model(), kind),
        final(c).held@ == old(c).held@,
{
    c.events.push(Event { tick: c.tick, kind });
    assert(c.model() =~= with_event(old(c).model(), kind));
}

fn end_note(c: &mut Cursor, k: u8)
    requires
        in_step(old(c).model()),
    ensures
        Step::Next(final(c).model()) == after_channel(old(c).model(), 0x80, k, 0, 0),
{
    let ghost s = c.model();
    let mut n: usize = 0;
    while n < c.held.len()
        invariant
            n <= c.held@.len(),
            *c == *old(c),
            s == c.model(),
            in_step(s),
            first_held(s.events, s.held, k, 0) == first_held(s.events, s.held, k, n as int),
        decreases c.held.len() - n,
    {
        let slot: usize = c.held[n];
        assert(s.held[n as int] == slot);
        let e = c.events[slot];
        assert(e.tick <= s.tick);
        if let EventKind::Note { key, vel, dur: _ } = e.kind {
            if key == k {
                let dur: u32 = c.tick - e.tick;
                c.events[slot] = Event { tick: e.tick, kind: EventKind::Note { key, vel, dur } };
                c.held.remove(n);
                assert(c.model().held =~= s.held.remove(n as int));
                assert(c.model().events =~= s.events.update(
                    slot as int,
                    lasting(s.events[slot as int], s.tick),
                ));
                return;
            }
        }
        n += 1;
    }
}

fn channel_message(c: &mut Cursor, hi: u8, p1: u8, p2: u8, mvl: u8) -> (o: Outcome)
    requires
        in_step(old(c).model()),
        old(c).events@.len() < usize::MAX,
    ensures
        agrees(o, *final(c), after_channel(old(c).model(), hi as int, p1, p2, mvl)),
{
    let ghost s = c.model();
    if hi == 0x90 && p2 > 0 {
        let at: usize = c.events.len();
        push_event(c, EventKind::Note { key: p1, vel: vel_lut(p2), dur: 0 });
        c.held.push(at);
        assert(c.model().held =~= s.held.push(s.events.len() as int));
        Outcome::Next
    } else if hi == 0x80 || hi == 0x90 {
        end_note(c, p1);
        Outcome::Next
    } else if hi == 0xB0 {
        if p1 == 7 {
            assert(0 <= p2 * mvl <= 65025) by (nonlinear_arith)
                requires
                    0 <= p2 <= 255,
                    0 <= mvl <= 255,
            ;
            let v: u32 = p2 as u32 * mvl as u32 / 127;
            push_event(c, EventKind::Volume((v % 256) as u8));
        } else if p1 == 10 {
            let p: i8 = signed_byte(p2);
            if p < -64 {
                return Outcome::Broken;
            }
            push_event(c, EventKind::Pan(p - 64));
        } else if p1 == 1 {
            push_event(c, EventKind::Mod(p2));
        } else if p1 == 20 {
            push_event(c, EventKind::BendRange(p2));
        } else if p1 == 21 {
            push_event(c, EventKind::LfoSpeed(p2));
        }
        Outcome::Next
    } else if hi == 0xE0 {
        push_event(c, EventKind::Bend(wheel(p1, p2)));
        Outcome::Next
    } else {
        Outcome::Next
    }
}

fn meta_event(d: &[u8], c: &mut Cursor) -> (o: Outcome)
    requires
        d@.len() <= i64::MAX,
        old(c).j <= d@.len(),
    ensures
        agrees(o, *final(c), after_meta(d@, old(c).model())),
{
    let ghost s = c.model();
    let n: u64 = d.len() as u64;
    if c.j + 1 >= n {
        return Outcome::Refused;
    }
    let kind: u8 = d[c.j as usize];
    let len: u8 = d[(c.j + 1) as usize];
    let b: u64 = c.j + 2;
    if b + len as u64 > n {
        return Outcome::Refused;
    }
    c.j = b + len as u64;
    if kind == 0x51 && len == 3 {
        let us: u32 = d[b as usize] as u32 * 65536 + d[(b + 1) as usize] as u32 * 256 + d[(b
            + 2) as usize] as u32;
        c.tempos.push((c.tick, us));
    } else if kind == 0x06 && len == 1 && d[b as usize] == 0x5B {
        c.loop_start = Some(c.tick);
    } else if kind == 0x06 && len == 1 && d[b as usize] == 0x5D {
        c.loop_end = Some(c.tick);
    }
    assert(c.model().held =~= s.held);
    assert(agrees(Outcome::Next, *c, after_meta(d@, s)));
    Outcome::Next
}

fn status_message(d: &[u8], c: &mut Cursor, st: u8, mvl: u8) -> (o: Outcome)
    requires
        d@.len() <= i64::MAX,
        old(c).j <= d@.len(),
        in_step(old(c).model()),
        old(c).events@.len() < usize::MAX,
    ensures
        agrees(o, *final(c), after_status(d@, old(c).model(), st, mvl)),
{
    let ghost s = c.model();
    let n: u64 = d.len() as u64;
    if st == 0xFF {
        meta_event(d, c)
    } else if st == 0xF0 || st == 0xF7 {
        proof {
            lemma_varlen(d@, c.j as int, 0);
        }
        match read_varlen(d, c.j) {
            None => Outcome::Refused,
            Some((l, nj)) => {
                c.j = nj + l as u64;
                assert(c.model().held =~= s.held);
                Outcome::Next
            },
        }
    } else {
        let hi: u8 = st / 16 * 16;
        if hi == 0xC0 || hi == 0xD0 {
            if c.j >= n {
                return Outcome::Refused;
            }
            let p1: u8 = d[c.j as usize];
            c.j = c.j + 1;
            assert(c.model() =~= Reading { j: s.j + 1, ..s });
            if hi == 0xC0 {
                push_event(c, EventKind::Program(p1));
            }
            Outcome::Next
        } else {
            if c.j + 1 >= n {
                return Outcome::Refused;
            }
            let p1: u8 = d[c.j as usize];
            let p2: u8 = d[(c.j + 1) as usize];
            c.j = c.j + 2;
            assert(c.model() =~= Reading { j: s.j + 2, ..s });
            channel_message(c, hi, p1, p2, mvl)
        }
    }
}

fn message(d: &[u8], c: &mut Cursor, mvl: u8) -> (o: Outcome)
    requires
        d@.len() <= i64::MAX,
        in_step(old(c).model()),
        old(c).events@.len() < usize::MAX,
    ensures
        agrees(o, *final(c), after_message(d@, old(c).model(), mvl)),
{
    let ghost s = c.model();
    proof {
        reveal(after_message);
        lemma_varlen(d@, c.j as int, 0);
    }
    let (delta, j): (u32, u64) = match read_varlen(d, c.j) {
        None => return Outcome::Refused,
        Some(x) => x,
    };
    if delta > u32::MAX - c.tick {
        return Outcome::Broken;
    }
    if j >= d.len() as u64 {
        return Outcome::Refused;
    }
    c.tick = c.tick + delta;
    let b: u8 = d[j as usize];
    if b >= 128 {
        c.j = j + 1;
        c.running = b;
        assert(c.model() =~= Reading { j: j + 1, tick: s.tick + delta, running: b, ..s });
        status_message(d, c, b, mvl)
    } else {
        c.j = j;
        assert(c.model() =~= Reading { j: j as int, tick: s.tick + delta, ..s });
        let st: u8 = c.running;
        status_message(d, c, st, mvl)
    }
}

/// A message adds at most one event.
proof fn lemma_message_events(d: Seq<u8>, s: Reading, mvl: u8)
    requires
        in_step(s),
    ensures
        after_message(d, s, mvl) matches Step::Next(t) ==> t.events.len() <= s.events.len() + 1
            && t.j <= d.len() + 0x1_0000_0000 && 0 <= t.j,
{
    reveal(after_message);
    lemma_varlen(d, s.j, 0);
    if let Some((delta, j)) = varlen(d, s.j, 0) {
        if j + 2 < d.len() {
            lemma_first_held(s.events, s.held, d[j], 0);
            lemma_first_held(s.events, s.held, d[j + 1], 0);
        } else if j < d.len() {
            lemma_first_held(s.events, s.held, d[j], 0);
        }
        lemma_varlen(d, j, 0);
        lemma_varlen(d, j + 1, 0);
    }
}

fn track_messages(d: &[u8], c: &mut Cursor, end: u64, mvl: u8) -> (o: Outcome)
    requires
        d@.len() <= i64::MAX,
        in_step(old(c).model()),
        old(c).events@.len() == 0,
        old(c).j <= d@.len(),
    ensures
        agrees(o, *final(c), after_track(d@, old(c).model(), end as int, mvl)),
        o is Next ==> in_step(final(c).model()),
{
    let ghost s = c.model();
    while c.j < end
        invariant
            d@.len() <= i64::MAX,
            s == old(c).model(),
            in_step(c.model()),
            c.events@.len() <= c.j,
            c.j <= d@.len() + 0x1_0000_0000,
            after_track(d@, s, end as int, mvl) == after_track(d@, c.model(), end as int, mvl),
        decreases if c.j < end {
            end - c.j
        } else {
            0
        },
    {
        let ghost t = c.model();
        proof {
            lemma_message_advances(d@, t, mvl);
            lemma_message_in_step(d@, t, mvl);
            lemma_message_events(d@, t, mvl);
        }
        if c.j >= d.len() as u64 {
            assert(after_message(d@, t, mvl) is Refused) by {
                reveal(after_message);
            }
            return Outcome::Refused;
        }
        match message(d, c, mvl) {
            Outcome::Next => {},
            Outcome::Refused => return Outcome::Refused,
            Outcome::Broken => return Outcome::Broken,
        }
    }
    Outcome::Next
}

fn any_note(evs: &Vec<Event>) -> (b: bool)
    ensures
        b == has_note(evs@),
{
    let mut i: usize = 0;
    while i < evs.len()
        invariant
            i <= evs@.len(),
            forall|k: int| 0 <= k < i ==> !is_note(#[trigger] evs@[k]),
        decreases evs.len() - i,
    {
        if let EventKind::Note { .. } = evs[i].kind {
            assert(is_note(evs@[i as int]));
            return true;
        }
        i += 1;
    }
    false
}

fn drop_empty(evs: &Vec<Event>) -> (out: Vec<Event>)
    ensures
        out@ == full_events(evs@, evs@.len() as int),
{
    let mut out: Vec<Event> = Vec::new();
    let mut i: usize = 0;
    while i < evs.len()
        invariant
            i <= evs@.len(),
            out@ == full_events(evs@, i as int),
        decreases evs.len() - i,
    {
        let empty = match evs[i].kind {
            EventKind::Note { key: _, vel: _, dur } => dur == 0,
            _ => false,
        };
        if !empty {
            out.push(evs[i]);
        }
        i += 1;
    }
    out
}

fn sort_tempos(ts: &Vec<(u32, u32)>) -> (out: Vec<(u32, u32)>)
    ensures
        out@ == ordered(ts@, ts@.len() as int),
{
    let mut out: Vec<(u32, u32)> = Vec::new();
    let mut i: usize = 0;
    while i < ts.len()
        invariant
            i <= ts@.len(),
            out@ == ordered(ts@, i as int),
        decreases ts.len() - i,
    {
        let t: (u32, u32) = ts[i];
        let ghost front = out@;
        let mut n: usize = out.len();
        while n > 0 && !(out[n - 1].0 < t.0 || (out[n - 1].0 == t.0 && out[n - 1].1 <= t.1))
            invariant
                n <= out@.len(),
                out@ == front,
                place_of(front, t, front.len() as int) == place_of(front, t, n as int),
            decreases n,
        {
            n -= 1;
        }
        out.insert(n, t);
        i += 1;
    }
    out
}

fn tag(d: &[u8], i: u64, a: u8, b: u8, c: u8, e: u8) -> (r: bool)
    requires
        i + 4 <= d@.len(),
    ensures
        r == tag_at(d@, i as int, a, b, c, e),
{
    let k: usize = i as usize;
    d[k] == a && d[k + 1] == b && d[k + 2] == c && d[k + 3] == e
}

/// What is known of a file after some of its tracks.
struct Partial {
    i: u64,
    tempos: Vec<(u32, u32)>,
    loop_start: Option<u32>,
    loop_end: Option<u32>,
    tracks: Vec<Vec<Event>>,
}

pub open spec fn tracks_model(tracks: Seq<Vec<Event>>) -> Seq<Seq<Event>> {
    Seq::new(tracks.len(), |i: int| tracks[i]@)
}

impl Partial {
    spec fn model(&self) -> Whole {
        Whole {
            i: self.i as int,
            tempos: self.tempos@,
            loop_start: self.loop_start,
            loop_end: self.loop_end,
            tracks: tracks_model(self.tracks@),
        }
    }
}

fn read_chunk(d: &[u8], w: Partial, mvl: u8) -> (r: Result<Partial, Outcome>)
    requires
        d@.len() <= i64::MAX,
        w.i <= d@.len() + 8 + 0x1_0000_0000,
    ensures
        match after_chunk(d@, w.model(), mvl) {
            WholeStep::Next(t) => r matches Ok(p) && p.model() == t && p.i <= d@.len() + 8
                + 0x1_0000_0000,
            WholeStep::Refused => r matches Err(o) && o is Refused,
            WholeStep::Broken => r matches Err(o) && o is Broken,
        },
{
    proof {
        reveal(after_chunk);
    }
    let ghost m = w.model();
    let n: u64 = d.len() as u64;
    let i: u64 = w.i;
    if i + 4 > n || !tag(d, i, 0x4D, 0x54, 0x72, 0x6B) {
        return Err(Outcome::Refused);
    }
    if i + 8 > n {
        return Err(Outcome::Broken);
    }
    let q: usize = i as usize;
    let len: u64 = d[q + 4] as u64 * 16777216 + d[q + 5] as u64 * 65536 + d[q + 6] as u64 * 256
        + d[q + 7] as u64;
    let end: u64 = i + 8 + len;
    let mut c = Cursor {
        j: i + 8,
        tick: 0,
        running: 0,
        events: Vec::new(),
        held: Vec::new(),
        tempos: w.tempos,
        loop_start: w.loop_start,
        loop_end: w.loop_end,
    };
    assert(c.model() =~= Reading {
        j: m.i + 8,
        tick: 0,
        running: 0,
        events: seq![],
        held: seq![],
        tempos: m.tempos,
        loop_start: m.loop_start,
        loop_end: m.loop_end,
    });
    match track_messages(d, &mut c, end, mvl) {
        Outcome::Next => {},
        other => return Err(other),
    }
    let mut tracks = w.tracks;
    let full = drop_empty(&c.events);
    if any_note(&full) {
        let ghost before = tracks@;
        tracks.push(full);
        assert(tracks_model(tracks@) =~= tracks_model(before).push(full@));
    }
    Ok(
        Partial {
            i: end,
            tempos: c.tempos,
            loop_start: c.loop_start,
            loop_end: c.loop_end,
            tracks,
        },
    )
}

/// Read a file; the master volume `mvl` is folded into its volume events.
pub fn scan_midi(d: &[u8], mvl: u8) -> (r: Midi)
    requires
        d@.len() <= i64::MAX,
    ensures
        match score_of(d@, mvl) {
            ScoreResult::Parsed(s) => r matches Midi::Parsed(p) && score_model(p) == s,
            ScoreResult::Refused => r is Refused,
            ScoreResult::Broken => r is Broken,
        },
{
    let n: u64 = d.len() as u64;
    if n < 14 || !tag(d, 0, 0x4D, 0x54, 0x68, 0x64) {
        return Midi::Refused;
    }
    let count: u16 = d[10] as u16 * 256 + d[11] as u16;
    let division: u16 = d[12] as u16 * 256 + d[13] as u16;
    let mut w = Partial {
        i: 14,
        tempos: Vec::new(),
        loop_start: None,
        loop_end: None,
        tracks: Vec::new(),
    };
    assert(w.model().tracks =~= seq![]);
    assert(w.model().tempos =~= seq![]);
    let mut k: u16 = 0;
    while k < count
        invariant
            k <= count,
            d@.len() <= i64::MAX,
            w.i <= d@.len() + 8 + 0x1_0000_0000,
            after_chunks(d@, k as int, mvl) == WholeStep::Next(w.model()),
            count == be16(d@, 10),
            d@.len() >= 14,
            tag_at(d@, 0, 0x4D, 0x54, 0x68, 0x64),
        decreases count - k,
    {
        let ghost m = w.model();
        assert(after_chunks(d@, k + 1, mvl) == after_chunk(d@, m, mvl));
        match read_chunk(d, w, mvl) {
            Ok(next) => {
                w = next;
            },
            Err(o) => {
                proof {
                    lemma_chunks_stop(d@, k + 1, count as int, mvl);
                }
                return match o {
                    Outcome::Broken => Midi::Broken,
                    _ => Midi::Refused,
                };
            },
        }
        k += 1;
    }
    let mut tempos = w.tempos;
    if tempos.len() == 0 {
        tempos.push((0, 500000));
        assert(tempos@ =~= seq![(0u32, 500000u32)]);
    }
    let sorted = sort_tempos(&tempos);
    Midi::Parsed((division, sorted, w.loop_start, w.loop_end, w.tracks))
}

/// A file that stops short stops short however many tracks follow.
proof fn lemma_chunks_stop(d: Seq<u8>, a: int, b: int, mvl: u8)
    requires
        a <= b,
        !(after_chunks(d, a, mvl) is Next),
    ensures
        after_chunks(d, b, mvl) == after_chunks(d, a, mvl),
    decreases b,
{
    if a < b && b > 0 {
        lemma_chunks_stop(d, a, b - 1, mvl);
    }
}

pub open spec fn score_model(p: ParsedMidi) -> Score {
    Score {
        division: p.0,
        tempos: p.1@,
        loop_start: p.2,
        loop_end: p.3,
        tracks: tracks_model(p.4@),
    }
}

/// Read a file none of whose numbers is out of place.
pub fn parse_midi(d: &[u8], mvl: u8) -> (r: Option<ParsedMidi>)
    requires
        d@.len() <= i64::MAX,
        !(score_of(d@, mvl) is Broken),
    ensures
        match score_of(d@, mvl) {
            ScoreResult::Parsed(s) => r matches Some(p) && score_model(p) == s,
            _ => r is None,
        },
{
    match scan_midi(d, mvl) {
        Midi::Parsed(p) => Some(p),
        _ => None,
    }
}

// ---- laws ----------------------------------------------------------------

pub open spec fn in_order(evs: Seq<Event>) -> bool {
    forall|i: int, k: int|
        0 <= i <= k < evs.len() ==> (#[trigger] evs[i]).tick <= (#[trigger] evs[k]).tick
}

proof fn lemma_full_events(evs: Seq<Event>, n: int)
    requires
        in_order(evs),
        0 <= n <= evs.len(),
    ensures
        in_order(full_events(evs, n)),
        forall|i: int|
            0 <= i < full_events(evs, n).len() ==> !is_empty_note(
                #[trigger] full_events(evs, n)[i],
            ),
        n < evs.len() ==> forall|i: int|
            0 <= i < full_events(evs, n).len() ==> (#[trigger] full_events(evs, n)[i]).tick
                <= evs[n].tick,
    decreases n,
{
    if n > 0 {
        lemma_full_events(evs, n - 1);
        if n < evs.len() {
            assert(evs[n - 1].tick <= evs[n].tick);
        }
    }
}

/// What a finished track promises: its events are in order, every note lasts,
/// and there is one.
pub open spec fn track_holds(evs: Seq<Event>) -> bool {
    &&& in_order(evs)
    &&& forall|i: int| 0 <= i < evs.len() ==> !is_empty_note(#[trigger] evs[i])
    &&& has_note(evs)
}

proof fn lemma_chunks_hold(d: Seq<u8>, n: int, mvl: u8)
    ensures
        after_chunks(d, n, mvl) matches WholeStep::Next(w) ==> forall|k: int|
            0 <= k < w.tracks.len() ==> track_holds(#[trigger] w.tracks[k]),
    decreases n,
{
    if n > 0 {
        lemma_chunks_hold(d, n - 1, mvl);
        if let WholeStep::Next(w) = after_chunks(d, n - 1, mvl) {
            reveal(after_chunk);
            if w.i + 8 <= d.len() {
                let s = Reading {
                    j: w.i + 8,
                    tick: 0,
                    running: 0,
                    events: seq![],
                    held: seq![],
                    tempos: w.tempos,
                    loop_start: w.loop_start,
                    loop_end: w.loop_end,
                };
                let end = w.i + 8 + be32(d, w.i + 4);
                lemma_track_in_step(d, s, end, mvl);
                if let Step::Next(t) = after_track(d, s, end, mvl) {
                    lemma_full_events(t.events, t.events.len() as int);
                }
            }
        }
    }
}

pub open spec fn tempos_in_order(s: Seq<(u32, u32)>) -> bool {
    forall|i: int, k: int| 0 <= i <= k < s.len() ==> #[trigger] no_later(s[i], s[k])
}

proof fn lemma_place(s: Seq<(u32, u32)>, t: (u32, u32), n: int)
    requires
        0 <= n <= s.len(),
    ensures
        0 <= place_of(s, t, n) <= n,
        forall|i: int| place_of(s, t, n) <= i < n ==> !no_later(#[trigger] s[i], t),
        place_of(s, t, n) > 0 ==> no_later(s[place_of(s, t, n) - 1], t),
    decreases n,
{
    if n > 0 && !no_later(s[n - 1], t) {
        lemma_place(s, t, n - 1);
    }
}

/// Ordering tempo changes puts them in order and keeps each of them.
pub proof fn ordered_keeps_each_tempo(s: Seq<(u32, u32)>, n: int)
    requires
        0 <= n <= s.len(),
    ensures
        tempos_in_order(ordered(s, n)),
        ordered(s, n).to_multiset() == s.take(n).to_multiset(),
        ordered(s, n).len() == n,
    decreases n,
{
    broadcast use vstd::seq_lib::group_to_multiset_ensures;

    if n > 0 {
        ordered_keeps_each_tempo(s, n - 1);
        let front = ordered(s, n - 1);
        let t = s[n - 1];
        let p = place_of(front, t, front.len() as int);
        lemma_place(front, t, front.len() as int);
        let out = front.insert(p, t);
        assert forall|i: int, k: int| 0 <= i <= k < out.len() implies #[trigger] no_later(
            out[i],
            out[k],
        ) by {
            if p > 0 && i < p && k >= p {
                assert(no_later(front[i], front[p - 1]));
            }
            if i < p && k < p {
                assert(no_later(front[i], front[k]));
            } else if i < p && k > p {
                assert(no_later(front[i], front[k - 1]));
            } else if i > p {
                assert(no_later(front[i - 1], front[k - 1]));
            } else if i == p && k > p {
                assert(!no_later(front[k - 1], t));
            }
        }
        vstd::seq_lib::to_multiset_insert(front, p, t);
        assert(s.take(n) =~= s.take(n - 1).push(t));
        vstd::seq_lib::to_multiset_build(s.take(n - 1), t);
    } else {
        assert(s.take(0) =~= ordered(s, 0));
    }
}

/// A file that was read gives tracks that each hold a note, whose events are in
/// order and whose notes all last, and at least one tempo, the tempos in order.
pub proof fn a_score_is_in_order(d: Seq<u8>, mvl: u8)
    ensures
        score_of(d, mvl) matches ScoreResult::Parsed(s) ==> {
            &&& forall|k: int| 0 <= k < s.tracks.len() ==> track_holds(#[trigger] s.tracks[k])
            &&& s.tempos.len() > 0
            &&& tempos_in_order(s.tempos)
        },
{
    if let ScoreResult::Parsed(s) = score_of(d, mvl) {
        lemma_chunks_hold(d, be16(d, 10), mvl);
        if let WholeStep::Next(w) = after_chunks(d, be16(d, 10), mvl) {
            let tempos = if w.tempos.len() == 0 {
                seq![(0u32, 500000u32)]
            } else {
                w.tempos
            };
            ordered_keeps_each_tempo(tempos, tempos.len() as int);
        }
    }
}

} // verus!
