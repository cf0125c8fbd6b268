//! What the readers of the music's sources make of what they read.

use vstd::prelude::*;
use crate::audio::data::{Event, EventKind, Voice};
use crate::codec;
use crate::musicgen::bank;
use crate::musicgen::bank::Names;
use crate::musicgen::extract;
use crate::musicgen::extract::{BankModel, Context, Outcome};
use crate::files::Files;
use crate::musicgen::midi;
use crate::musicgen::midi::{Reading, ScoreResult, Step};
use crate::musicgen::source;
use crate::musicgen::source::{Head, Labels, Line, RawModel, Row, Splits};
use crate::musicgen::wav;
use crate::musicgen::wav::{SampleResult, Told};
use crate::single;
use crate::text;

verus! {

// ---- controllers ------------------------------------------------------------

/// What one more event makes of a track.
pub open spec fn gains(s: Reading, t: Reading, k: EventKind) -> bool {
    &&& t.events.len() == s.events.len() + 1
    &&& t.events[s.events.len() as int].tick == s.tick
    &&& t.events[s.events.len() as int].kind == k
    &&& forall|i: int| 0 <= i < s.events.len() ==> #[trigger] t.events[i] == s.events[i]
    &&& t.j == s.j && t.tick == s.tick && t.running == s.running
    &&& t.tempos == s.tempos && t.loop_start == s.loop_start && t.loop_end == s.loop_end
}

/// Controller 10 pans: of its values, 64 is the middle, 0 wholly left and 127
/// wholly right, and each adds one event, as many steps to the right of the
/// middle as the value is past 64.
pub proof fn a_pan_message_pans(s: Reading, v: u8, mvl: u8)
    requires
        v < 128,
        0 <= s.tick <= u32::MAX,
    ensures
        midi::after_channel(s, 0xB0, 10, v, mvl) matches Step::Next(t) && gains(
            s,
            t,
            EventKind::Pan((v as int - 64) as i8),
        ) && t.held == s.held,
{
}

/// The farther right a pan message asks for, the farther right its event.
pub proof fn a_greater_pan_is_farther_right(s: Reading, v: u8, w: u8, mvl: u8)
    requires
        v < w < 128,
        0 <= s.tick <= u32::MAX,
    ensures
        ({
            let a = midi::after_channel(s, 0xB0, 10, v, mvl);
            let b = midi::after_channel(s, 0xB0, 10, w, mvl);
            &&& a is Next && b is Next
            &&& a->Next_0.events.last().kind is Pan && b->Next_0.events.last().kind is Pan
            &&& b->Next_0.events.last().kind->Pan_0 - a->Next_0.events.last().kind->Pan_0 == w - v
        }),
{
}

/// Controller 7 sets the volume: its value by the song's own volume, over 127,
/// rounded down; at the full volume of a song, its value.
pub proof fn a_volume_message_scales_by_the_song(s: Reading, v: u8, mvl: u8)
    requires
        v < 128,
        mvl < 128,
        0 <= s.tick <= u32::MAX,
    ensures
        midi::after_channel(s, 0xB0, 7, v, mvl) matches Step::Next(t) && t.events.last().kind
            is Volume && gains(s, t, t.events.last().kind) && t.held == s.held && 127
            * t.events.last().kind->Volume_0 <= v * mvl < 127 * (t.events.last().kind->Volume_0
            + 1),
        midi::after_channel(s, 0xB0, 7, v, 127) matches Step::Next(t) && gains(
            s,
            t,
            EventKind::Volume(v),
        ),
{
    assert(v * mvl <= 127 * 127) by (nonlinear_arith)
        requires
            v < 128,
            mvl < 128,
    ;
    assert(v * 127 / 127 == v);
    assert(0 <= v * mvl) by (nonlinear_arith);
    assert(v * mvl / 127 <= 127);
}

/// Past the full volume of a song a volume wraps round at 256.
pub proof fn a_volume_past_its_byte_wraps_round(s: Reading, v: u8, mvl: u8)
    requires
        0 <= s.tick <= u32::MAX,
    ensures
        midi::after_channel(s, 0xB0, 7, v, mvl) matches Step::Next(t) && t.events.last().kind
            is Volume && (v * mvl / 127 - t.events.last().kind->Volume_0) % 256 == 0,
{
    assert(0 <= v * mvl) by (nonlinear_arith);
}

/// Controllers 1, 20 and 21 set modulation, bend range and LFO speed to their
/// value; any other but volume and pan adds nothing.
pub proof fn controllers_set_what_they_name(s: Reading, p1: u8, v: u8, mvl: u8)
    requires
        0 <= s.tick <= u32::MAX,
    ensures
        midi::after_channel(s, 0xB0, 1, v, mvl) matches Step::Next(t) && gains(
            s,
            t,
            EventKind::Mod(v),
        ) && t.held == s.held,
        midi::after_channel(s, 0xB0, 20, v, mvl) matches Step::Next(t) && gains(
            s,
            t,
            EventKind::BendRange(v),
        ) && t.held == s.held,
        midi::after_channel(s, 0xB0, 21, v, mvl) matches Step::Next(t) && gains(
            s,
            t,
            EventKind::LfoSpeed(v),
        ) && t.held == s.held,
        p1 != 1 && p1 != 7 && p1 != 10 && p1 != 20 && p1 != 21 ==> midi::after_channel(
            s,
            0xB0,
            p1,
            v,
            mvl,
        ) == Step::Next(s),
        midi::after_channel(s, 0xA0, p1, v, mvl) == Step::Next(s),
{
}

/// The wheel bends by its fourteen bits around their middle, 8192, over 128,
/// rounded toward the middle.
pub proof fn the_wheel_bends_around_its_middle(s: Reading, p1: u8, p2: u8, mvl: u8)
    requires
        p1 < 128,
        p2 < 128,
        0 <= s.tick <= u32::MAX,
    ensures
        ({
            let off = 128 * p2 + p1 - 8192;
            let r = midi::after_channel(s, 0xE0, p1, p2, mvl);
            &&& r is Next
            &&& r->Next_0.events.last().kind is Bend
            &&& gains(s, r->Next_0, r->Next_0.events.last().kind)
            &&& r->Next_0.held == s.held
            &&& off >= 0 ==> 128 * r->Next_0.events.last().kind->Bend_0 <= off < 128
                * r->Next_0.events.last().kind->Bend_0 + 128
            &&& off <= 0 ==> 128 * r->Next_0.events.last().kind->Bend_0 >= off > 128
                * r->Next_0.events.last().kind->Bend_0 - 128
        }),
{
    let a = 128 * p2 + p1 - 8192;
    assert(-8192 <= a < 8192);
    let q = midi::toward_zero(a, 128);
    assert(p2 * 128 + p1 % 128 + 0 - 8192 == a);
    assert(-64 <= q < 64);
    if q >= 0 {
        assert(q % 256 == q);
    } else {
        assert(q % 256 == q + 256);
    }
    assert(midi::bend_of(p1, p2) == q);
}

// ---- notes ----------------------------------------------------------------------

/// A note begins with its key and its velocity, which is raised to the next
/// multiple of four, or to 127 past the last; it is held, and has no length yet.
pub proof fn a_note_begins(s: Reading, key: u8, v: u8, mvl: u8)
    requires
        0 < v < 128,
        0 <= s.tick <= u32::MAX,
    ensures
        ({
            let r = midi::after_channel(s, 0x90, key, v, mvl);
            let k = r->Next_0.events.last().kind;
            &&& r is Next
            &&& k matches EventKind::Note { key: k2, vel, dur } && k2 == key && dur == 0 && (v <= 124
                ==> vel % 4 == 0 && v <= vel < v + 4) && (v > 124 ==> vel == 127)
            &&& gains(s, r->Next_0, k)
            &&& r->Next_0.held == s.held.push(s.events.len() as int)
        }),
{
}

proof fn lemma_first_held(events: Seq<Event>, held: Seq<int>, k: u8, from: int)
    requires
        0 <= from,
    ensures
        match midi::first_held(events, held, k, from) {
            Some(n) => from <= n < held.len() && (events[held[n]].kind matches EventKind::Note {
                key,
                ..
            } && key == k) && forall|i: int|
                from <= i < n ==> !(events[#[trigger] held[i]].kind is Note
                    && events[held[i]].kind->key == k),
            None => forall|i: int|
                from <= i < held.len() ==> !(events[#[trigger] held[i]].kind is Note
                    && events[held[i]].kind->key == k),
        },
    decreases held.len() - from,
{
    if from < held.len() {
        lemma_first_held(events, held, k, from + 1);
    }
}

/// A note ends, by a message of its own or by one that strikes it at nothing:
/// of the notes of its key that are held, the one that began first lasts until
/// now and is let go. Nothing else changes; nothing at all where none is held.
pub proof fn a_note_ends_the_first_that_is_held(
    s: Reading,
    hi: int,
    key: u8,
    v: u8,
    mvl: u8,
    n: int,
)
    requires
        hi == 0x80 || hi == 0x90 && v == 0,
        midi::in_step(s),
        -1 <= n < s.held.len(),
        n >= 0 ==> s.events[s.held[n]].kind->key == key,
        forall|i: int|
            0 <= i < (if n >= 0 {
                n
            } else {
                s.held.len() as int
            }) ==> s.events[#[trigger] s.held[i]].kind->key != key,
    ensures
        n < 0 ==> midi::after_channel(s, hi, key, v, mvl) == Step::Next(s),
        n >= 0 ==> ({
            let r = midi::after_channel(s, hi, key, v, mvl);
            let at = s.held[n];
            let t = r->Next_0;
            &&& r is Next
            &&& t.held == s.held.remove(n)
            &&& t.events.len() == s.events.len()
            &&& forall|i: int|
                0 <= i < s.events.len() && i != at ==> #[trigger] t.events[i] == s.events[i]
            &&& t.events[at].tick == s.events[at].tick
            &&& t.events[at].kind is Note
            &&& t.events[at].kind->key == key
            &&& t.events[at].kind->vel == s.events[at].kind->vel
            &&& t.events[at].kind->dur == s.tick - s.events[at].tick
            &&& t.j == s.j && t.tick == s.tick && t.running == s.running
            &&& t.tempos == s.tempos && t.loop_start == s.loop_start && t.loop_end == s.loop_end
        }),
{
    lemma_first_held(s.events, s.held, key, 0);
    if n >= 0 {
        assert(midi::is_note(s.events[s.held[n]]));
    }
    match midi::first_held(s.events, s.held, key, 0) {
        Some(k) => {
            if n < 0 {
                assert(s.events[s.held[k]].kind->key != key);
            } else if k < n {
                assert(s.events[s.held[k]].kind->key != key);
            } else if n < k {
                assert(s.events[s.held[n]].kind is Note);
            }
        },
        None => {
            if n >= 0 {
                assert(s.events[s.held[n]].kind is Note);
            }
        },
    }
}

proof fn lemma_full_skips(evs: Seq<Event>, i: int, n: int)
    requires
        0 <= i < n <= evs.len(),
        midi::is_empty_note(evs[i]),
    ensures
        midi::full_events(evs.remove(i), n - 1) == midi::full_events(evs, n),
    decreases n,
{
    if n == i + 1 {
        lemma_full_front(evs, evs.remove(i), i);
    } else {
        lemma_full_skips(evs, i, n - 1);
        assert(evs.remove(i)[n - 2] == evs[n - 1]);
    }
}

proof fn lemma_full_front(a: Seq<Event>, b: Seq<Event>, n: int)
    requires
        0 <= n <= a.len(),
        n <= b.len(),
        forall|k: int| 0 <= k < n ==> #[trigger] a[k] == b[k],
    ensures
        midi::full_events(a, n) == midi::full_events(b, n),
    decreases n,
{
    if n > 0 {
        lemma_full_front(a, b, n - 1);
        assert(a[n - 1] == b[n - 1]);
    }
}

/// A note without a length leaves no trace in a finished track, and a track
/// without one stays as it is.
pub proof fn notes_without_a_length_are_left_out(evs: Seq<Event>, i: int)
    ensures
        0 <= i < evs.len() && evs[i].kind is Note && evs[i].kind->dur == 0 ==> midi::full_events(
            evs,
            evs.len() as int,
        ) == midi::full_events(evs.remove(i), evs.len() - 1),
        (forall|k: int|
            0 <= k < evs.len() ==> !((#[trigger] evs[k]).kind is Note && evs[k].kind->dur == 0))
            ==> midi::full_events(evs, evs.len() as int) == evs,
{
    if 0 <= i < evs.len() && evs[i].kind is Note && evs[i].kind->dur == 0 {
        lemma_full_skips(evs, i, evs.len() as int);
    }
    if forall|k: int|
        0 <= k < evs.len() ==> !((#[trigger] evs[k]).kind is Note && evs[k].kind->dur == 0) {
        lemma_full_whole(evs, evs.len() as int);
        assert(evs.take(evs.len() as int) =~= evs);
    }
}

proof fn lemma_full_whole(evs: Seq<Event>, n: int)
    requires
        0 <= n <= evs.len(),
        forall|k: int|
            0 <= k < evs.len() ==> !((#[trigger] evs[k]).kind is Note && evs[k].kind->dur == 0),
    ensures
        midi::full_events(evs, n) == evs.take(n),
    decreases n,
{
    if n > 0 {
        lemma_full_whole(evs, n - 1);
        assert(evs.take(n - 1).push(evs[n - 1]) =~= evs.take(n));
    } else {
        assert(midi::full_events(evs, n) =~= evs.take(n));
    }
}

// ---- the stream -----------------------------------------------------------------

/// A number of one, two, three or four bytes is worth what its sevens of bits
/// spell, the highest first, and the next thing stands right behind it.
pub proof fn numbers_are_spelled_in_sevens(d: Seq<u8>, j: int)
    requires
        0 <= j,
        j + 4 <= d.len(),
    ensures
        d[j] < 128 ==> midi::varlen(d, j, 0) == Some((d[j] as int, j + 1)),
        d[j] >= 128 && d[j + 1] < 128 ==> midi::varlen(d, j, 0) == Some(
            (128 * (d[j] - 128) + d[j + 1], j + 2),
        ),
        d[j] >= 128 && d[j + 1] >= 128 && d[j + 2] < 128 ==> midi::varlen(d, j, 0) == Some(
            (16384 * (d[j] - 128) + 128 * (d[j + 1] - 128) + d[j + 2], j + 3),
        ),
        d[j] >= 128 && d[j + 1] >= 128 && d[j + 2] >= 128 && d[j + 3] < 128 ==> midi::varlen(
            d,
            j,
            0,
        ) == Some(
            (
                2097152 * (d[j] - 128) + 16384 * (d[j + 1] - 128) + 128 * (d[j + 2] - 128) + d[j
                    + 3],
                j + 4,
            ),
        ),
{
    let a = (d[j] % 128) as int;
    assert((0 * 128 + d[j] % 128) % 0x1_0000_0000 == a);
    if d[j] >= 128 {
        assert(a == d[j] - 128);
        assert(midi::varlen(d, j, 0) == midi::varlen(d, j + 1, a));
        let b = 128 * a + d[j + 1] % 128;
        assert((a * 128 + d[j + 1] % 128) % 0x1_0000_0000 == b);
        if d[j + 1] >= 128 {
            assert(d[j + 1] % 128 == d[j + 1] - 128);
            assert(midi::varlen(d, j + 1, a) == midi::varlen(d, j + 2, b));
            let c = 128 * b + d[j + 2] % 128;
            assert((b * 128 + d[j + 2] % 128) % 0x1_0000_0000 == c);
            if d[j + 2] >= 128 {
                assert(d[j + 2] % 128 == d[j + 2] - 128);
                assert(midi::varlen(d, j + 2, b) == midi::varlen(d, j + 3, c));
                let e = 128 * c + d[j + 3] % 128;
                assert((c * 128 + d[j + 3] % 128) % 0x1_0000_0000 == e);
            }
        }
    }
}

/// A message comes when its delta has run out: a channel message with a status
/// byte of its own goes by that, one without by the last that was given.
pub proof fn a_message_goes_by_its_status(d: Seq<u8>, s: Reading, mvl: u8)
    requires
        0 <= s.j,
        s.j + 4 <= d.len(),
        0 <= s.tick,
        s.tick + 127 <= u32::MAX,
        d[s.j] < 128,
    ensures
        0x80 <= d[s.j + 1] < 0xC0 || 0xE0 <= d[s.j + 1] < 0xF0 ==> midi::after_message(d, s, mvl)
            == midi::after_channel(
            (Reading { j: s.j + 4, tick: s.tick + d[s.j], running: d[s.j + 1], ..s }),
            d[s.j + 1] - d[s.j + 1] % 16,
            d[s.j + 2],
            d[s.j + 3],
            mvl,
        ),
        d[s.j + 1] < 128 && (0x80 <= s.running < 0xC0 || 0xE0 <= s.running < 0xF0)
            ==> midi::after_message(d, s, mvl) == midi::after_channel(
            (Reading { j: s.j + 3, tick: s.tick + d[s.j], ..s }),
            s.running - s.running % 16,
            d[s.j + 1],
            d[s.j + 2],
            mvl,
        ),
        0xC0 <= d[s.j + 1] < 0xD0 ==> (midi::after_message(d, s, mvl) matches Step::Next(t)
            && gains(
            (Reading { j: s.j + 3, tick: s.tick + d[s.j], running: d[s.j + 1], ..s }),
            t,
            EventKind::Program(d[s.j + 2]),
        ) && t.held == s.held),
        0xD0 <= d[s.j + 1] < 0xE0 ==> midi::after_message(d, s, mvl) == Step::Next(
            (Reading { j: s.j + 3, tick: s.tick + d[s.j], running: d[s.j + 1], ..s }),
        ),
{
    reveal(midi::after_message);
    numbers_are_spelled_in_sevens(d, s.j);
    let st = d[s.j + 1];
    assert(st / 16 * 16 == st - st % 16);
    assert(s.running / 16 * 16 == s.running - s.running % 16);
    if 0x80 <= st < 0xC0 {
        assert(st / 16 == 8 || st / 16 == 9 || st / 16 == 10 || st / 16 == 11);
    }
    if 0xC0 <= st < 0xD0 {
        assert(st / 16 == 12);
    }
    if 0xD0 <= st < 0xE0 {
        assert(st / 16 == 13);
    }
    if 0xE0 <= st < 0xF0 {
        assert(st / 16 == 14);
    }
    if 0x80 <= s.running < 0xC0 {
        assert(s.running / 16 == 8 || s.running / 16 == 9 || s.running / 16 == 10 || s.running
            / 16 == 11);
    }
    if 0xE0 <= s.running < 0xF0 {
        assert(s.running / 16 == 14);
    }
}

/// A meta event and a message of the machine's own come when their delta has run
/// out too; of the second nothing is kept, it is as long as it says.
pub proof fn other_messages_are_stepped_over(d: Seq<u8>, s: Reading, mvl: u8)
    requires
        0 <= s.j,
        s.j + 6 <= d.len(),
        0 <= s.tick,
        s.tick + 127 <= u32::MAX,
        d[s.j] < 128,
    ensures
        d[s.j + 1] == 0xFF ==> midi::after_message(d, s, mvl) == midi::after_meta(
            d,
            (Reading { j: s.j + 2, tick: s.tick + d[s.j], running: 0xFF, ..s }),
        ),
        (d[s.j + 1] == 0xF0 || d[s.j + 1] == 0xF7) && d[s.j + 2] < 128 ==> midi::after_message(
            d,
            s,
            mvl,
        ) == Step::Next(
            (Reading {
                j: s.j + 3 + d[s.j + 2],
                tick: s.tick + d[s.j],
                running: d[s.j + 1],
                ..s
            }),
        ),
{
    reveal(midi::after_message);
    numbers_are_spelled_in_sevens(d, s.j);
    numbers_are_spelled_in_sevens(d, s.j + 2);
}

/// A track is read message by message up to its end, and no farther.
pub proof fn a_track_is_read_message_by_message(d: Seq<u8>, s: Reading, end: int, mvl: u8)
    ensures
        s.j >= end ==> midi::after_track(d, s, end, mvl) == Step::Next(s),
        s.j < end ==> (midi::after_message(d, s, mvl) matches Step::Next(t) ==> midi::after_track(
            d,
            s,
            end,
            mvl,
        ) == midi::after_track(d, t, end, mvl)),
        s.j < end && midi::after_message(d, s, mvl) is Refused ==> midi::after_track(d, s, end, mvl)
            is Refused,
        s.j < end && midi::after_message(d, s, mvl) is Broken ==> midi::after_track(d, s, end, mvl)
            is Broken,
{
}

/// The tracks of a file stand one behind the other, the first behind the fourteen
/// bytes of its head, and as many as the head says are read.
pub proof fn the_tracks_of_a_file_stand_one_behind_the_other(d: Seq<u8>, n: int, mvl: u8)
    requires
        0 <= n,
    ensures
        midi::after_chunks(d, 0, mvl) matches midi::WholeStep::Next(w) && w.i == 14
            && w.tracks.len() == 0 && w.tempos.len() == 0 && w.loop_start is None && w.loop_end
            is None,
        midi::after_chunks(d, n, mvl) matches midi::WholeStep::Next(w) ==> midi::after_chunks(
            d,
            n + 1,
            mvl,
        ) == midi::after_chunk(d, w, mvl),
        midi::score_of(d, mvl) matches ScoreResult::Parsed(s) ==> (midi::after_chunks(
            d,
            256 * d[10] + d[11],
            mvl,
        ) matches midi::WholeStep::Next(w) && s.tracks == w.tracks && s.loop_start == w.loop_start
            && s.loop_end == w.loop_end && (w.tempos.len() > 0 ==> s.tempos == midi::ordered(
            w.tempos,
            w.tempos.len() as int,
        ))),
{
    if midi::score_of(d, mvl) is Parsed {
        assert(midi::be16(d, 10) == 256 * d[10] + d[11]);
    }
}

/// A meta event: a change of tempo is three bytes, the highest first, and comes
/// when it stands; the marks `[` and `]` are where the loop starts and ends; any
/// other is stepped over.
pub proof fn meta_events_set_tempo_and_loop(d: Seq<u8>, s: Reading)
    requires
        0 <= s.j,
        s.j + 2 <= d.len(),
        s.j + 2 + d[s.j + 1] <= d.len(),
        0 <= s.tick <= u32::MAX,
    ensures
        ({
            let r = midi::after_meta(d, s);
            let t = r->Next_0;
            let tempo = d[s.j] == 0x51 && d[s.j + 1] == 3;
            let from = d[s.j] == 6 && d[s.j + 1] == 1 && d[s.j + 2] as char == '[';
            let to = d[s.j] == 6 && d[s.j + 1] == 1 && d[s.j + 2] as char == ']';
            &&& r is Next
            &&& t.j == s.j + 2 + d[s.j + 1]
            &&& t.tick == s.tick && t.running == s.running && t.events == s.events && t.held
                == s.held
            &&& tempo ==> t.tempos.len() == s.tempos.len() + 1 && t.tempos.drop_last() == s.tempos
                && t.tempos.last().0 == s.tick && t.tempos.last().1 == 65536 * d[s.j + 2] + 256
                * d[s.j + 3] + d[s.j + 4]
            &&& !tempo ==> t.tempos == s.tempos
            &&& from ==> t.loop_start is Some && t.loop_start->0 == s.tick
            &&& !from ==> t.loop_start == s.loop_start
            &&& to ==> t.loop_end is Some && t.loop_end->0 == s.tick
            &&& !to ==> t.loop_end == s.loop_end
        }),
{
    let b = s.j + 2;
    if d[s.j] == 0x51 && d[s.j + 1] == 3 {
        assert(midi::after_meta(d, s)->Next_0.tempos.drop_last() =~= s.tempos);
    }
}

/// A file that was read begins with its tag, has its division in its thirteenth
/// and fourteenth byte, and beats at 120 to the minute from its first tick where
/// it says nothing else.
pub proof fn a_score_has_its_division_and_a_tempo(d: Seq<u8>, mvl: u8)
    ensures
        midi::score_of(d, mvl) matches ScoreResult::Parsed(s) ==> {
            &&& d.len() >= 14
            &&& d[0] as char == 'M' && d[1] as char == 'T' && d[2] as char == 'h' && d[3] as char
                == 'd'
            &&& s.division == 256 * d[12] + d[13]
            &&& d[10] == 0 && d[11] == 0 ==> s.tracks.len() == 0 && s.tempos == seq![
                (0u32, 500_000u32),
            ] && s.loop_start is None && s.loop_end is None
        },
{
    if d.len() >= 14 && d[10] == 0 && d[11] == 0 {
        assert(midi::be16(d, 10) == 0);
        reveal_with_fuel(midi::ordered, 2);
        let one = seq![(0u32, 500_000u32)];
        assert(midi::ordered(one, 0) =~= seq![]);
        assert(midi::ordered(one, 1) =~= one);
    }
}

/// A track begins at its first tick with nothing behind it but what the tracks
/// before it said of tempo and loop, ends where its length says, and is kept
/// where a note in it lasts.
pub proof fn a_track_is_read_from_its_start(d: Seq<u8>, w: midi::Whole, mvl: u8)
    requires
        0 <= w.i,
        w.i + 8 <= d.len(),
    ensures
        midi::after_chunk(d, w, mvl) matches midi::WholeStep::Next(x) ==> {
            let end = w.i + 8 + 16777216 * d[w.i + 4] + 65536 * d[w.i + 5] + 256 * d[w.i + 6] + d[w.i
                + 7];
            let r = midi::after_track(
                d,
                Reading {
                    j: w.i + 8,
                    tick: 0,
                    running: 0,
                    events: seq![],
                    held: seq![],
                    tempos: w.tempos,
                    loop_start: w.loop_start,
                    loop_end: w.loop_end,
                },
                end,
                mvl,
            );
            let t = r->Next_0;
            let left = midi::full_events(t.events, t.events.len() as int);
            &&& d[w.i] as char == 'M' && d[w.i + 1] as char == 'T' && d[w.i + 2] as char == 'r'
                && d[w.i + 3] as char == 'k'
            &&& r is Next
            &&& x.i == end
            &&& x.tempos == t.tempos && x.loop_start == t.loop_start && x.loop_end == t.loop_end
            &&& (exists|k: int| 0 <= k < left.len() && (#[trigger] left[k]).kind is Note)
                ==> x.tracks == w.tracks.push(left)
            &&& (forall|k: int| 0 <= k < left.len() ==> (#[trigger] left[k]).kind !is Note)
                ==> x.tracks == w.tracks
        },
{
    reveal(midi::after_chunk);
    if midi::after_chunk(d, w, mvl) is Next {
        let end = w.i + 8 + midi::be32(d, w.i + 4);
        let r = midi::after_track(
            d,
            Reading {
                j: w.i + 8,
                tick: 0,
                running: 0,
                events: seq![],
                held: seq![],
                tempos: w.tempos,
                loop_start: w.loop_start,
                loop_end: w.loop_end,
            },
            end,
            mvl,
        );
        let left = midi::full_events(r->Next_0.events, r->Next_0.events.len() as int);
        if exists|k: int| 0 <= k < left.len() && (#[trigger] left[k]).kind is Note {
            let k = choose|k: int| 0 <= k < left.len() && (#[trigger] left[k]).kind is Note;
            assert(midi::is_note(left[k]));
        }
    }
}

// ---- samples --------------------------------------------------------------------

/// Whether four bytes spell a tag.
pub open spec fn tagged(d: Seq<u8>, i: int, a: char, b: char, c: char, e: char) -> bool {
    d[i] as char == a && d[i + 1] as char == b && d[i + 2] as char == c && d[i + 3] as char == e
}

/// The number that four bytes spell, the lowest first.
pub open spec fn spelled(d: Seq<u8>, i: int) -> int {
    d[i] + 256 * d[i + 1] + 65536 * d[i + 2] + 16777216 * d[i + 3]
}

proof fn lemma_tag(d: Seq<u8>, i: int, t: Seq<u8>)
    requires
        0 <= i,
        i + 4 <= d.len(),
        t.len() == 4,
    ensures
        wav::tag_at(d, i, t) == (d[i] == t[0] && d[i + 1] == t[1] && d[i + 2] == t[2] && d[i + 3]
            == t[3]),
{
    let s = d.subrange(i, i + 4);
    assert(s.len() == 4 && s[0] == d[i] && s[1] == d[i + 1] && s[2] == d[i + 2] && s[3] == d[i
        + 3]);
    if d[i] == t[0] && d[i + 1] == t[1] && d[i + 2] == t[2] && d[i + 3] == t[3] {
        assert(s =~= t);
    }
}

proof fn lemma_tags(d: Seq<u8>, i: int)
    requires
        0 <= i,
        i + 4 <= d.len(),
    ensures
        wav::tag_at(d, i, seq![0x66u8, 0x6Du8, 0x74u8, 0x20u8]) == tagged(d, i, 'f', 'm', 't', ' '),
        wav::tag_at(d, i, seq![0x73u8, 0x6Du8, 0x70u8, 0x6Cu8]) == tagged(d, i, 's', 'm', 'p', 'l'),
        wav::tag_at(d, i, seq![0x61u8, 0x67u8, 0x62u8, 0x70u8]) == tagged(d, i, 'a', 'g', 'b', 'p'),
        wav::tag_at(d, i, seq![0x61u8, 0x67u8, 0x62u8, 0x6Cu8]) == tagged(d, i, 'a', 'g', 'b', 'l'),
        wav::tag_at(d, i, seq![0x64u8, 0x61u8, 0x74u8, 0x61u8]) == tagged(d, i, 'd', 'a', 't', 'a'),
        wav::tag_at(d, i, seq![0x52u8, 0x49u8, 0x46u8, 0x46u8]) == tagged(d, i, 'R', 'I', 'F', 'F'),
        wav::tag_at(d, i, seq![0x57u8, 0x41u8, 0x56u8, 0x45u8]) == tagged(d, i, 'W', 'A', 'V', 'E'),
{
    lemma_tag(d, i, seq![0x66u8, 0x6Du8, 0x74u8, 0x20u8]);
    lemma_tag(d, i, seq![0x73u8, 0x6Du8, 0x70u8, 0x6Cu8]);
    lemma_tag(d, i, seq![0x61u8, 0x67u8, 0x62u8, 0x70u8]);
    lemma_tag(d, i, seq![0x61u8, 0x67u8, 0x62u8, 0x6Cu8]);
    lemma_tag(d, i, seq![0x64u8, 0x61u8, 0x74u8, 0x61u8]);
    lemma_tag(d, i, seq![0x52u8, 0x49u8, 0x46u8, 0x46u8]);
    lemma_tag(d, i, seq![0x57u8, 0x41u8, 0x56u8, 0x45u8]);
}

/// The sound of a sample is its bytes, one sample each, 128 for silence.
pub proof fn a_data_chunk_is_centred_on_silence(d: Seq<u8>, t: Told, i: int)
    requires
        0 <= i,
        i + 8 + spelled(d, i + 4) <= d.len(),
        i + 8 <= d.len(),
        tagged(d, i, 'd', 'a', 't', 'a'),
    ensures
        wav::after_chunk(d, t, i) matches wav::Step::Next(u) && u.pcm is Some && u.pcm->0.len()
            == spelled(d, i + 4) && (forall|k: int|
            0 <= k < spelled(d, i + 4) ==> #[trigger] u.pcm->0[k] == d[i + 8 + k] - 128) && u
            == (Told { pcm: u.pcm, ..t }),
{
    lemma_tags(d, i);
}

/// Exact pitch and exact end stand in chunks of their own: the pitch in 1024ths
/// of a Hertz, the end as a number of samples.
pub proof fn exact_chunks_say_pitch_and_end(d: Seq<u8>, t: Told, i: int)
    requires
        0 <= i,
        i + 8 + spelled(d, i + 4) <= d.len(),
        i + 12 <= d.len(),
        spelled(d, i + 4) >= 4,
    ensures
        tagged(d, i, 'a', 'g', 'b', 'p') ==> (wav::after_chunk(d, t, i) matches wav::Step::Next(u)
            && u == (Told {
            rate: Some(single::single_of_1024ths(spelled(d, i + 8) as u32) as u32),
            ..t
        })),
        tagged(d, i, 'a', 'g', 'b', 'l') ==> (wav::after_chunk(d, t, i) matches wav::Step::Next(u)
            && u == (Told { exact_end: Some(spelled(d, i + 8) as u32), ..t })),
{
    lemma_tags(d, i);
}

/// The format chunk must say one channel of eight-bit PCM, and its rate counts
/// where none was told.
pub proof fn a_format_chunk_gives_the_rate(d: Seq<u8>, t: Told, i: int)
    requires
        0 <= i,
        i + 8 + spelled(d, i + 4) <= d.len(),
        i + 24 <= d.len(),
        tagged(d, i, 'f', 'm', 't', ' '),
    ensures
        ({
            let plays = d[i + 8] == 1 && d[i + 9] == 0 && d[i + 10] == 1 && d[i + 11] == 0 && d[i
                + 22] == 8 && d[i + 23] == 0;
            &&& !plays ==> wav::after_chunk(d, t, i) is Refused
            &&& plays && t.rate is Some ==> wav::after_chunk(d, t, i) == wav::Step::Next(t)
            &&& plays && t.rate is None ==> wav::after_chunk(d, t, i) == wav::Step::Next(
                (Told { rate: Some(single::single_of(spelled(d, i + 12) as u32) as u32), ..t }),
            )
        }),
{
    lemma_tags(d, i);
}

/// The sampler chunk loops from its first loop's start to behind its end, where
/// it has a loop that goes forward.
pub proof fn a_sampler_chunk_gives_the_loop(d: Seq<u8>, t: Told, i: int)
    requires
        0 <= i,
        i + 8 + spelled(d, i + 4) <= d.len(),
        i + 68 <= d.len(),
        spelled(d, i + 4) >= 60,
        tagged(d, i, 's', 'm', 'p', 'l'),
    ensures
        ({
            let loops = spelled(d, i + 36) > 0 && spelled(d, i + 48) == 0;
            &&& !loops ==> wav::after_chunk(d, t, i) == wav::Step::Next(t)
            &&& loops && spelled(d, i + 56) < u32::MAX ==> wav::after_chunk(d, t, i)
                == wav::Step::Next(
                (Told {
                    loop_start: Some(spelled(d, i + 52) as u32),
                    loop_end: Some((spelled(d, i + 56) + 1) as u32),
                    ..t
                }),
            )
        }),
{
    lemma_tags(d, i);
}

/// Chunks stand one behind the other, each on an even place; what is too short
/// to be one ends the file.
pub proof fn chunks_stand_on_even_places(d: Seq<u8>, t: Told, i: int)
    requires
        0 <= i,
    ensures
        i + 8 > d.len() ==> wav::after_chunks(d, t, i) == wav::Step::Next(t),
        i + 8 <= d.len() && wav::after_chunk(d, t, i) is Next && spelled(d, i + 4) % 2 == 0
            ==> wav::after_chunks(d, t, i) == wav::after_chunks(
            d,
            wav::after_chunk(d, t, i)->Next_0,
            i + 8 + spelled(d, i + 4),
        ),
        i + 8 <= d.len() && wav::after_chunk(d, t, i) is Next && spelled(d, i + 4) % 2 == 1
            ==> wav::after_chunks(d, t, i) == wav::after_chunks(
            d,
            wav::after_chunk(d, t, i)->Next_0,
            i + 9 + spelled(d, i + 4),
        ),
{
}

/// A sample has the rate, the loop and the sound that the chunks of its file
/// told, the sound up to the exact end where there is one and up to that of the
/// loop otherwise.
pub proof fn a_sample_is_what_its_chunks_told(d: Seq<u8>)
    ensures
        wav::sample_of(d) matches SampleResult::Sample { rate, loop_start, pcm } ==> {
            let r = wav::after_chunks(
                d,
                Told { rate: None, pcm: None, loop_start: None, loop_end: None, exact_end: None },
                12,
            );
            let t = r->Next_0;
            let end = if t.exact_end is Some {
                t.exact_end
            } else {
                t.loop_end
            };
            &&& d.len() >= 12 && tagged(d, 0, 'R', 'I', 'F', 'F') && tagged(
                d,
                8,
                'W',
                'A',
                'V',
                'E',
            )
            &&& r is Next
            &&& t.rate == Some(rate)
            &&& t.loop_start == loop_start
            &&& t.pcm is Some
            &&& pcm.len() == if end is Some && end->0 < t.pcm->0.len() {
                end->0 as int
            } else {
                t.pcm->0.len() as int
            }
            &&& forall|k: int| 0 <= k < pcm.len() ==> #[trigger] pcm[k] == t.pcm->0[k]
        },
{
    if d.len() >= 12 {
        lemma_tags(d, 0);
        lemma_tags(d, 8);
    }
}

// ---- voices ---------------------------------------------------------------------

/// Whether the arguments from `at` on are the numbers `v`.
pub open spec fn says(args: Seq<Seq<char>>, at: int, v: Seq<u8>) -> bool {
    &&& 0 <= at
    &&& at + v.len() <= args.len()
    &&& forall|i: int|
        0 <= i < v.len() ==> text::number(#[trigger] args[at + i], 10, 255) == Some(v[i] as int)
}

proof fn lemma_says(args: Seq<Seq<char>>, at: int, v: Seq<u8>)
    requires
        says(args, at, v),
    ensures
        forall|i: int|
            at <= i < at + v.len() ==> #[trigger] bank::byte_arg(args, i) == Some(v[i - at]),
{
    assert forall|i: int| at <= i < at + v.len() implies #[trigger] bank::byte_arg(args, i) == Some(
        v[i - at],
    ) by {
        let k = i - at;
        assert(text::number(args[at + k], 10, 255) == Some(v[k] as int));
    }
}

proof fn lemma_unlike(s: Seq<char>, p: Seq<char>, i: int)
    requires
        0 <= i < p.len(),
        i >= s.len() || s[i] != p[i],
    ensures
        !text::has_prefix(s, p),
{
    if text::has_prefix(s, p) {
        assert(s.subrange(0, p.len() as int)[i] == s[i]);
    }
}

proof fn lemma_like(s: Seq<char>, p: Seq<char>)
    requires
        p.len() <= s.len(),
        s.take(p.len() as int) == p,
    ensures
        text::has_prefix(s, p),
{
    assert(s.subrange(0, p.len() as int) =~= p);
}

proof fn lemma_kinds(kind: Seq<char>)
    requires
        kind.len() > 6,
    ensures
        kind[6] != 'k' ==> !text::has_prefix(kind, "voice_keysplit_all"@) && !text::has_prefix(
            kind,
            "voice_keysplit"@,
        ),
        kind[6] != 'd' ==> !text::has_prefix(kind, "voice_directsound"@),
        kind[6] != 's' ==> !text::has_prefix(kind, "voice_square_1"@) && !text::has_prefix(
            kind,
            "voice_square_2"@,
        ),
        kind[6] != 'p' ==> !text::has_prefix(kind, "voice_programmable_wave"@),
        kind[6] != 'n' ==> !text::has_prefix(kind, "voice_noise"@),
{
    reveal_strlit("voice_keysplit_all");
    reveal_strlit("voice_keysplit");
    reveal_strlit("voice_directsound");
    reveal_strlit("voice_square_1");
    reveal_strlit("voice_square_2");
    reveal_strlit("voice_programmable_wave");
    reveal_strlit("voice_noise");
    if kind[6] != 'k' {
        lemma_unlike(kind, "voice_keysplit_all"@, 6);
        lemma_unlike(kind, "voice_keysplit"@, 6);
    }
    if kind[6] != 'd' {
        lemma_unlike(kind, "voice_directsound"@, 6);
    }
    if kind[6] != 's' {
        lemma_unlike(kind, "voice_square_1"@, 6);
        lemma_unlike(kind, "voice_square_2"@, 6);
    }
    if kind[6] != 'p' {
        lemma_unlike(kind, "voice_programmable_wave"@, 6);
    }
    if kind[6] != 'n' {
        lemma_unlike(kind, "voice_noise"@, 6);
    }
}

/// A noise line gives, in this order, the base key, the pan, the period, of
/// which the lowest bit counts, and the envelope.
pub proof fn a_noise_line_says_its_voice(args: Seq<Seq<char>>, n: Names, v: Seq<u8>)
    requires
        v.len() == 7,
        says(args, 0, v),
    ensures
        bank::voice_of("voice_noise"@, args, n) matches Voice::Noise { base_key, pan, period, adsr }
            && base_key == v[0] && pan == v[1] && period == v[2] % 2 && adsr[0] == v[3] && adsr[1]
            == v[4] && adsr[2] == v[5] && adsr[3] == v[6],
{
    let kind = "voice_noise"@;
    reveal_strlit("voice_noise");
    lemma_kinds(kind);
    assert(kind.take(kind.len() as int) =~= kind);
    lemma_like(kind, kind);
    lemma_says(args, 0, v);
}

/// A square line of the second channel gives the base key, the pan, the duty, of
/// which the lowest two bits count, and the envelope; one of the first channel
/// has its sweep before the duty.
pub proof fn a_square_line_says_its_voice(args: Seq<Seq<char>>, n: Names, v: Seq<u8>)
    ensures
        v.len() == 7 && says(args, 0, v) ==> (bank::voice_of(
            "voice_square_2"@,
            args,
            n,
        ) matches Voice::Square { base_key, pan, duty, sweep, adsr } && base_key == v[0] && pan
            == v[1] && duty == v[2] % 4 && sweep == 0 && adsr[0] == v[3] && adsr[1] == v[4]
            && adsr[2] == v[5] && adsr[3] == v[6]),
        v.len() == 8 && says(args, 0, v) ==> (bank::voice_of(
            "voice_square_1"@,
            args,
            n,
        ) matches Voice::Square { base_key, pan, duty, sweep, adsr } && base_key == v[0] && pan
            == v[1] && sweep == v[2] && duty == v[3] % 4 && adsr[0] == v[4] && adsr[1] == v[5]
            && adsr[2] == v[6] && adsr[3] == v[7]),
{
    let one = "voice_square_1"@;
    let two = "voice_square_2"@;
    reveal_strlit("voice_square_1");
    reveal_strlit("voice_square_2");
    lemma_kinds(one);
    lemma_kinds(two);
    assert(one.take(one.len() as int) =~= one);
    assert(two.take(two.len() as int) =~= two);
    lemma_like(one, one);
    lemma_like(two, two);
    lemma_unlike(two, one, 13);
    if says(args, 0, v) {
        lemma_says(args, 0, v);
    }
}

/// A sample line gives the base key, the pan, the label of the sample and the
/// envelope; the sample is the last in the bank of that label, and plays at a
/// fixed rate where the line says so.
pub proof fn a_sample_line_says_its_voice(
    args: Seq<Seq<char>>,
    n: Names,
    v: Seq<u8>,
    e: Seq<u8>,
    k: int,
)
    requires
        v.len() == 2,
        says(args, 0, v),
        e.len() == 4,
        says(args, 3, e),
        0 <= k < n.samples.len() <= 65536,
        n.samples[k] == args[2],
        forall|i: int| k < i < n.samples.len() ==> #[trigger] n.samples[i] != args[2],
    ensures
        bank::voice_of("voice_directsound"@, args, n) matches Voice::DirectSound {
            base_key,
            pan,
            sample,
            adsr,
            fixed,
        } && base_key == v[0] && pan == v[1] && sample == k && !fixed && adsr[0] == e[0] && adsr[1]
            == e[1] && adsr[2] == e[2] && adsr[3] == e[3],
        bank::voice_of("voice_directsound_no_resample"@, args, n) matches Voice::DirectSound {
            base_key,
            pan,
            sample,
            adsr,
            fixed,
        } && base_key == v[0] && pan == v[1] && sample == k && fixed && adsr[0] == e[0] && adsr[1]
            == e[1] && adsr[2] == e[2] && adsr[3] == e[3],
{
    let plain = "voice_directsound"@;
    let held = "voice_directsound_no_resample"@;
    let mark = "no_resample"@;
    reveal_strlit("voice_directsound");
    reveal_strlit("voice_directsound_no_resample");
    reveal_strlit("no_resample");
    lemma_kinds(plain);
    lemma_kinds(held);
    assert(plain.take(plain.len() as int) =~= plain);
    assert(held.take(plain.len() as int) =~= plain);
    lemma_like(plain, plain);
    lemma_like(held, plain);
    text::the_last_of_a_name_is_found(n.samples, args[2], n.samples.len() as int);
    assert(bank::number_of(n.samples, args[2]) == Some(k as u16));
    lemma_says(args, 0, v);
    lemma_says(args, 3, e);
    text::the_first_place_is_found(plain, mark);
    text::the_first_place_is_found(held, mark);
    assert(held.subrange(18, 29) =~= mark);
    assert(text::occurs_at(held, mark, 18));
    assert(text::place(plain, mark) is None) by {
        if let Some(i) = text::place(plain, mark) {
            assert(plain.subrange(i, i + 11)[0] == plain[i]);
            assert(plain[i] == 'n');
            assert(false);
        }
    }
}

/// A wave line gives the base key, the pan, the label of the wave and the
/// envelope.
pub proof fn a_wave_line_says_its_voice(
    args: Seq<Seq<char>>,
    n: Names,
    v: Seq<u8>,
    e: Seq<u8>,
    k: int,
)
    requires
        v.len() == 2,
        says(args, 0, v),
        e.len() == 4,
        says(args, 3, e),
        0 <= k < n.waves.len() <= 65536,
        n.waves[k] == args[2],
        forall|i: int| k < i < n.waves.len() ==> #[trigger] n.waves[i] != args[2],
    ensures
        bank::voice_of("voice_programmable_wave"@, args, n) matches Voice::Wave {
            base_key,
            pan,
            wave,
            adsr,
        } && base_key == v[0] && pan == v[1] && wave == k && adsr[0] == e[0] && adsr[1] == e[1]
            && adsr[2] == e[2] && adsr[3] == e[3],
{
    let kind = "voice_programmable_wave"@;
    reveal_strlit("voice_programmable_wave");
    lemma_kinds(kind);
    assert(kind.take(kind.len() as int) =~= kind);
    lemma_like(kind, kind);
    text::the_last_of_a_name_is_found(n.waves, args[2], n.waves.len() as int);
    assert(bank::number_of(n.waves, args[2]) == Some(k as u16));
    lemma_says(args, 0, v);
    lemma_says(args, 3, e);
}

/// A split keyboard names its group and then its table, a drumset its group, each
/// without the word before its name and each the last of that name.
pub proof fn a_keyboard_line_says_its_group(
    args: Seq<Seq<char>>,
    n: Names,
    group: Seq<char>,
    g: int,
    table: Seq<char>,
    t: int,
)
    requires
        args.len() >= 2,
        args[0] == "voicegroup_"@ + group,
        !text::has_prefix(group, "voicegroup_"@),
        args[1] == "keysplit_"@ + table,
        !text::has_prefix(table, "keysplit_"@),
        0 <= g < n.groups.len() <= 65536,
        n.groups[g] == group,
        forall|i: int| g < i < n.groups.len() ==> #[trigger] n.groups[i] != group,
        0 <= t < n.tables.len() <= 65536,
        n.tables[t] == table,
        forall|i: int| t < i < n.tables.len() ==> #[trigger] n.tables[i] != table,
    ensures
        bank::voice_of("voice_keysplit"@, args, n) == (Voice::Keysplit {
            group: g as u16,
            table: t as u16,
        }),
        bank::voice_of("voice_keysplit_all"@, args, n) == (Voice::KeysplitAll { group: g as u16 }),
{
    let split = "voice_keysplit"@;
    let all = "voice_keysplit_all"@;
    reveal_strlit("voice_keysplit");
    reveal_strlit("voice_keysplit_all");
    reveal_strlit("voicegroup_");
    reveal_strlit("keysplit_");
    assert(split.take(split.len() as int) =~= split);
    assert(all.take(all.len() as int) =~= all);
    lemma_like(split, split);
    lemma_like(all, all);
    lemma_unlike(split, all, 14);
    text::prefixes_are_taken_off(group, "voicegroup_"@);
    text::prefixes_are_taken_off(table, "keysplit_"@);
    if "voicegroup_"@.is_prefix_of(group) {
        lemma_like(group, "voicegroup_"@);
    }
    if "keysplit_"@.is_prefix_of(table) {
        lemma_like(table, "keysplit_"@);
    }
    text::the_last_of_a_name_is_found(n.groups, group, n.groups.len() as int);
    text::the_last_of_a_name_is_found(n.tables, table, n.tables.len() as int);
    assert(bank::number_of(n.groups, group) == Some(g as u16));
    assert(bank::number_of(n.tables, table) == Some(t as u16));
}

/// A line that names a sample that is not in the bank, or that is of none of
/// the kinds, makes no sound.
pub proof fn what_is_unknown_is_unsupported(kind: Seq<char>, args: Seq<Seq<char>>, n: Names)
    ensures
        args.len() > 2 && !n.samples.contains(args[2]) ==> bank::voice_of(
            "voice_directsound"@,
            args,
            n,
        ) is Unsupported,
        kind.len() > 6 && kind[6] != 'k' && kind[6] != 'd' && kind[6] != 's' && kind[6] != 'p'
            && kind[6] != 'n' ==> bank::voice_of(kind, args, n) is Unsupported,
{
    reveal_strlit("voice_directsound");
    lemma_kinds("voice_directsound"@);
    if args.len() > 2 && !n.samples.contains(args[2]) {
        text::the_last_of_a_name_is_found(n.samples, args[2], n.samples.len() as int);
        assert(bank::number_of(n.samples, args[2]) is None);
        let kind = "voice_directsound"@;
        assert(kind.take(kind.len() as int) =~= kind);
        lemma_like(kind, kind);
    }
    if kind.len() > 6 {
        lemma_kinds(kind);
    }
}

/// A wave is read two steps to a byte, the upper half first: the two halves make
/// up the byte; what is not there is silent.
pub proof fn a_wave_is_the_halves_of_its_bytes(raw: Seq<u8>, b: int)
    requires
        0 <= b < 16,
    ensures
        b < raw.len() ==> 16 * bank::pattern(raw, 2 * b) + bank::pattern(raw, 2 * b + 1) == raw[b]
            && bank::pattern(raw, 2 * b) < 16 && bank::pattern(raw, 2 * b + 1) < 16,
        b >= raw.len() ==> bank::pattern(raw, 2 * b) == 0 && bank::pattern(raw, 2 * b + 1) == 0,
{
    assert(2 * b / 2 == b && (2 * b + 1) / 2 == b && 2 * b % 2 == 0 && (2 * b + 1) % 2 == 1);
}

// ---- keysplit tables, labels, groups and songs --------------------------------------

/// A `split` names its voice for every key from where its table had come up to
/// its own last key, that one too; what the table named before stays, and so
/// does every table before it.
pub proof fn a_split_reaches_to_its_last_key(
    s: Splits,
    line: Seq<char>,
    rest: Seq<char>,
    idx: int,
    end: int,
    h: Head,
    key: int,
)
    requires
        s.heads.len() > 0,
        0 <= s.heads.last().start <= s.bytes.len(),
        0 <= s.heads.last().base,
        source::bare(line) == "split "@ + rest,
        text::cut(rest, ","@).len() >= 2,
        text::number(text::trimmed(text::cut(rest, ","@)[0]), 10, 255) == Some(idx),
        text::number(text::trimmed(text::cut(rest, ","@)[1]), 10, usize::MAX as int) == Some(end),
        0 <= idx <= 255,
        s.heads.last().base + (s.bytes.len() - s.heads.last().start) <= end + 1,
        end < usize::MAX,
    ensures
        source::after_split_line(s, line) matches Some(t) && t.heads == s.heads && (
        s.heads.last().base + (s.bytes.len() - s.heads.last().start) <= key <= end
            ==> source::split_at(t, s.heads.last(), key) == idx) && (key > end ==> source::split_at(
            t,
            s.heads.last(),
            key,
        ) == 255) && (0 <= h.start + key - h.base < s.bytes.len() ==> source::split_at(t, h, key)
            == source::split_at(s, h, key)),
{
    let l = source::bare(line);
    reveal_strlit("keysplit ");
    reveal_strlit("split ");
    lemma_unlike(l, "keysplit "@, 0);
    assert(l.take(6) =~= "split "@);
    lemma_like(l, "split "@);
    assert(l.skip(6) =~= rest);
}

/// A table starts with nothing, at its own first key, 0 where it gives none.
pub proof fn a_table_starts_empty(s: Splits, line: Seq<char>, rest: Seq<char>)
    requires
        source::bare(line) == "keysplit "@ + rest,
    ensures
        source::after_split_line(s, line) matches Some(t) && t.bytes == s.bytes && t.heads.len()
            == s.heads.len() + 1 && t.heads.drop_last() == s.heads && t.heads.last().start
            == s.bytes.len() && t.heads.last().name == text::trimmed(text::cut(rest, ","@)[0]) && (
        text::cut(rest, ","@).len() < 2 ==> t.heads.last().base == 0) && (text::cut(
            rest,
            ","@,
        ).len() >= 2 ==> match text::number(
            text::trimmed(text::cut(rest, ","@)[1]),
            10,
            usize::MAX as int,
        ) {
            Some(b) => t.heads.last().base == b,
            None => t.heads.last().base == 0,
        }),
{
    let l = source::bare(line);
    reveal_strlit("keysplit ");
    assert(l.take(9) =~= "keysplit "@);
    lemma_like(l, "keysplit "@);
    assert(l.skip(9) =~= rest);
    reveal_strlit(",");
    assert(text::cut(rest, ","@).len() >= 1);
    let t = source::after_split_line(s, line)->0;
    assert(t.heads.drop_last() =~= s.heads);
}

/// A file belongs to the label right before it: of a label and the file behind
/// it both are kept, and a second file has no label.
pub proof fn a_file_belongs_to_the_label_before_it(
    s: Labels,
    a: Seq<char>,
    b: Seq<char>,
    name: Seq<char>,
    rest: Seq<char>,
)
    requires
        source::bare(a) == name + "::"@,
        source::bare(b) == ".incbin "@ + rest,
        text::without_suffix(source::bare(b), "::"@) is None,
        text::cut(rest, "\""@).len() > 1,
    ensures
        ({
            let t = source::after_label_line(source::after_label_line(s, a), b);
            &&& t.names == s.names.push(name)
            &&& t.paths == s.paths.push(text::cut(rest, "\""@)[1])
            &&& t.label is None
            &&& source::after_label_line(t, b).names == t.names
            &&& source::after_label_line(t, b).paths == t.paths
        }),
{
    reveal_strlit("::");
    reveal_strlit(".incbin ");
    let l = source::bare(a);
    assert(l.subrange(l.len() - 2, l.len() as int) =~= "::"@);
    assert(text::occurs_at(l, "::"@, l.len() - 2));
    assert(l.take(l.len() - 2) =~= name);
    let m = source::bare(b);
    assert(m.take(8) =~= ".incbin "@);
    lemma_like(m, ".incbin "@);
    assert(m.skip(8) =~= rest);
}

proof fn lemma_options_front(a: Seq<Seq<char>>, b: Seq<Seq<char>>, n: int)
    requires
        0 <= n <= a.len(),
        n <= b.len(),
        forall|k: int| 0 <= k < n ==> #[trigger] a[k] == b[k],
    ensures
        source::after_options(a, n) == source::after_options(b, n),
    decreases n,
{
    if n > 0 {
        lemma_options_front(a, b, n - 1);
        assert(a[n - 1] == b[n - 1]);
    }
}

/// Each option of a song sets its own: `-G` the voicegroup, `-V` the volume, 127
/// where it is no byte, `-R` the reverb, 0 where it is no byte. The last of each
/// counts; without any the volume is 127 and there is no reverb.
pub proof fn options_set_what_they_name(ws: Seq<Seq<char>>, v: Seq<char>)
    ensures
        ({
            let o = source::after_options(ws, ws.len() as int);
            let n = ws.len() as int + 1;
            let g = source::after_options(ws.push("-G"@ + v), n);
            let w = source::after_options(ws.push("-V"@ + v), n);
            let r = source::after_options(ws.push("-R"@ + v), n);
            &&& ws.len() == 0 ==> o.group is None && o.volume == 127 && o.reverb == 0
            &&& g.group == Some(text::without_prefixes(v, "_"@)) && g.volume == o.volume && g.reverb
                == o.reverb
            &&& w.group == o.group && w.reverb == o.reverb
            &&& text::number(v, 10, 255) is Some ==> w.volume == text::number(v, 10, 255)->0
            &&& text::number(v, 10, 255) is None ==> w.volume == 127
            &&& r.group == o.group && r.volume == o.volume
            &&& text::number(v, 10, 255) is Some ==> r.reverb == text::number(v, 10, 255)->0
            &&& text::number(v, 10, 255) is None ==> r.reverb == 0
        }),
{
    reveal_strlit("-G");
    reveal_strlit("-V");
    reveal_strlit("-R");
    let g = "-G"@ + v;
    let w = "-V"@ + v;
    let r = "-R"@ + v;
    lemma_options_front(ws, ws.push(g), ws.len() as int);
    lemma_options_front(ws, ws.push(w), ws.len() as int);
    lemma_options_front(ws, ws.push(r), ws.len() as int);
    assert(g.take(2) =~= "-G"@ && w.take(2) =~= "-V"@ && r.take(2) =~= "-R"@);
    lemma_like(g, "-G"@);
    lemma_like(w, "-V"@);
    lemma_like(r, "-R"@);
    lemma_unlike(w, "-G"@, 1);
    lemma_unlike(r, "-G"@, 1);
    lemma_unlike(r, "-V"@, 1);
    assert(g.skip(2) =~= v && w.skip(2) =~= v && r.skip(2) =~= v);
}

/// The voices of a group stand in the order of their lines; its head gives its
/// name and the program of its first voice, 0 where it gives none.
pub proof fn a_group_keeps_its_lines_in_order(g: RawModel, line: Seq<char>, rest: Seq<char>)
    ensures
        source::bare(line) == "voice_group "@ + rest ==> ({
            let t = source::after_group_line(g, line);
            &&& t.entries == g.entries
            &&& t.name == Some(text::trimmed(text::cut(rest, ","@)[0]))
            &&& text::cut(rest, ","@).len() < 2 ==> t.offset == 0
            &&& text::cut(rest, ","@).len() >= 2 ==> match text::number(
                text::trimmed(text::cut(rest, ","@)[1]),
                10,
                65535,
            ) {
                Some(b) => t.offset == b,
                None => t.offset == 0,
            }
        }),
        text::has_prefix(source::bare(line), "voice_"@) && !text::has_prefix(
            source::bare(line),
            "voice_group "@,
        ) ==> ({
            let t = source::after_group_line(g, line);
            &&& t.entries.len() == g.entries.len() + 1
            &&& t.entries.drop_last() == g.entries
            &&& t.name == g.name && t.offset == g.offset
        }),
{
    let l = source::bare(line);
    reveal_strlit("voice_group ");
    reveal_strlit(",");
    if l == "voice_group "@ + rest {
        assert(l.take(12) =~= "voice_group "@);
        lemma_like(l, "voice_group "@);
        assert(l.skip(12) =~= rest);
        assert(text::cut(rest, ","@).len() >= 1);
    } else if text::has_prefix(l, "voice_"@) && !text::has_prefix(l, "voice_group "@) {
        assert(source::after_group_line(g, line).entries.drop_last() =~= g.entries);
    }
}

/// A song is made of its row: its name, the number of its voicegroup, its
/// volume and reverb, and of the score of its own file, read at its own volume.
pub proof fn a_song_is_made_of_its_row(r: Row, groups: Seq<Seq<char>>, f: Files)
    requires
        groups.len() <= 65536,
        0 <= r.volume <= 255,
        0 <= r.reverb <= 255,
    ensures
        extract::outcome(r, groups, f) matches Outcome::Song(s) ==> {
            let d = f.file("sound/songs/midi/"@ + r.name + ".mid"@);
            &&& s.name == r.name
            &&& s.voicegroup < groups.len() && groups[s.voicegroup as int] == r.group
            &&& s.master_volume == r.volume && s.reverb == r.reverb
            &&& d is Some
            &&& midi::score_of(d->0, r.volume as u8) matches ScoreResult::Parsed(x) && s.division
                == x.division && s.tempos == x.tempos && s.loop_start == x.loop_start && s.loop_end
                == x.loop_end && s.tracks == x.tracks && x.tracks.len() > 0
        },
        r.name.len() >= 4 && r.name[0] == 'm' && r.name[1] == 'u' && r.name[2] == 's' && r.name[3]
            == '_' ==> !(extract::outcome(r, groups, f) is Ignored),
        r.name.len() >= 3 && r.name[0] == 's' && r.name[1] == 'e' && r.name[2] == '_' ==> !(
        extract::outcome(r, groups, f) is Ignored),
        r.name.len() >= 1 && r.name[0] != 'm' && r.name[0] != 's' ==> extract::outcome(r, groups, f)
            is Ignored,
{
    bank::lemma_number_of(groups, r.group);
    reveal_strlit("mus_");
    reveal_strlit("se_");
    if r.name.len() >= 4 && r.name[0] == 'm' && r.name[1] == 'u' && r.name[2] == 's' && r.name[3]
        == '_' {
        assert(r.name.take(4) =~= "mus_"@);
        lemma_like(r.name, "mus_"@);
    }
    if r.name.len() >= 3 && r.name[0] == 's' && r.name[1] == 'e' && r.name[2] == '_' {
        assert(r.name.take(3) =~= "se_"@);
        lemma_like(r.name, "se_"@);
    }
    if r.name.len() >= 1 && r.name[0] != 'm' && r.name[0] != 's' {
        lemma_unlike(r.name, "mus_"@, 0);
        lemma_unlike(r.name, "se_"@, 0);
    }
}

/// How many of the first `n` rows are neither music nor an effect.
pub open spec fn ignored(rows: Seq<Row>, n: int, groups: Seq<Seq<char>>, f: Files) -> int
    decreases n,
{
    if n <= 0 {
        0
    } else {
        ignored(rows, n - 1, groups, f) + if extract::outcome(rows[n - 1], groups, f) is Ignored {
            1int
        } else {
            0
        }
    }
}

/// Every row that counts becomes a song or is counted as skipped, and the songs
/// stand in the order of their rows.
pub proof fn every_row_is_accounted_for(
    rows: Seq<Row>,
    n: int,
    groups: Seq<Seq<char>>,
    f: Files,
)
    requires
        0 <= n <= rows.len(),
    ensures
        extract::after_rows(rows, n, groups, f) matches Some((songs, skipped)) ==> songs.len()
            + skipped + ignored(rows, n, groups, f) == n && skipped >= 0,
        extract::after_rows(rows, n, groups, f) matches Some((songs, skipped)) ==> forall|i: int|
            0 <= i < songs.len() ==> exists|k: int|
                i <= k < n && (#[trigger] rows[k]).name == (#[trigger] songs[i]).name
                    && extract::outcome(rows[k], groups, f) == Outcome::Song(songs[i]),
    decreases n,
{
    if n > 0 {
        every_row_is_accounted_for(rows, n - 1, groups, f);
        if let Some((songs, skipped)) = extract::after_rows(rows, n, groups, f) {
            let (had, s0) = extract::after_rows(rows, n - 1, groups, f)->0;
            assert forall|i: int| 0 <= i < songs.len() implies exists|k: int|
                i <= k < n && (#[trigger] rows[k]).name == (#[trigger] songs[i]).name
                    && extract::outcome(rows[k], groups, f) == Outcome::Song(songs[i]) by {
                if i < had.len() {
                    assert(songs[i] == had[i]);
                    let k = choose|k: int|
                        i <= k < n - 1 && (#[trigger] rows[k]).name == had[i].name
                            && extract::outcome(rows[k], groups, f) == Outcome::Song(had[i]);
                    assert(rows[k].name == songs[i].name);
                } else {
                    assert(rows[n - 1].name == songs[i].name);
                    assert(ignored(rows, n - 1, groups, f) >= 0) by {
                        lemma_ignored(rows, n - 1, groups, f);
                    }
                }
            }
        }
    }
}

proof fn lemma_ignored(rows: Seq<Row>, n: int, groups: Seq<Seq<char>>, f: Files)
    ensures
        0 <= ignored(rows, n, groups, f),
    decreases n,
{
    if n > 0 {
        lemma_ignored(rows, n - 1, groups, f);
    }
}

/// A sample goes into the bank under the label of its line, read from the file
/// of that label, once: a label that is there already is not read again.
pub proof fn a_sample_is_read_once_under_its_label(b: BankModel, l: Line, c: Context)
    requires
        l.kind == "voice_directsound"@,
        l.args.len() > 2,
    ensures
        b.sample_labels.contains(l.args[2]) ==> extract::after_line(b, l, c) == Some(b),
        !b.sample_labels.contains(l.args[2]) && !c.samples.names.contains(l.args[2])
            ==> extract::after_line(b, l, c) == Some(b),
        extract::after_line(b, l, c) matches Some(a) ==> a == b || {
            &&& a.sample_labels == b.sample_labels.push(l.args[2])
            &&& a.samples.len() == b.samples.len() + 1
            &&& a.samples.drop_last() == b.samples
            &&& a.samples.last().name == l.args[2]
            &&& a.waves == b.waves && a.wave_labels == b.wave_labels
        },
{
    reveal_strlit("voice_directsound");
    reveal_strlit("voice_programmable_wave");
    lemma_kinds(l.kind);
    assert(l.kind.take(l.kind.len() as int) =~= l.kind);
    lemma_like(l.kind, l.kind);
    text::the_last_of_a_name_is_found(b.sample_labels, l.args[2], b.sample_labels.len() as int);
    text::the_last_of_a_name_is_found(
        c.samples.names,
        l.args[2],
        c.samples.names.len() as int,
    );
    if let Some(a) = extract::after_line(b, l, c) {
        if a != b {
            assert(a.samples.drop_last() =~= b.samples);
        }
    }
}

// ---- lines and packs ----------------------------------------------------------------

/// A voice line is its kind, up to the first blank, and its arguments behind it,
/// cut at the commas, each without the white space round it.
pub proof fn a_voice_line_is_cut_at_its_first_blank(l: Seq<char>, i: int, k: int)
    requires
        0 <= i < l.len(),
        l[i] == ' ',
        forall|j: int| 0 <= j < i ==> #[trigger] l[j] != ' ',
    ensures
        ({
            let v = source::voice_line(l);
            let parts = text::cut(l.skip(i + 1), ","@);
            &&& v.kind == l.take(i)
            &&& v.args.len() == parts.len()
            &&& 0 <= k < parts.len() ==> v.args[k] == text::trimmed(parts[k])
        }),
{
    reveal_strlit(" ");
    text::the_first_place_is_found(l, " "@);
    assert(l.subrange(i, i + 1) =~= " "@);
    match text::place(l, " "@) {
        Some(p) => {
            assert(l.subrange(p, p + 1)[0] == l[p]);
            if i < p {
                assert(l.subrange(i, i + 1) != " "@);
            }
        },
        None => {},
    }
}

/// A line of the song list says its song: the file without its ending, and the
/// voicegroup, volume and reverb of its options. Without a voicegroup, or with
/// another ending, it says none.
pub proof fn a_song_line_says_its_song(
    line: Seq<char>,
    file: Seq<char>,
    opts: Seq<char>,
    name: Seq<char>,
)
    requires
        text::cut_once(line, ":"@) == Some((file, opts)),
    ensures
        ({
            let ws = text::words(opts);
            let o = source::after_options(ws, ws.len() as int);
            &&& text::trimmed(file) == name + ".mid"@ && o.group is Some ==> (source::row_of(
                line,
            ) matches Some(r) && r.name == name && r.group == o.group->0 && r.volume == o.volume
                && r.reverb == o.reverb)
            &&& o.group is None ==> source::row_of(line) is None
            &&& text::without_suffix(text::trimmed(file), ".mid"@) is None ==> source::row_of(line)
                is None
        }),
{
    reveal_strlit(".mid");
    let t = text::trimmed(file);
    if t == name + ".mid"@ {
        assert(t.subrange(t.len() - 4, t.len() as int) =~= ".mid"@);
        assert(t.take(t.len() - 4) =~= name);
    }
}

/// The songs stand in the order of their lines.
pub proof fn songs_stand_in_the_order_of_their_lines(ls: Seq<Seq<char>>, n: int, i: int)
    requires
        0 <= i < n <= ls.len(),
        source::row_of(ls[i]) is Some,
    ensures
        ({
            let k = source::rows_of(ls, i).len() as int;
            &&& k < source::rows_of(ls, n).len()
            &&& Some(source::rows_of(ls, n)[k]) == source::row_of(ls[i])
        }),
    decreases n,
{
    if i < n - 1 {
        songs_stand_in_the_order_of_their_lines(ls, n - 1, i);
    }
}

/// The lines of a source are read one after the other, from nothing on.
pub proof fn lines_are_read_one_after_the_other(ls: Seq<Seq<char>>, n: int)
    requires
        0 <= n < ls.len(),
    ensures
        source::after_split_lines(ls, 0) == Some((Splits { heads: seq![], bytes: seq![] })),
        source::after_split_lines(ls, n + 1) == match source::after_split_lines(ls, n) {
            Some(s) => source::after_split_line(s, ls[n]),
            None => None,
        },
        source::after_label_lines(ls, 0) == (Labels { label: None, names: seq![], paths: seq![] }),
        source::after_label_lines(ls, n + 1) == source::after_label_line(
            source::after_label_lines(ls, n),
            ls[n],
        ),
        source::after_group_lines(ls, 0) == (RawModel { name: None, offset: 0, entries: seq![] }),
        source::after_group_lines(ls, n + 1) == source::after_group_line(
            source::after_group_lines(ls, n),
            ls[n],
        ),
{
}

proof fn lemma_lines(b: BankModel, ls: Seq<Line>, n: int, c: Context, k: int)
    requires
        0 <= n <= ls.len(),
    ensures
        extract::after_lines(b, ls, n, c) matches Some((now, voices)) ==> {
            &&& voices.len() == n
            &&& 0 <= k < n ==> exists|x: BankModel| #[trigger]
                extract::names_in(x, c).groups == c.groups && voices[k] == bank::voice_of(
                    ls[k].kind,
                    ls[k].args,
                    extract::names_in(x, c),
                )
        },
    decreases n,
{
    if n > 0 {
        lemma_lines(b, ls, n - 1, c, k);
        if let Some((now, voices)) = extract::after_lines(b, ls, n, c) {
            let (had, before) = extract::after_lines(b, ls, n - 1, c)->0;
            if k == n - 1 {
                assert(extract::names_in(now, c).groups == c.groups);
                assert(voices[k] == bank::voice_of(
                    ls[k].kind,
                    ls[k].args,
                    extract::names_in(now, c),
                ));
            } else if 0 <= k < n - 1 {
                let x = choose|x: BankModel| #[trigger]
                    extract::names_in(x, c).groups == c.groups && before[k] == bank::voice_of(
                        ls[k].kind,
                        ls[k].args,
                        extract::names_in(x, c),
                    );
                assert(extract::names_in(x, c).groups == c.groups && voices[k] == before[k]);
            }
        }
    }
}

proof fn lemma_groups(gs: Seq<RawModel>, n: int, c: Context, i: int, k: int)
    requires
        0 <= n <= gs.len(),
    ensures
        extract::after_groups(gs, n, c) matches Some((b, groups)) ==> {
            &&& groups.len() == n
            &&& 0 <= i < n ==> {
                &&& groups[i].name == gs[i].name->0
                &&& groups[i].offset == gs[i].offset as u16
                &&& groups[i].entries.len() == gs[i].entries.len()
                &&& 0 <= k < gs[i].entries.len() ==> exists|x: BankModel| #[trigger]
                    extract::names_in(x, c).groups == c.groups && groups[i].entries[k]
                        == bank::voice_of(
                        gs[i].entries[k].kind,
                        gs[i].entries[k].args,
                        extract::names_in(x, c),
                    )
            }
        },
    decreases n,
{
    if n > 0 {
        lemma_groups(gs, n - 1, c, i, k);
        if let Some((had, groups)) = extract::after_groups(gs, n - 1, c) {
            lemma_lines(had, gs[n - 1].entries, gs[n - 1].entries.len() as int, c, k);
        }
    }
}

/// An extracted pack has the voicegroups of its files, in their order, each voice
/// that of its line, and the tables of its keysplits, each key as the table has
/// it.
pub proof fn an_extracted_pack_has_its_groups_in_order(
    src: extract::Sources,
    f: Files,
    i: int,
    k: int,
)
    ensures
        extract::extracted(src, f) matches Some((m, _)) ==> {
            let gs = extract::named_groups(src.groups@, src.groups@.len() as int);
            let ls = text::lines(src.keysplits@);
            let splits = source::after_split_lines(ls, ls.len() as int)->0;
            &&& m.voicegroups.len() == gs.len()
            &&& 0 <= i < gs.len() ==> m.voicegroups[i].name == gs[i].name->0
                && m.voicegroups[i].offset == gs[i].offset as u16 && m.voicegroups[i].entries.len()
                == gs[i].entries.len()
            &&& 0 <= i < gs.len() && 0 <= k < gs[i].entries.len() ==> exists|n: Names|
                m.voicegroups[i].entries[k] == #[trigger] bank::voice_of(
                    gs[i].entries[k].kind,
                    gs[i].entries[k].args,
                    n,
                ) && n.groups.len() == gs.len()
            &&& m.keysplits.len() == splits.heads.len()
            &&& 0 <= i < splits.heads.len() ==> m.keysplits[i].name == splits.heads[i].name
                && m.keysplits[i].map.len() == 128
            &&& 0 <= i < splits.heads.len() && 0 <= k < 128 ==> m.keysplits[i].map[k]
                == source::split_at(splits, splits.heads[i], k)
        },
{
    if let Some((m, _)) = extract::extracted(src, f) {
        let gs = extract::named_groups(src.groups@, src.groups@.len() as int);
        let ls = text::lines(src.keysplits@);
        let splits = source::after_split_lines(ls, ls.len() as int)->0;
        let c = Context {
            groups: extract::group_names(gs),
            tables: extract::table_names(splits),
            samples: extract::labels_of(src.samples@),
            waves: extract::labels_of(src.waves@),
            files: f,
        };
        lemma_groups(gs, gs.len() as int, c, i, k);
        if 0 <= i < gs.len() && 0 <= k < gs[i].entries.len() {
            let x = choose|x: BankModel| #[trigger]
                extract::names_in(x, c).groups == c.groups && m.voicegroups[i].entries[k]
                    == bank::voice_of(
                    gs[i].entries[k].kind,
                    gs[i].entries[k].args,
                    extract::names_in(x, c),
                );
            assert(extract::names_in(x, c).groups.len() == gs.len());
        }
    }
}

/// What a key outside its table reads are the bytes round it: tables stand one
/// behind the other.
pub proof fn a_table_reads_on_into_its_neighbours(s: Splits, h: Head, key: int)
    ensures
        0 <= h.start + (key - h.base) < s.bytes.len() ==> source::split_at(s, h, key)
            == s.bytes[h.start + (key - h.base)],
        h.start + (key - h.base) < 0 ==> source::split_at(s, h, key) == 255,
        h.start + (key - h.base) >= s.bytes.len() ==> source::split_at(s, h, key) == 255,
{
}

} // verus!
