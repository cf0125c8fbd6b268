//! What holds of the engine as a whole.

use vstd::prelude::*;
use crate::audio::data::{Event, EventKind, MusicModel, Voice};
use crate::audio::engine;
use crate::audio::engine::{Channel, EnvPhase, Play, Resolved};
use crate::audio::subset;

verus! {

// ---- every note is accounted for -----------------------------------------

/// How many notes neither sound nor stand among the dropped.
pub open spec fn unaccounted(p: Play) -> int {
    p.notes_on - p.dropped.len() - p.channels.len()
}

/// A note is accounted for exactly once: it starts one channel, or it stands
/// among the dropped. No other channel and no track changes.
pub proof fn a_note_is_accounted_for(
    m: MusicModel,
    p: Play,
    ti: int,
    key: u8,
    vel: u8,
    dur: u32,
)
    ensures
        ({
            let q = engine::after_note(m, p, ti, key, vel, dur);
            let r = engine::resolved(
                m,
                m.songs[p.song->0 as int].voicegroup as int,
                p.tracks[ti].prog as int,
                key,
            );
            let sounds = r is Some && p.channels.len() < engine::MAX_CHANNELS;
            &&& q.notes_on == p.notes_on + 1
            &&& sounds ==> q.channels == p.channels.push(engine::started(r->0, p, ti, vel, dur))
                && q.dropped == p.dropped
            &&& !sounds ==> q.channels == p.channels && q.dropped == p.dropped.push(
                (ti as usize, p.tracks[ti].prog, key),
            )
            &&& q.tracks == p.tracks
            &&& unaccounted(q) == unaccounted(p)
        }),
{
}

proof fn lemma_events_accounted(
    m: MusicModel,
    p: Play,
    ti: int,
    evs: Seq<Event>,
    from: int,
    to: int,
)
    ensures
        unaccounted(engine::after_events(m, p, ti, evs, from, to)) == unaccounted(p),
    decreases to - from,
{
    if from < to {
        lemma_events_accounted(m, p, ti, evs, from, to - 1);
        let q = engine::after_events(m, p, ti, evs, from, to - 1);
        match evs[to - 1].kind {
            EventKind::Note { key, vel, dur } => a_note_is_accounted_for(m, q, ti, key, vel, dur),
            _ => {},
        }
    }
}

proof fn lemma_tracks_accounted(m: MusicModel, p: Play, n: int)
    ensures
        unaccounted(engine::after_tracks(m, p, n)) == unaccounted(p),
    decreases n,
{
    if n > 0 {
        lemma_tracks_accounted(m, p, n - 1);
        let q = engine::after_tracks(m, p, n - 1);
        let t = q.tracks[n - 1];
        if !t.done {
            let evs = engine::events_of(m, q.song->0 as int, t.events as int);
            let end = engine::due_end(evs, t.next as int, q.tick);
            lemma_events_accounted(m, q, n - 1, evs, t.next as int, end);
        }
    }
}

/// Over a tick, every note the score asked for sounds or stands among the
/// dropped.
pub proof fn a_tick_accounts_for_its_notes(m: MusicModel, p: Play)
    ensures
        unaccounted(engine::after_tick(m, p)) == unaccounted(p),
{
    if p.song is Some {
        let q = engine::after_gates(engine::after_wrap(m, p));
        lemma_tracks_accounted(m, q, q.tracks.len() as int);
    }
}

// ---- gates ---------------------------------------------------------------

/// A channel after `n` counts of its gate.
pub open spec fn gated(c: Channel, n: int) -> Channel
    decreases n,
{
    if n <= 0 {
        c
    } else {
        engine::after_gate(gated(c, n - 1))
    }
}

/// A note holds for exactly as many ticks as its gate, then is released.
pub proof fn a_note_holds_for_its_gate(c: Channel, n: int)
    requires
        0 <= n <= c.gate,
        c.phase_env != EnvPhase::Dead,
        c.gate > 0,
    ensures
        gated(c, n).gate == c.gate - n,
        gated(c, n).phase_env == if n < c.gate {
            c.phase_env
        } else {
            EnvPhase::Release
        },
    decreases n,
{
    if n > 0 {
        a_note_holds_for_its_gate(c, n - 1);
    }
}

// ---- envelopes -----------------------------------------------------------

/// How far along a stage is.
pub open spec fn stage(phase: EnvPhase) -> int {
    match phase {
        EnvPhase::Attack => 0,
        EnvPhase::Decay => 1,
        EnvPhase::Sustain => 2,
        EnvPhase::Release => 3,
        EnvPhase::Dead => 4,
    }
}

/// An envelope only goes forward, whether by a frame or by its gate, and a
/// dead channel stays dead.
pub proof fn an_envelope_goes_forward(c: Channel, ran_out: bool)
    ensures
        stage(c.phase_env) <= stage(engine::after_envelope(c, ran_out).phase_env),
        stage(c.phase_env) <= stage(engine::after_gate(c).phase_env),
        c.dead ==> engine::after_envelope(c, ran_out).dead && engine::after_gate(c).dead,
{
}

proof fn lemma_living_are_not_dead(cs: Seq<Channel>, n: int)
    requires
        0 <= n <= cs.len(),
    ensures
        forall|k: int|
            0 <= k < engine::living(cs, n).len() ==> !(#[trigger] engine::living(cs, n)[k]).dead,
        (forall|k: int| 0 <= k < n ==> !(#[trigger] cs[k]).dead) ==> engine::living(cs, n)
            == cs.take(n),
    decreases n,
{
    if n > 0 {
        lemma_living_are_not_dead(cs, n - 1);
        assert(cs.take(n) =~= cs.take(n - 1).push(cs[n - 1]));
    } else {
        assert(cs.take(0) =~= Seq::empty());
    }
}

/// No dead channel outlives its frame, and a frame in which nothing died
/// leaves every channel in place.
pub proof fn a_frame_clears_the_dead(p: Play)
    ensures
        forall|k: int|
            0 <= k < engine::after_frame(p).channels.len() ==> !(
            #[trigger] engine::after_frame(p).channels[k]).dead,
        (forall|k: int| 0 <= k < p.channels.len() ==> !(#[trigger] p.channels[k]).dead)
            ==> engine::after_frame(p).channels == p.channels,
{
    lemma_living_are_not_dead(p.channels, p.channels.len() as int);
    assert(p.channels.take(p.channels.len() as int) =~= p.channels);
}

// ---- looping -------------------------------------------------------------

/// A looping song never ends at a frame; one that does not loop ends exactly
/// when every track is done and nothing sounds.
pub proof fn when_a_song_ends(p: Play)
    ensures
        p.looping ==> engine::after_frame(p).song == p.song,
        !p.looping && p.song is Some ==> (engine::after_frame(p).song is None <==> (forall|i: int|
            0 <= i < p.tracks.len() ==> (#[trigger] p.tracks[i]).done) && engine::living(
            p.channels,
            p.channels.len() as int,
        ).len() == 0),
{
}

proof fn lemma_tracks_keep_tick(m: MusicModel, p: Play, n: int)
    ensures
        engine::after_tracks(m, p, n).tick == p.tick,
    decreases n,
{
    if n > 0 {
        lemma_tracks_keep_tick(m, p, n - 1);
        let q = engine::after_tracks(m, p, n - 1);
        let t = q.tracks[n - 1];
        if !t.done {
            let evs = engine::events_of(m, q.song->0 as int, t.events as int);
            let end = engine::due_end(evs, t.next as int, q.tick);
            lemma_events_keep_tick(m, q, n - 1, evs, t.next as int, end);
        }
    }
}

proof fn lemma_events_keep_tick(
    m: MusicModel,
    p: Play,
    ti: int,
    evs: Seq<Event>,
    from: int,
    to: int,
)
    ensures
        engine::after_events(m, p, ti, evs, from, to).tick == p.tick,
    decreases to - from,
{
    if from < to {
        lemma_events_keep_tick(m, p, ti, evs, from, to - 1);
    }
}

/// A looping song stays within its loop: once at or before the loop end it
/// never passes it.
pub proof fn a_loop_is_never_left(m: MusicModel, p: Play)
    requires
        p.song is Some,
        p.looping,
        m.songs[p.song->0 as int].loop_start is Some,
        m.songs[p.song->0 as int].loop_end is Some,
        m.songs[p.song->0 as int].loop_start->0 < m.songs[p.song->0 as int].loop_end->0,
        p.tick <= m.songs[p.song->0 as int].loop_end->0,
    ensures
        engine::after_tick(m, p).tick <= m.songs[p.song->0 as int].loop_end->0,
{
    let q = engine::after_gates(engine::after_wrap(m, p));
    lemma_tracks_keep_tick(m, q, q.tracks.len() as int);
}

proof fn lemma_leading_split(evs: Seq<Event>, tick: int, i: int)
    requires
        forall|a: int, b: int|
            0 <= a <= b < evs.len() ==> (#[trigger] evs[a]).tick <= (#[trigger] evs[b]).tick,
        0 <= i < evs.len(),
    ensures
        i < engine::leading(evs, tick) <==> evs[i].tick < tick,
    decreases evs.len(),
{
    if evs[0].tick < tick {
        let rest = evs.skip(1);
        if i > 0 {
            assert forall|a: int, b: int| 0 <= a <= b < rest.len() implies (#[trigger] rest[a]).tick
                <= (#[trigger] rest[b]).tick by {
                assert(evs[a + 1].tick <= evs[b + 1].tick);
            }
            lemma_leading_split(rest, tick, i - 1);
            assert(rest[i - 1] == evs[i]);
        } else {
            lemma_leading_nonneg(rest, tick);
        }
    } else {
        assert(evs[0].tick <= evs[i].tick);
    }
}

proof fn lemma_leading_nonneg(evs: Seq<Event>, tick: int)
    ensures
        engine::leading(evs, tick) >= 0,
    decreases evs.len(),
{
    if evs.len() > 0 && evs[0].tick < tick {
        lemma_leading_nonneg(evs.skip(1), tick);
    }
}

/// After a wrap, a track whose events are in order goes on with exactly those
/// at or after the loop start.
pub proof fn a_wrap_resumes_at_the_loop_start(evs: Seq<Event>, start: int)
    requires
        forall|a: int, b: int|
            0 <= a <= b < evs.len() ==> (#[trigger] evs[a]).tick <= (#[trigger] evs[b]).tick,
    ensures
        forall|i: int|
            0 <= i < evs.len() ==> (engine::leading(evs, start) <= i <==> (#[trigger] evs[i]).tick
                >= start),
{
    assert forall|i: int| 0 <= i < evs.len() implies (engine::leading(evs, start) <= i <==> (
    #[trigger] evs[i]).tick >= start) by {
        lemma_leading_split(evs, start, i);
    }
}

// ---- subsets -------------------------------------------------------------

/// What a note resolves to in a pack, with the numbers of its subset.
pub open spec fn renumbered_note(
    m: MusicModel,
    songs: Seq<usize>,
    r: Option<Resolved>,
) -> Option<Resolved> {
    let groups = subset::group_flags(m, songs);
    match r {
        None => None,
        Some(x) => Some(
            Resolved {
                voice: subset::renumbered(
                    x.voice,
                    subset::sample_flags(m, groups),
                    subset::wave_flags(m, groups),
                    subset::table_flags(m, groups),
                    groups,
                ),
                play_key: x.play_key,
                rp: x.rp,
            },
        ),
    }
}

/// The voice of a program of a kept group, under its new number.
proof fn lemma_subset_voice(m: MusicModel, songs: Seq<usize>, g: int, program: int)
    requires
        subset::sound(m, songs),
        subset::countable(m, songs),
        0 <= g < m.voicegroups.len(),
        subset::reaches(m, songs, g),
    ensures
        ({
            let groups = subset::group_flags(m, songs);
            let new = engine::voice_at(
                subset::subset_of(m, songs),
                subset::rank(groups, g) as int,
                program,
            );
            match engine::voice_at(m, g, program) {
                None => new is None,
                Some(v) => new == Some(
                    subset::renumbered(
                        v,
                        subset::sample_flags(m, groups),
                        subset::wave_flags(m, groups),
                        subset::table_flags(m, groups),
                        groups,
                    ),
                ),
            }
        }),
{
    let groups = subset::group_flags(m, songs);
    assert(groups[g]);
    subset::subset_keeps_what_is_reached(m, songs);
}

/// A note of a song resolves in the subset to what it resolves to in the
/// whole pack, under the new numbers: cutting a pack down loses no
/// instrument.
pub proof fn a_subset_resolves_alike(
    m: MusicModel,
    songs: Seq<usize>,
    s: int,
    program: int,
    key: u8,
)
    requires
        subset::sound(m, songs),
        subset::countable(m, songs),
        0 <= s < songs.len(),
        forall|t: int| 0 <= t < m.keysplits.len() ==> (#[trigger] m.keysplits[t]).map.len() == 128,
    ensures
        engine::resolved(
            subset::subset_of(m, songs),
            subset::subset_of(m, songs).songs[s].voicegroup as int,
            program,
            key,
        ) == renumbered_note(
            m,
            songs,
            engine::resolved(m, m.songs[songs[s] as int].voicegroup as int, program, key),
        ),
{
    let r = subset::subset_of(m, songs);
    let groups = subset::group_flags(m, songs);
    let g = m.songs[songs[s] as int].voicegroup as int;
    subset::lemma_reach_start(m, songs, s);
    subset::subset_keeps_what_is_reached(m, songs);
    assert(groups[g]);
    assert(subset::rank(groups, g) < r.voicegroups.len());
    subset::lemma_kept(m.voicegroups, groups, m.voicegroups.len() as int);
    lemma_subset_voice(m, songs, g, program);
    if let Some(v) = engine::voice_at(m, g, program) {
        let k = program - m.voicegroups[g].offset;
        subset::lemma_refers_to_kept(m, songs, g, k);
        match v {
            Voice::Keysplit { group, table } => {
                assert(groups[group as int]);
                assert(subset::rank(groups, group as int) < r.voicegroups.len());
                let tables = subset::table_flags(m, groups);
                assert(tables[table as int]);
                assert(subset::rank(tables, table as int) < r.keysplits.len());
                subset::lemma_kept(m.keysplits, tables, m.keysplits.len() as int);
                let idx = m.keysplits[table as int].map[(key % 128) as int];
                lemma_subset_voice(m, songs, group as int, idx as int);
            },
            Voice::KeysplitAll { group } => {
                assert(groups[group as int]);
                assert(subset::rank(groups, group as int) < r.voicegroups.len());
                lemma_subset_voice(m, songs, group as int, key as int);
            },
            _ => {},
        }
    }
}

} // verus!
