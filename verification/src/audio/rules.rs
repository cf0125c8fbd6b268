//! What the engine does, rule by rule.

use vstd::prelude::*;
use crate::audio::check;
use crate::audio::data::{Event, EventKind, MusicModel, Voice};
use crate::audio::engine;
use crate::audio::engine::{Channel, EnvPhase, Play, Resolved, Track};
use crate::audio::mixer;
use crate::audio::tables;
use crate::audio::wav;
use crate::codec;

verus! {

// ---- the tempo -------------------------------------------------------------

proof fn lemma_tempo_run(tempos: Seq<(u32, u32)>, i: int, tick: int, e: int)
    requires
        0 <= i <= e <= tempos.len(),
        forall|k: int| i <= k < e ==> (#[trigger] tempos[k]).0 <= tick,
        e < tempos.len() ==> tick < tempos[e].0,
    ensures
        engine::tempo_run(tempos, i, tick) == e,
    decreases e - i,
{
    if i < e {
        assert(tempos[i].0 <= tick);
        lemma_tempo_run(tempos, i + 1, tick, e);
    }
}

/// Where the changes of tempo stand in the order of their ticks, the tempo at a
/// tick is that of the last change that has begun.
pub proof fn the_last_change_of_tempo_holds(tempos: Seq<(u32, u32)>, tick: int, k: int)
    requires
        forall|i: int, j: int|
            0 <= i <= j < tempos.len() ==> (#[trigger] tempos[i]).0 <= (#[trigger] tempos[j]).0,
        0 <= k < tempos.len(),
        tempos[k].0 <= tick,
        k + 1 < tempos.len() ==> tick < tempos[k + 1].0,
    ensures
        engine::tempo_at(tempos, tick) == tempos[k].1,
{
    lemma_tempo_run(tempos, 0, tick, k + 1);
}

/// Before the first change a beat lasts half a second.
pub proof fn before_the_first_change_a_beat_is_half_a_second(
    tempos: Seq<(u32, u32)>,
    tick: int,
)
    requires
        tempos.len() > 0 ==> tick < tempos[0].0,
    ensures
        engine::tempo_at(tempos, tick) == 500_000,
{
    lemma_tempo_run(tempos, 0, tick, 0);
}

/// A change of tempo changes nothing of what was before it, and holds from its
/// own tick on.
pub proof fn a_change_of_tempo_holds_from_its_tick(
    tempos: Seq<(u32, u32)>,
    at: u32,
    us: u32,
    tick: int,
)
    requires
        forall|i: int| 0 <= i < tempos.len() ==> (#[trigger] tempos[i]).0 <= at,
    ensures
        tick < at ==> engine::tempo_at(tempos.push((at, us)), tick) == engine::tempo_at(
            tempos,
            tick,
        ),
        tick >= at ==> engine::tempo_at(tempos.push((at, us)), tick) == us,
{
    let more = tempos.push((at, us));
    if tick >= at {
        assert forall|k: int| 0 <= k < more.len() implies (#[trigger] more[k]).0 <= tick by {
            if k < tempos.len() {
                assert(tempos[k].0 <= at);
            }
        }
        lemma_tempo_run(more, 0, tick, more.len() as int);
    } else {
        lemma_tempo_run_pushed(tempos, (at, us), 0, tick);
        lemma_tempo_run_bounds(tempos, 0, tick);
    }
}

proof fn lemma_tempo_run_bounds(tempos: Seq<(u32, u32)>, i: int, tick: int)
    requires
        0 <= i <= tempos.len(),
    ensures
        i <= engine::tempo_run(tempos, i, tick) <= tempos.len(),
    decreases tempos.len() - i,
{
    if i < tempos.len() && tempos[i].0 <= tick {
        lemma_tempo_run_bounds(tempos, i + 1, tick);
    }
}

proof fn lemma_tempo_run_pushed(tempos: Seq<(u32, u32)>, e: (u32, u32), i: int, tick: int)
    requires
        0 <= i <= tempos.len(),
        tick < e.0,
    ensures
        engine::tempo_run(tempos.push(e), i, tick) == engine::tempo_run(tempos, i, tick),
    decreases tempos.len() - i,
{
    if i < tempos.len() && tempos[i].0 <= tick {
        lemma_tempo_run_pushed(tempos, e, i + 1, tick);
    }
}

/// The ticks of the stretches of constant tempo, one after the other.
pub open spec fn stretched(s: Seq<(int, u32)>, n: int) -> int
    decreases n,
{
    if n <= 0 {
        0
    } else {
        stretched(s, n - 1) + s[n - 1].0
    }
}

proof fn lemma_stretched_front(a: (int, u32), s: Seq<(int, u32)>, n: int)
    requires
        0 <= n <= s.len(),
    ensures
        stretched(seq![a] + s, n + 1) == a.0 + stretched(s, n),
    decreases n,
{
    let all = seq![a] + s;
    if n <= 0 {
        assert(stretched(all, 1) == stretched(all, 0) + all[0].0);
        assert(all[0] == a);
    } else {
        lemma_stretched_front(a, s, n - 1);
        assert(all[n] == s[n - 1]);
    }
}

proof fn lemma_spans(tempos: Seq<(u32, u32)>, i: int, at: int, us: u32, tick: int)
    requires
        forall|a: int, b: int|
            0 <= a <= b < tempos.len() ==> (#[trigger] tempos[a]).0 <= (#[trigger] tempos[b]).0,
        0 <= i <= tempos.len(),
        i < tempos.len() ==> at <= tempos[i].0,
        at <= tick,
        forall|k: int| 0 <= k < i ==> (#[trigger] tempos[k]).0 <= at,
        us == engine::tempo_upto(tempos, i),
    ensures
        ({
            let s = check::spans(tempos, i, at, us, tick);
            &&& stretched(s, s.len() as int) == tick - at
            &&& forall|k: int, t: int|
                #![trigger s[k], engine::tempo_at(tempos, t)]
                0 <= k < s.len() && at + stretched(s, k) <= t < at + stretched(s, k + 1)
                    ==> s[k].1 == engine::tempo_at(tempos, t)
            &&& forall|k: int| 0 <= k < s.len() ==> 0 <= (#[trigger] s[k]).0
        }),
    decreases tempos.len() - i,
{
    let s = check::spans(tempos, i, at, us, tick);
    if i >= tempos.len() || tempos[i].0 >= tick {
        assert(s =~= seq![(tick - at, us)]);
        assert(stretched(s, 1) == stretched(s, 0) + s[0].0);
        assert forall|k: int, t: int|
            #![trigger s[k], engine::tempo_at(tempos, t)]
            0 <= k < s.len() && at + stretched(s, k) <= t < at + stretched(s, k + 1) implies s[k].1
            == engine::tempo_at(tempos, t) by {
            assert(k == 0);
            lemma_tempo_run(tempos, 0, t, i);
        }
    } else {
        let rest = check::spans(tempos, i + 1, tempos[i].0 as int, tempos[i].1, tick);
        let head = (tempos[i].0 - at, us);
        assert(s =~= seq![head] + rest);
        lemma_spans(tempos, i + 1, tempos[i].0 as int, tempos[i].1, tick);
        lemma_stretched_front(head, rest, rest.len() as int);
        assert(stretched(s, 0) == 0);
        assert(stretched(s, 1) == head.0) by {
            lemma_stretched_front(head, rest, 0);
        }
        assert forall|k: int, t: int|
            #![trigger s[k], engine::tempo_at(tempos, t)]
            0 <= k < s.len() && at + stretched(s, k) <= t < at + stretched(s, k + 1) implies s[k].1
            == engine::tempo_at(tempos, t) by {
            if k == 0 {
                assert(s[0] == head);
                lemma_tempo_run(tempos, 0, t, i);
            } else {
                lemma_stretched_front(head, rest, k - 1);
                lemma_stretched_front(head, rest, k);
                assert(s[k] == rest[k - 1]);
                assert(tempos[i].0 + stretched(rest, k - 1) <= t < tempos[i].0 + stretched(
                    rest,
                    k - 1 + 1,
                ));
            }
        }
        assert forall|k: int| 0 <= k < s.len() implies 0 <= (#[trigger] s[k]).0 by {
            if k > 0 {
                assert(s[k] == rest[k - 1]);
            }
        }
    }
}

/// The stretches of constant tempo cover the ticks up to `tick` without a gap,
/// and the beat of each lasts as long as the tempo at each of its ticks says.
pub proof fn the_stretches_follow_the_tempo(tempos: Seq<(u32, u32)>, tick: int)
    requires
        forall|a: int, b: int|
            0 <= a <= b < tempos.len() ==> (#[trigger] tempos[a]).0 <= (#[trigger] tempos[b]).0,
        0 <= tick,
    ensures
        ({
            let s = check::spans(tempos, 0, 0, 500_000, tick);
            &&& stretched(s, s.len() as int) == tick
            &&& forall|k: int, t: int|
                #![trigger s[k], engine::tempo_at(tempos, t)]
                0 <= k < s.len() && stretched(s, k) <= t < stretched(s, k + 1) ==> s[k].1
                    == engine::tempo_at(tempos, t)
            &&& forall|k: int| 0 <= k < s.len() ==> 0 <= (#[trigger] s[k]).0
        }),
{
    lemma_spans(tempos, 0, 0, 500_000, tick);
}

// ---- what a note resolves to ----------------------------------------------

/// Whether a voice makes a sound of its own: a sample or one of the three
/// generators.
pub open spec fn sounds(v: Voice) -> bool {
    v is DirectSound || v is Square || v is Wave || v is Noise
}

/// A program names the entry of its voicegroup that stands as far behind the
/// group's first: a voice that sounds plays at the key that is asked for, in
/// the middle.
pub proof fn a_program_names_its_voice(m: MusicModel, group: int, i: int, key: u8)
    requires
        0 <= group < m.voicegroups.len(),
        0 <= i < m.voicegroups[group].entries.len(),
        sounds(m.voicegroups[group].entries[i]),
    ensures
        engine::resolved(m, group, m.voicegroups[group].offset + i, key) == Some(
            (Resolved { voice: m.voicegroups[group].entries[i], play_key: key, rp: 0 }),
        ),
{
}

/// Nothing sounds for a program outside its voicegroup, for a group that is not
/// there, nor for a voice that is no instrument.
pub proof fn what_is_not_there_does_not_sound(m: MusicModel, group: int, program: int, key: u8)
    ensures
        group < 0 || group >= m.voicegroups.len() ==> engine::resolved(m, group, program, key)
            is None,
        0 <= group < m.voicegroups.len() && !(m.voicegroups[group].offset <= program
            < m.voicegroups[group].offset + m.voicegroups[group].entries.len())
            ==> engine::resolved(m, group, program, key) is None,
        0 <= group < m.voicegroups.len() && m.voicegroups[group].offset <= program
            < m.voicegroups[group].offset + m.voicegroups[group].entries.len()
            && m.voicegroups[group].entries[program - m.voicegroups[group].offset] is Unsupported
            ==> engine::resolved(m, group, program, key) is None,
{
}

/// A split keyboard plays, for each key, the voice of its group that its table
/// names for that key, at that key; nothing where the table names none.
pub proof fn a_split_keyboard_goes_by_its_table(
    m: MusicModel,
    group: int,
    i: int,
    sub: u16,
    table: u16,
    key: u8,
)
    requires
        0 <= group < m.voicegroups.len(),
        0 <= i < m.voicegroups[group].entries.len(),
        m.voicegroups[group].entries[i] == (Voice::Keysplit { group: sub, table }),
        table < m.keysplits.len(),
        key < 128,
    ensures
        ({
            let named = m.keysplits[table as int].map[key as int];
            let heard = engine::resolved(m, group, m.voicegroups[group].offset + i, key);
            &&& named == 255 ==> heard is None
            &&& named != 255 && sub < m.voicegroups.len() && m.voicegroups[sub as int].offset
                <= named < m.voicegroups[sub as int].offset + m.voicegroups[sub as int].entries.len()
                && sounds(
                m.voicegroups[sub as int].entries[named - m.voicegroups[sub as int].offset],
            ) ==> heard == Some(
                (Resolved {
                    voice: m.voicegroups[sub as int].entries[named - m.voicegroups[sub as int].offset],
                    play_key: key,
                    rp: 0,
                }),
            )
        }),
{
}

/// The key of a drumset names its voice, which sounds at its own base key and
/// where its own pan puts it: pan bytes 0xC0 - 64 .. 0xC0 + 63 from left to
/// right, 0 for the middle.
pub proof fn a_drum_is_named_by_its_key(m: MusicModel, group: int, i: int, sub: u16, key: u8)
    requires
        0 <= group < m.voicegroups.len(),
        0 <= i < m.voicegroups[group].entries.len(),
        m.voicegroups[group].entries[i] == (Voice::KeysplitAll { group: sub }),
        sub < m.voicegroups.len(),
        m.voicegroups[sub as int].offset <= key < m.voicegroups[sub as int].offset
            + m.voicegroups[sub as int].entries.len(),
    ensures
        ({
            let v = m.voicegroups[sub as int].entries[key - m.voicegroups[sub as int].offset];
            let heard = engine::resolved(m, group, m.voicegroups[group].offset + i, key);
            &&& sounds(v) ==> heard is Some && heard->0.voice == v
            &&& !sounds(v) ==> heard is None
            &&& v matches Voice::DirectSound { base_key, pan, .. } ==> heard->0.play_key == base_key
                && is_drum_pan(heard->0.rp as int, pan)
            &&& v matches Voice::Square { base_key, pan, .. } ==> heard->0.play_key == base_key
                && is_drum_pan(heard->0.rp as int, pan)
            &&& v matches Voice::Wave { base_key, pan, .. } ==> heard->0.play_key == base_key
                && is_drum_pan(heard->0.rp as int, pan)
            &&& v matches Voice::Noise { base_key, pan, .. } ==> heard->0.play_key == base_key
                && is_drum_pan(heard->0.rp as int, pan)
        }),
{
}

/// Whether `rp` is where a pan byte puts a drum: twice its distance from 0xC0,
/// its top bit taken as set; the middle for 0.
pub open spec fn is_drum_pan(rp: int, pan: u8) -> bool {
    &&& pan == 0 ==> rp == 0
    &&& 0 < pan < 128 ==> rp == 2 * (pan - 64)
    &&& pan >= 128 ==> rp == 2 * (pan - 192)
}

// ---- loudness ---------------------------------------------------------------

proof fn lemma_scaled(a: int, b: int, x: int, y: int, d: int)
    requires
        0 <= a <= b,
        0 <= x <= y,
        0 < d,
    ensures
        a * x / d <= b * y / d,
        0 <= a * x / d,
{
    assert(0 <= a * x <= b * y) by (nonlinear_arith)
        requires
            0 <= a <= b,
            0 <= x <= y,
    ;
    assert(0 <= a * x / d <= b * y / d) by (nonlinear_arith)
        requires
            0 <= a * x <= b * y,
            0 < d,
    ;
}

/// A harder struck note and a louder track are never softer, on either side.
pub proof fn louder_is_never_softer(
    vel: int,
    vel2: int,
    vol: int,
    vol2: int,
    pan: int,
    rp: int,
)
    requires
        0 <= vel <= vel2,
        0 <= vol <= vol2,
        -128 <= pan <= 127,
        -128 <= rp <= 127,
    ensures
        0 <= engine::sides(vel, vol, pan, rp).0 <= engine::sides(vel2, vol2, pan, rp).0 <= 255,
        0 <= engine::sides(vel, vol, pan, rp).1 <= engine::sides(vel2, vol2, pan, rp).1 <= 255,
{
    let y = engine::wide_pan(pan);
    lemma_scaled((y + 128) * 2, (y + 128) * 2, vol, vol2, 256);
    lemma_scaled((127 - y) * 2, (127 - y) * 2, vol, vol2, 256);
    lemma_scaled(vel, vel2, 127 - rp, 127 - rp, 1);
    lemma_scaled(vel, vel2, rp + 128, rp + 128, 1);
    let ml = (127 - y) * 2 * vol / 256;
    let ml2 = (127 - y) * 2 * vol2 / 256;
    let mr = (y + 128) * 2 * vol / 256;
    let mr2 = (y + 128) * 2 * vol2 / 256;
    assert(vel * (127 - rp) / 1 == vel * (127 - rp) && vel2 * (127 - rp) / 1 == vel2 * (127
        - rp));
    assert(vel * (rp + 128) / 1 == vel * (rp + 128) && vel2 * (rp + 128) / 1 == vel2 * (rp
        + 128));
    lemma_scaled(vel * (127 - rp), vel2 * (127 - rp), ml, ml2, 16384);
    lemma_scaled(vel * (rp + 128), vel2 * (rp + 128), mr, mr2, 16384);
}

/// The farther a track or a drum is panned to the right, the softer its left
/// side and the louder its right one.
pub proof fn panning_right_moves_the_sound_right(
    vel: int,
    vol: int,
    pan: int,
    pan2: int,
    rp: int,
    rp2: int,
)
    requires
        0 <= vel,
        0 <= vol,
        -128 <= pan <= pan2 <= 127,
        -128 <= rp <= rp2 <= 127,
    ensures
        engine::sides(vel, vol, pan, rp).0 >= engine::sides(vel, vol, pan2, rp2).0,
        engine::sides(vel, vol, pan, rp).1 <= engine::sides(vel, vol, pan2, rp2).1,
{
    let y = engine::wide_pan(pan);
    let y2 = engine::wide_pan(pan2);
    lemma_scaled((y + 128) * 2, (y2 + 128) * 2, vol, vol, 256);
    lemma_scaled((127 - y2) * 2, (127 - y) * 2, vol, vol, 256);
    lemma_scaled(vel, vel, 127 - rp2, 127 - rp, 1);
    lemma_scaled(vel, vel, rp + 128, rp2 + 128, 1);
    let ml = (127 - y) * 2 * vol / 256;
    let ml2 = (127 - y2) * 2 * vol / 256;
    let mr = (y + 128) * 2 * vol / 256;
    let mr2 = (y2 + 128) * 2 * vol / 256;
    assert(vel * (127 - rp) / 1 == vel * (127 - rp) && vel * (127 - rp2) / 1 == vel * (127
        - rp2));
    assert(vel * (rp + 128) / 1 == vel * (rp + 128) && vel * (rp2 + 128) / 1 == vel * (rp2
        + 128));
    lemma_scaled(vel * (127 - rp2), vel * (127 - rp), ml2, ml, 16384);
    lemma_scaled(vel * (rp + 128), vel * (rp2 + 128), mr, mr2, 16384);
}

/// In the middle both sides of a note are its velocity by its volume, over 128:
/// the left one of 127 parts of that, the right one of 128.
pub proof fn a_centred_note_is_as_loud_as_its_track(vel: int, vol: int)
    requires
        0 <= vel <= 127,
        0 <= vol <= 255,
    ensures
        engine::sides(vel, vol, 0, 0).0 == if vel * 127 * (vol * 127 / 128) / 16384 < 255 {
            vel * 127 * (vol * 127 / 128) / 16384
        } else {
            255
        },
        engine::sides(vel, vol, 0, 0).1 == if vel * vol / 128 < 255 {
            vel * vol / 128
        } else {
            255
        },
{
    assert((127 - 0) * 2 * vol == 254 * vol && (0 + 128) * 2 * vol == 256 * vol) by (
    nonlinear_arith);
    assert(254 * vol / 256 == vol * 127 / 128);
    assert(256 * vol / 256 == vol);
    assert(vel * (0 + 128) * vol == 128 * (vel * vol)) by (nonlinear_arith);
    assert(128 * (vel * vol) / 16384 == vel * vol / 128);
    assert(vel * (127 - 0) * (vol * 127 / 128) == vel * 127 * (vol * 127 / 128));
}

/// A side to which nothing is panned is silent: the right one of what is wholly
/// left, the left one of what is wholly right.
pub proof fn a_wholly_panned_note_leaves_a_side_silent(vel: int, vol: int, pan: int, rp: int)
    requires
        0 <= vel,
        0 <= vol,
        -128 <= pan <= 127,
        -128 <= rp <= 127,
    ensures
        pan <= -64 || rp == -128 ==> engine::sides(vel, vol, pan, rp).1 == 0,
        pan >= 64 || rp == 127 ==> engine::sides(vel, vol, pan, rp).0 == 0,
{
    let y = engine::wide_pan(pan);
    let ml = (127 - y) * 2 * vol / 256;
    let mr = (y + 128) * 2 * vol / 256;
    if pan <= -64 {
        assert(y == -128);
        assert(0 * 2 * vol == 0) by (nonlinear_arith);
        assert(vel * (rp + 128) * 0 == 0) by (nonlinear_arith);
    }
    if rp == -128 {
        assert(vel * 0 * mr == 0) by (nonlinear_arith);
    }
    if pan >= 64 {
        assert(y == 127);
        assert(0 * 2 * vol == 0) by (nonlinear_arith);
        assert(vel * (127 - rp) * 0 == 0) by (nonlinear_arith);
    }
    if rp == 127 {
        assert(vel * 0 * ml == 0) by (nonlinear_arith);
    }
}

/// The goal of a generator's note is a sixteenth of its two sides, at most 15; a
/// sample has none.
pub proof fn a_goal_is_a_sixteenth_of_both_sides(r: Resolved, vel: u8, t: Track)
    ensures
        ({
            let both = engine::sides(vel as int, t.vol as int, t.pan as int, r.rp as int);
            &&& r.voice is DirectSound ==> engine::note_goal(r, vel, t) == 0
            &&& r.voice !is DirectSound && (both.0 + both.1) / 16 <= 15 ==> engine::note_goal(
                r,
                vel,
                t,
            ) == (both.0 + both.1) / 16
            &&& r.voice !is DirectSound && (both.0 + both.1) / 16 > 15 ==> engine::note_goal(
                r,
                vel,
                t,
            ) == 15
        }),
{
}

/// The wave channel's volume is the quarter nearest to its level of 15.
pub proof fn the_wave_volume_is_the_nearest_quarter(level: int)
    requires
        0 <= level <= 15,
    ensures
        engine::wave_quarters(level) == (level + 2) / 4,
{
}

// ---- what an event does ---------------------------------------------------------

/// A control event sets its own part of its own track, and nothing else.
pub proof fn a_control_sets_its_part_of_its_track(
    m: MusicModel,
    p: Play,
    ti: int,
    k: EventKind,
)
    requires
        0 <= ti < p.tracks.len(),
        k !is Note,
    ensures
        ({
            let q = engine::after_event(m, p, ti, k);
            let t = p.tracks[ti];
            let u = q.tracks[ti];
            &&& q == (Play { tracks: q.tracks, ..p })
            &&& q.tracks.len() == p.tracks.len()
            &&& forall|i: int|
                0 <= i < p.tracks.len() && i != ti ==> #[trigger] q.tracks[i] == p.tracks[i]
            &&& u.events == t.events && u.next == t.next && u.done == t.done
            &&& u.prog == if k is Program {
                k->Program_0
            } else {
                t.prog
            }
            &&& u.vol == if k is Volume {
                k->Volume_0 as int
            } else {
                t.vol as int
            }
            &&& u.pan == if k is Pan {
                k->Pan_0 as int
            } else {
                t.pan as int
            }
            &&& u.bend == if k is Bend {
                k->Bend_0 as int
            } else {
                t.bend as int
            }
            &&& u.modulation == if k is Mod {
                k->Mod_0 as int
            } else {
                t.modulation as int
            }
            &&& u.bend_range == if k is BendRange {
                k->BendRange_0 as int
            } else {
                t.bend_range as int
            }
            &&& u.lfo_speed == if k is LfoSpeed {
                k->LfoSpeed_0 as int
            } else {
                t.lfo_speed as int
            }
        }),
{
}

/// The channel that a note starts is that of its own track, struck as hard as
/// the note says, held for as long as the note lasts, at least one tick, and at
/// the beginning of its attack.
pub proof fn a_note_starts_a_channel_of_its_own(
    m: MusicModel,
    p: Play,
    ti: int,
    key: u8,
    vel: u8,
    dur: u32,
)
    requires
        0 <= ti < p.tracks.len(),
        p.tracks.len() <= usize::MAX,
        0 <= p.frame <= u64::MAX,
        p.channels.len() < 256,
        engine::resolved(
            m,
            m.songs[p.song->0 as int].voicegroup as int,
            p.tracks[ti].prog as int,
            key,
        ) is Some,
    ensures
        ({
            let q = engine::after_event(m, p, ti, EventKind::Note { key, vel, dur });
            let c = q.channels[q.channels.len() - 1];
            &&& q.channels.len() == p.channels.len() + 1
            &&& c.track == ti
            &&& c.vel == vel
            &&& dur > 0 ==> c.gate == dur
            &&& dur == 0 ==> c.gate == 1
            &&& c.phase_env == EnvPhase::Attack
            &&& c.born_frame == p.frame
            &&& !c.dead
            &&& Some(c.res) == engine::resolved(
                m,
                m.songs[p.song->0 as int].voicegroup as int,
                p.tracks[ti].prog as int,
                key,
            )
            &&& c.goal == engine::note_goal(c.res, vel, p.tracks[ti]) as i32
        }),
{
}

/// A track is found audible by its own notes alone, and stays so.
pub proof fn a_note_is_heard_on_its_own_track(
    m: MusicModel,
    p: Play,
    ti: int,
    key: u8,
    vel: u8,
    dur: u32,
    i: int,
)
    requires
        0 <= ti < p.audible.len(),
        0 <= i < p.audible.len(),
    ensures
        ({
            let q = engine::after_event(m, p, ti, EventKind::Note { key, vel, dur });
            let r = engine::resolved(
                m,
                m.songs[p.song->0 as int].voicegroup as int,
                p.tracks[ti].prog as int,
                key,
            );
            &&& i != ti ==> q.audible[i] == p.audible[i]
            &&& p.audible[i] ==> q.audible[i]
            &&& vel == 0 && r is Some && r->0.voice is DirectSound ==> q.audible[i] == p.audible[i]
            &&& vel > 0 && p.channels.len() < 256 && r is Some && r->0.voice is DirectSound ==> q.audible[ti]
        }),
{
}

proof fn lemma_due_end(evs: Seq<Event>, from: int, tick: int)
    requires
        0 <= from <= evs.len(),
    ensures
        ({
            let e = engine::due_end(evs, from, tick);
            &&& from <= e <= evs.len()
            &&& forall|k: int| from <= k < e ==> (#[trigger] evs[k]).tick <= tick
            &&& e < evs.len() ==> evs[e].tick > tick
        }),
    decreases evs.len() - from,
{
    if from < evs.len() && evs[from].tick <= tick {
        lemma_due_end(evs, from + 1, tick);
    }
}

/// A track goes on exactly past the events that are due: it stops at the first
/// whose tick is still to come, and is done where none is left and the song
/// does not loop.
pub proof fn a_track_fires_what_is_due(m: MusicModel, p: Play, ti: int)
    requires
        0 <= ti < p.tracks.len(),
        p.song is Some,
        !p.tracks[ti].done,
        p.tracks[ti].next <= engine::events_of(
            m,
            p.song->0 as int,
            p.tracks[ti].events as int,
        ).len() <= usize::MAX,
    ensures
        ({
            let evs = m.songs[p.song->0 as int].tracks[p.tracks[ti].events as int];
            let q = engine::after_track(m, p, ti);
            let next = q.tracks[ti].next as int;
            &&& q.tracks.len() == p.tracks.len()
            &&& p.tracks[ti].next <= next <= evs.len()
            &&& forall|k: int| p.tracks[ti].next <= k < next ==> (#[trigger] evs[k]).tick <= p.tick
            &&& next < evs.len() ==> evs[next].tick > p.tick
            &&& q.tracks[ti].done == (next == evs.len() && !p.looping)
            &&& forall|i: int|
                0 <= i < p.tracks.len() && i != ti ==> #[trigger] q.tracks[i] == p.tracks[i]
            &&& q.tick == p.tick
        }),
{
    let evs = engine::events_of(m, p.song->0 as int, p.tracks[ti].events as int);
    lemma_due_end(evs, p.tracks[ti].next as int, p.tick);
    lemma_events_keep(
        m,
        p,
        ti,
        evs,
        p.tracks[ti].next as int,
        engine::due_end(evs, p.tracks[ti].next as int, p.tick),
    );
}

/// A track that is done fires nothing more.
pub proof fn a_track_that_is_done_is_silent(m: MusicModel, p: Play, ti: int)
    requires
        p.tracks[ti].done,
    ensures
        engine::after_track(m, p, ti) == p,
{
}

proof fn lemma_events_keep(
    m: MusicModel,
    p: Play,
    ti: int,
    evs: Seq<Event>,
    from: int,
    to: int,
)
    requires
        0 <= ti < p.tracks.len(),
    ensures
        ({
            let q = engine::after_events(m, p, ti, evs, from, to);
            &&& q.tracks.len() == p.tracks.len()
            &&& forall|i: int|
                0 <= i < p.tracks.len() && i != ti ==> #[trigger] q.tracks[i] == p.tracks[i]
            &&& q.tick == p.tick && q.looping == p.looping && q.song == p.song && q.frame
                == p.frame
            &&& q.channels.len() >= p.channels.len()
            &&& forall|i: int|
                0 <= i < p.channels.len() ==> #[trigger] q.channels[i] == p.channels[i]
        }),
    decreases to - from,
{
    if from < to {
        lemma_events_keep(m, p, ti, evs, from, to - 1);
    }
}

proof fn lemma_tracks_keep(m: MusicModel, p: Play, n: int)
    requires
        0 <= n <= p.tracks.len(),
    ensures
        ({
            let q = engine::after_tracks(m, p, n);
            &&& q.tracks.len() == p.tracks.len()
            &&& q.tick == p.tick && q.looping == p.looping && q.song == p.song && q.frame
                == p.frame
            &&& q.channels.len() >= p.channels.len()
            &&& forall|i: int|
                0 <= i < p.channels.len() ==> #[trigger] q.channels[i] == p.channels[i]
        }),
    decreases n,
{
    if n > 0 {
        lemma_tracks_keep(m, p, n - 1);
        let b = engine::after_tracks(m, p, n - 1);
        let t = b.tracks[n - 1];
        let evs = engine::events_of(m, b.song->0 as int, t.events as int);
        lemma_events_keep(
            m,
            b,
            n - 1,
            evs,
            t.next as int,
            engine::due_end(evs, t.next as int, b.tick),
        );
    }
}

/// Events fire in the order in which they stand: what one of them sets, the next
/// one finds.
pub proof fn events_fire_in_their_order(
    m: MusicModel,
    p: Play,
    ti: int,
    evs: Seq<Event>,
    from: int,
    mid: int,
    to: int,
)
    requires
        from <= mid <= to,
    ensures
        engine::after_events(m, p, ti, evs, from, to) == engine::after_events(
            m,
            engine::after_events(m, p, ti, evs, from, mid),
            ti,
            evs,
            mid,
            to,
        ),
        engine::after_events(m, p, ti, evs, from, from + 1) == engine::after_event(
            m,
            p,
            ti,
            evs[from].kind,
        ),
    decreases to - mid,
{
    if mid < to {
        events_fire_in_their_order(m, p, ti, evs, from, mid, to - 1);
    }
    assert(engine::after_events(m, p, ti, evs, from, from) == p);
}

// ---- what a tick does ---------------------------------------------------------

/// A tick takes the song one tick on; at the loop end it first goes back to the
/// loop start. No song, no tick.
pub proof fn a_tick_takes_the_song_one_tick_on(m: MusicModel, p: Play)
    ensures
        p.song is None ==> engine::after_tick(m, p) == p,
        p.song is Some ==> engine::after_tick(m, p).tick == 1 + if p.looping
            && m.songs[p.song->0 as int].loop_start is Some && m.songs[p.song->0 as int].loop_end
            is Some && p.tick >= m.songs[p.song->0 as int].loop_end->0 {
            m.songs[p.song->0 as int].loop_start->0 as int
        } else {
            p.tick
        },
        engine::after_tick(m, p).frame == p.frame,
        engine::after_tick(m, p).song == p.song,
        engine::after_tick(m, p).looping == p.looping,
{
    if p.song is Some {
        let q = engine::after_gates(engine::after_wrap(m, p));
        lemma_tracks_keep(m, q, q.tracks.len() as int);
    }
}

/// A tick counts every sounding channel down by one tick, releases
/// what has run out, and leaves the rest of the channel as it is. What starts on
/// that tick stands behind.
pub proof fn a_tick_counts_every_gate_once(m: MusicModel, p: Play, i: int)
    requires
        p.song is Some,
        0 <= i < p.channels.len(),
    ensures
        ({
            let c = p.channels[i];
            let d = engine::after_tick(m, p).channels[i];
            &&& i < engine::after_tick(m, p).channels.len()
            &&& d.gate == if c.gate > 0 {
                c.gate - 1
            } else {
                0
            }
            &&& c.gate == 1 && c.phase_env != EnvPhase::Dead ==> d.phase_env == EnvPhase::Release
            &&& c.gate != 1 || c.phase_env == EnvPhase::Dead ==> d.phase_env == c.phase_env
            &&& d.track == c.track && d.res == c.res && d.vel == c.vel && d.goal == c.goal
            &&& d.born_frame == c.born_frame && d.dead == c.dead
        }),
{
    let q = engine::after_gates(engine::after_wrap(m, p));
    lemma_tracks_keep(m, q, q.tracks.len() as int);
    assert(q.channels[i] == engine::after_gate(p.channels[i]));
}

/// Whether what a play has past its first `n` channels has only just begun.
pub open spec fn fresh_from(p: Play, n: int) -> bool {
    forall|i: int|
        n <= i < p.channels.len() ==> (#[trigger] p.channels[i]).phase_env == EnvPhase::Attack
            && p.channels[i].gate > 0 && !p.channels[i].dead
}

proof fn lemma_events_fresh(
    m: MusicModel,
    p: Play,
    ti: int,
    evs: Seq<Event>,
    from: int,
    to: int,
    n: int,
)
    requires
        0 <= n,
        fresh_from(p, n),
    ensures
        fresh_from(engine::after_events(m, p, ti, evs, from, to), n),
    decreases to - from,
{
    if from < to {
        lemma_events_fresh(m, p, ti, evs, from, to - 1, n);
        let b = engine::after_events(m, p, ti, evs, from, to - 1);
        let q = engine::after_events(m, p, ti, evs, from, to);
        assert(q == engine::after_event(m, b, ti, evs[to - 1].kind));
        assert forall|i: int| n <= i < q.channels.len() implies (
        #[trigger] q.channels[i]).phase_env == EnvPhase::Attack && q.channels[i].gate > 0
            && !q.channels[i].dead by {
            if i < b.channels.len() {
                assert(q.channels[i] == b.channels[i]);
            }
        }
    }
}

proof fn lemma_tracks_fresh(m: MusicModel, p: Play, k: int, n: int)
    requires
        0 <= n,
        fresh_from(p, n),
    ensures
        fresh_from(engine::after_tracks(m, p, k), n),
    decreases k,
{
    if k > 0 {
        lemma_tracks_fresh(m, p, k - 1, n);
        let b = engine::after_tracks(m, p, k - 1);
        let t = b.tracks[k - 1];
        let evs = engine::events_of(m, b.song->0 as int, t.events as int);
        lemma_events_fresh(
            m,
            b,
            k - 1,
            evs,
            t.next as int,
            engine::due_end(evs, t.next as int, b.tick),
            n,
        );
    }
}

/// A note that starts on a tick has its whole length still before it when the
/// tick is over: it is in its attack and held.
pub proof fn a_note_that_starts_keeps_its_whole_length(m: MusicModel, p: Play, i: int)
    requires
        p.song is Some,
        p.channels.len() <= i < engine::after_tick(m, p).channels.len(),
    ensures
        ({
            let c = engine::after_tick(m, p).channels[i];
            c.phase_env == EnvPhase::Attack && c.gate > 0 && !c.dead
        }),
{
    let q = engine::after_gates(engine::after_wrap(m, p));
    let n = p.channels.len() as int;
    assert(fresh_from(q, n));
    lemma_tracks_fresh(m, q, q.tracks.len() as int, n);
    assert(fresh_from(engine::after_tracks(m, q, q.tracks.len() as int), n));
    assert(engine::after_tick(m, p).channels[i] == engine::after_tracks(
        m,
        q,
        q.tracks.len() as int,
    ).channels[i]);
}

/// The tracks fire in their order, each from what those before it have left.
pub proof fn tracks_fire_in_their_order(m: MusicModel, p: Play, n: int)
    requires
        0 <= n,
    ensures
        engine::after_tracks(m, p, 0) == p,
        engine::after_tracks(m, p, n + 1) == engine::after_track(
            m,
            engine::after_tracks(m, p, n),
            n,
        ),
{
}

/// Before its loop end a song does not go back; at it every track does, with
/// what its events have set.
pub proof fn a_loop_goes_back_at_its_end(m: MusicModel, p: Play, i: int)
    requires
        p.song is Some,
        p.looping,
        m.songs[p.song->0 as int].loop_start is Some,
        m.songs[p.song->0 as int].loop_end is Some,
        0 <= i < p.tracks.len(),
    ensures
        p.tick < m.songs[p.song->0 as int].loop_end->0 ==> engine::after_wrap(m, p) == p,
        p.tick >= m.songs[p.song->0 as int].loop_end->0 ==> ({
            let t = p.tracks[i];
            let u = engine::after_wrap(m, p).tracks[i];
            &&& !u.done
            &&& u.events == t.events && u.prog == t.prog && u.vol == t.vol && u.pan == t.pan
            &&& u.bend == t.bend && u.bend_range == t.bend_range && u.modulation == t.modulation
            &&& u.lfo_speed == t.lfo_speed
            &&& engine::after_wrap(m, p).channels == p.channels
        }),
{
}

/// A song begins at its first tick with nothing sounding, each track at its
/// first event, at volume 100, in the middle, with a bend of two semitones; it
/// loops where that is asked for and both its marks are there.
pub proof fn a_song_begins_afresh(m: MusicModel, song: usize, looping: bool)
    requires
        song < m.songs.len(),
        m.songs[song as int].tracks.len() <= usize::MAX,
    ensures
        ({
            let p = engine::begun(m, song, looping);
            let s = m.songs[song as int];
            &&& p.song == Some(song)
            &&& p.looping == (looping && s.loop_start is Some && s.loop_end is Some)
            &&& p.tick == 0 && p.frame == 0 && p.notes_on == 0
            &&& p.channels.len() == 0 && p.dropped.len() == 0
            &&& p.tracks.len() == s.tracks.len() && p.audible.len() == s.tracks.len()
            &&& forall|i: int|
                0 <= i < p.tracks.len() ==> {
                    let t = #[trigger] p.tracks[i];
                    &&& t.events == i && t.next == 0 && !t.done
                    &&& t.prog == 0 && t.vol == 100 && t.pan == 0 && t.bend == 0
                    &&& t.bend_range == 2 && t.modulation == 0 && t.lfo_speed == 22
                }
            &&& forall|i: int| 0 <= i < p.audible.len() ==> !#[trigger] p.audible[i]
        }),
{
}

// ---- what a frame does ---------------------------------------------------------

/// An envelope goes from the attack to the decay, from the decay to the sustain,
/// where it stays, and from the release to its end, where the channel dies;
/// until its stage has run its course it stays where it is.
pub proof fn an_envelope_goes_stage_by_stage(c: Channel, ran_out: bool)
    ensures
        ({
            let d = engine::after_envelope(c, ran_out);
            &&& !ran_out ==> d.phase_env == c.phase_env
            &&& ran_out && c.phase_env == EnvPhase::Attack ==> d.phase_env == EnvPhase::Decay
            &&& ran_out && c.phase_env == EnvPhase::Decay ==> d.phase_env == EnvPhase::Sustain
            &&& c.phase_env == EnvPhase::Sustain ==> d.phase_env == EnvPhase::Sustain
            &&& ran_out && c.phase_env == EnvPhase::Release ==> d.phase_env == EnvPhase::Dead
            &&& c.phase_env == EnvPhase::Dead ==> d.phase_env == EnvPhase::Dead
            &&& d.dead == (c.dead || d.phase_env == EnvPhase::Dead)
            &&& d.track == c.track && d.res == c.res && d.vel == c.vel && d.gate == c.gate
                && d.goal == c.goal && d.born_frame == c.born_frame
        }),
{
}

proof fn lemma_living_skips(cs: Seq<Channel>, i: int, n: int)
    requires
        0 <= i < n <= cs.len(),
        cs[i].dead,
    ensures
        engine::living(cs.remove(i), n - 1) == engine::living(cs, n),
    decreases n,
{
    if n == i + 1 {
        lemma_living_front(cs, cs.remove(i), i);
    } else {
        lemma_living_skips(cs, i, n - 1);
        assert(cs.remove(i)[n - 2] == cs[n - 1]);
    }
}

proof fn lemma_living_front(a: Seq<Channel>, b: Seq<Channel>, n: int)
    requires
        0 <= n <= a.len(),
        n <= b.len(),
        forall|k: int| 0 <= k < n ==> #[trigger] a[k] == b[k],
    ensures
        engine::living(a, n) == engine::living(b, n),
    decreases n,
{
    if n > 0 {
        lemma_living_front(a, b, n - 1);
        assert(a[n - 1] == b[n - 1]);
    }
}

/// A dead channel leaves no trace: a frame ends with what it would have ended
/// with had the channel not been there.
pub proof fn a_dead_channel_leaves_no_trace(p: Play, i: int)
    requires
        0 <= i < p.channels.len(),
        p.channels[i].dead,
    ensures
        engine::after_frame(p) == engine::after_frame(
            (Play { channels: p.channels.remove(i), ..p }),
        ),
{
    lemma_living_skips(p.channels, i, p.channels.len() as int);
}

/// A frame is counted, and changes neither the tracks nor the tick.
pub proof fn a_frame_is_counted(p: Play)
    ensures
        engine::after_frame(p).frame == p.frame + 1,
        engine::after_frame(p).tick == p.tick,
        engine::after_frame(p).tracks == p.tracks,
        engine::after_frame(p).notes_on == p.notes_on,
        engine::after_frame(p).dropped == p.dropped,
        engine::after_frame(p).audible == p.audible,
        engine::after_frame(p).looping == p.looping,
{
}

// ---- tables ---------------------------------------------------------------------

proof fn lemma_halved_up(f: int, d: int)
    requires
        0 < f,
        0 < d,
    ensures
        (2 * d - 1 + f) / (2 * d) == ((d - 1 + f) / d + 1) / 2,
{
    vstd::arithmetic::div_mod::lemma_hoist_over_denominator(f - 1, 1, d as nat);
    vstd::arithmetic::div_mod::lemma_hoist_over_denominator(f - 1, 1, (2 * d) as nat);
    vstd::arithmetic::div_mod::lemma_div_denominator(f - 1, d, 2);
    assert(d * 2 == 2 * d);
    let q = (f - 1) / d;
    assert((q + 1 + 1) / 2 == q / 2 + 1);
}

/// A note an octave higher has half the period, rounded up.
pub proof fn an_octave_halves_the_period(key: int)
    requires
        36 <= key,
        key + 12 <= 166,
    ensures
        tables::period_of(key + 12) == (tables::period_of(key) + 1) / 2,
{
    let k = key - 36;
    let n = k / 12;
    assert((k + 12) / 12 == n + 1 && (k + 12) % 12 == k % 12);
    let f = -tables::CGB_FREQ[k % 12];
    assert(f > 0);
    lemma_octaves(n);
    lemma_halved_up(f, tables::octaves(n));
}

proof fn lemma_octaves(n: int)
    ensures
        tables::octaves(n) > 0,
    decreases n,
{
    if n > 0 {
        lemma_octaves(n - 1);
    }
}

proof fn lemma_lowest_octave(k: int)
    requires
        0 <= k < 12,
    ensures
        tables::period_of(36 + k) == -tables::CGB_FREQ[k],
{
    let d = tables::octaves(k / 12);
    assert(k / 12 == 0 && k % 12 == k);
    assert(d == 1);
    let x = d - 1 - tables::CGB_FREQ[k % 12];
    assert(x / d == x) by (nonlinear_arith)
        requires
            d == 1,
    ;
}

/// A semitone up divides the period by the twelfth root of two, to the nearest
/// step but one, and the A of the lowest octave sounds at 131072 / 1192 Hz, which
/// is 110.
pub proof fn semitones_are_evenly_spaced(key: int)
    requires
        36 <= key < 48,
    ensures
        1_000_000 * (tables::period_of(key) - 1) < 1_059_463 * tables::period_of(key + 1)
            < 1_000_000 * (tables::period_of(key) + 1),
        tables::period_of(45) == 1192,
{
    let k = key - 36;
    lemma_lowest_octave(9);
    lemma_lowest_octave(k);
    if k < 11 {
        lemma_lowest_octave(k + 1);
    } else {
        lemma_lowest_octave(0);
        an_octave_halves_the_period(36);
    }
}

/// Outside the range of the channel a key sounds as the nearest within it.
pub proof fn keys_out_of_range_sound_as_the_nearest(key: int)
    ensures
        key < 36 ==> tables::period_of(key) == tables::period_of(36),
        key > 166 ==> tables::period_of(key) == tables::period_of(166),
        tables::held(key - 21, 0, 59) == if key < 21 {
            0
        } else if key > 80 {
            59
        } else {
            key - 21
        },
{
}

/// The noise registers count their divisor down from 7 to 4 and then shift by
/// one more; the last four, without a shift, count on from 3 to 0.
pub proof fn noise_registers_shift_every_fourth(i: int)
    requires
        0 <= i < 60,
    ensures
        i + 4 < 56 ==> tables::nr43_at(i + 4) == tables::nr43_at(i) + 16,
        i < 4 ==> tables::nr43_at(i) == 7 - i && tables::nr43_at(56 + i) == 3 - i,
{
}

proof fn lemma_upper_bit(a: int, x: int, k: int)
    requires
        0 <= a,
        0 <= k < 14,
        x == 0 || x == 1,
    ensures
        (a + 16384 * x) / weight_of(k) % 2 == a / weight_of(k) % 2,
{
    reveal_with_fuel(weight_of, 15);
    if k == 0 {
        assert((a + 16384 * x) / 1 == a / 1 + 16384 * x);
    }
    if k == 1 {
        assert((a + 16384 * x) / 2 == a / 2 + 8192 * x);
    }
    if k == 2 {
        assert((a + 16384 * x) / 4 == a / 4 + 4096 * x);
    }
    if k == 3 {
        assert((a + 16384 * x) / 8 == a / 8 + 2048 * x);
    }
    if k == 4 {
        assert((a + 16384 * x) / 16 == a / 16 + 1024 * x);
    }
    if k == 5 {
        assert((a + 16384 * x) / 32 == a / 32 + 512 * x);
    }
    if k == 6 {
        assert((a + 16384 * x) / 64 == a / 64 + 256 * x);
    }
    if k == 7 {
        assert((a + 16384 * x) / 128 == a / 128 + 128 * x);
    }
    if k == 8 {
        assert((a + 16384 * x) / 256 == a / 256 + 64 * x);
    }
    if k == 9 {
        assert((a + 16384 * x) / 512 == a / 512 + 32 * x);
    }
    if k == 10 {
        assert((a + 16384 * x) / 1024 == a / 1024 + 16 * x);
    }
    if k == 11 {
        assert((a + 16384 * x) / 2048 == a / 2048 + 8 * x);
    }
    if k == 12 {
        assert((a + 16384 * x) / 4096 == a / 4096 + 4 * x);
    }
    if k == 13 {
        assert((a + 16384 * x) / 8192 == a / 8192 + 2 * x);
    }
}

/// What a bit weighs.
pub open spec fn weight_of(k: int) -> int
    decreases k,
{
    if k <= 0 {
        1
    } else {
        2 * weight_of(k - 1)
    }
}

proof fn lemma_halved(a: int, k: int)
    requires
        0 <= a,
        0 <= k,
    ensures
        a / 2 / weight_of(k) == a / weight_of(k + 1),
        weight_of(k) >= 1,
    decreases k,
{
    if k > 0 {
        lemma_halved(a, k - 1);
    }
    vstd::arithmetic::div_mod::lemma_div_denominator(a, 2, weight_of(k));
}

proof fn lemma_upper_bit_short(a: int, x: int, k: int)
    requires
        0 <= a,
        0 <= k < 6,
        x == 0 || x == 1,
    ensures
        (a + 64 * x) / weight_of(k) % 2 == a / weight_of(k) % 2,
{
    reveal_with_fuel(weight_of, 7);
    if k == 0 {
        assert((a + 64 * x) / 1 == a + 64 * x);
    }
    if k == 1 {
        assert((a + 64 * x) / 2 == a / 2 + 32 * x);
    }
    if k == 2 {
        assert((a + 64 * x) / 4 == a / 4 + 16 * x);
    }
    if k == 3 {
        assert((a + 64 * x) / 8 == a / 8 + 8 * x);
    }
    if k == 4 {
        assert((a + 64 * x) / 16 == a / 16 + 4 * x);
    }
    if k == 5 {
        assert((a + 64 * x) / 32 == a / 32 + 2 * x);
    }
}

proof fn lemma_bits_come_down(top: int, n: int, k: int)
    requires
        top == 0x4000 && 0 <= k <= 14 || top == 0x40 && 0 <= k <= 6,
        0 <= n,
    ensures
        tables::register(top, n) / weight_of(k) % 2 == tables::register(top, n + k) % 2,
    decreases k,
{
    let l = tables::register(top, n);
    if k == 0 {
        assert(l / 1 == l);
    } else {
        tables::register_stays_live(top, n);
        lemma_bits_come_down(top, n + 1, k - 1);
        let x = if l % 2 != l / 2 % 2 {
            1int
        } else {
            0int
        };
        assert(tables::register(top, n + 1) == l / 2 + top * x);
        if top == 0x4000 {
            lemma_upper_bit(l / 2, x, k - 1);
        } else {
            lemma_upper_bit_short(l / 2, x, k - 1);
        }
        lemma_halved(l, k - 1);
    }
}

proof fn lemma_all_ones(top: int, k: int)
    requires
        top == 0x4000 && 0 <= k <= 14 || top == 0x40 && 0 <= k <= 6,
    ensures
        (2 * top - 1) / weight_of(k) % 2 == 1,
{
    reveal_with_fuel(weight_of, 16);
    assert(k == 0 || k == 1 || k == 2 || k == 3 || k == 4 || k == 5 || k == 6 || k == 7 || k == 8
        || k == 9 || k == 10 || k == 11 || k == 12 || k == 13 || k == 14);
    if top == 0x4000 {
        if k == 0 {
            assert(32767int / 1int % 2 == 1);
        }
        if k == 1 {
            assert(32767int / 2int % 2 == 1);
        }
        if k == 2 {
            assert(32767int / 4int % 2 == 1);
        }
        if k == 3 {
            assert(32767int / 8int % 2 == 1);
        }
        if k == 4 {
            assert(32767int / 16int % 2 == 1);
        }
        if k == 5 {
            assert(32767int / 32int % 2 == 1);
        }
        if k == 6 {
            assert(32767int / 64int % 2 == 1);
        }
        if k == 7 {
            assert(32767int / 128int % 2 == 1);
        }
        if k == 8 {
            assert(32767int / 256int % 2 == 1);
        }
        if k == 9 {
            assert(32767int / 512int % 2 == 1);
        }
        if k == 10 {
            assert(32767int / 1024int % 2 == 1);
        }
        if k == 11 {
            assert(32767int / 2048int % 2 == 1);
        }
        if k == 12 {
            assert(32767int / 4096int % 2 == 1);
        }
        if k == 13 {
            assert(32767int / 8192int % 2 == 1);
        }
        if k == 14 {
            assert(32767int / 16384int % 2 == 1);
        }
    } else {
        if k == 0 {
            assert(127int / 1int % 2 == 1);
        }
        if k == 1 {
            assert(127int / 2int % 2 == 1);
        }
        if k == 2 {
            assert(127int / 4int % 2 == 1);
        }
        if k == 3 {
            assert(127int / 8int % 2 == 1);
        }
        if k == 4 {
            assert(127int / 16int % 2 == 1);
        }
        if k == 5 {
            assert(127int / 32int % 2 == 1);
        }
        if k == 6 {
            assert(127int / 64int % 2 == 1);
        }
    }
}

/// The long noise is that of a register of fifteen bits, all of them set: each
/// output, fifteen steps on, is whether it differed from the one behind it.
pub proof fn the_long_noise_feeds_back_after_fifteen(n: int)
    requires
        0 <= n,
    ensures
        0 < n < 15 ==> tables::register(0x4000, n) % 2 == 1,
        (tables::register(0x4000, n + 15) % 2 == 1) == (tables::register(0x4000, n) % 2
            != tables::register(0x4000, n + 1) % 2),
{
    let l = tables::register(0x4000, n);
    tables::register_stays_live(0x4000, n);
    lemma_bits_come_down(0x4000, n + 1, 14);
    lemma_bits_come_down(0x4000, n, 1);
    assert(weight_of(14) == 16384 && weight_of(1) == 2) by {
        reveal_with_fuel(weight_of, 16);
    }
    assert(l / 2 % 2 == tables::register(0x4000, n + 1) % 2);
    let x = if l % 2 != l / 2 % 2 {
        1int
    } else {
        0int
    };
    assert(tables::register(0x4000, n + 1) == l / 2 + 16384 * x);
    assert((l / 2 + 16384 * x) / 16384 == x);
    if 0 < n < 15 {
        lemma_bits_come_down(0x4000, 0, n);
        lemma_all_ones(0x4000, n);
        assert(tables::register(0x4000, 0) == 2 * 0x4000 - 1);
    }
}

/// The short noise is that of a register of seven bits.
pub proof fn the_short_noise_feeds_back_after_seven(n: int)
    requires
        0 <= n,
    ensures
        0 < n < 7 ==> tables::register(0x40, n) % 2 == 1,
        (tables::register(0x40, n + 7) % 2 == 1) == (tables::register(0x40, n) % 2
            != tables::register(0x40, n + 1) % 2),
{
    let l = tables::register(0x40, n);
    tables::register_stays_live(0x40, n);
    lemma_bits_come_down(0x40, n + 1, 6);
    lemma_bits_come_down(0x40, n, 1);
    assert(weight_of(6) == 64 && weight_of(1) == 2) by {
        reveal_with_fuel(weight_of, 8);
    }
    assert(l / 2 % 2 == tables::register(0x40, n + 1) % 2);
    let x = if l % 2 != l / 2 % 2 {
        1int
    } else {
        0int
    };
    assert(tables::register(0x40, n + 1) == l / 2 + 64 * x);
    assert((l / 2 + 64 * x) / 64 == x);
    if 0 < n < 7 {
        lemma_bits_come_down(0x40, 0, n);
        lemma_all_ones(0x40, n);
        assert(tables::register(0x40, 0) == 2 * 0x40 - 1);
    }
}

// ---- what is counted and what is found -------------------------------------------

/// Every effect is in the one file of the effects; any other song is in a file
/// of its own.
pub proof fn songs_have_files_of_their_own(a: Seq<char>, b: Seq<char>)
    requires
        b.len() < 3 || b[0] != 's' || b[1] != 'e' || b[2] != '_',
    ensures
        a.len() >= 3 && a[0] == 's' && a[1] == 'e' && a[2] == '_' ==> check::file_of(a)
            == "sfx.bin"@,
        a.len() < 3 || a[0] != 's' || a[1] != 'e' || a[2] != '_' ==> check::file_of(a) == a
            + ".bin"@ && (a != b ==> check::file_of(a) != check::file_of(b)),
{
    reveal_strlit("se_");
    reveal_strlit(".bin");
    if a.len() >= 3 && a[0] == 's' && a[1] == 'e' && a[2] == '_' {
        assert(a.take(3) =~= "se_"@);
        assert(a.subrange(0, 3) =~= "se_"@);
    } else {
        if crate::text::has_prefix(a, "se_"@) {
            assert(a.take(3)[0] == a[0] && a.take(3)[1] == a[1] && a.take(3)[2] == a[2]);
        }
        if crate::text::has_prefix(b, "se_"@) {
            assert(b.take(3)[0] == b[0] && b.take(3)[1] == b[1] && b.take(3)[2] == b[2]);
        }
        let fa = a + ".bin"@;
        let fb = b + ".bin"@;
        if fa == fb {
            assert(fa.len() == a.len() + 4 && fb.len() == b.len() + 4);
            assert(a =~= fa.take(a.len() as int));
            assert(b =~= fb.take(b.len() as int));
        }
    }
}

/// A note counts, any other event does not; a song counts the notes of all its
/// tracks.
pub proof fn every_note_is_counted_once(tracks: Seq<Seq<Event>>, evs: Seq<Event>, e: Event)
    ensures
        check::notes_among(evs.push(e), evs.len() as int + 1) == check::notes_among(
            evs,
            evs.len() as int,
        ) + if e.kind is Note {
            1int
        } else {
            0
        },
        check::notes_in(tracks.push(evs), tracks.len() as int + 1) == check::notes_in(
            tracks,
            tracks.len() as int,
        ) + check::notes_among(evs, evs.len() as int),
        check::notes_among(Seq::<Event>::empty(), 0) == 0,
        check::notes_in(Seq::<Seq<Event>>::empty(), 0) == 0,
{
    lemma_notes_front(evs, evs.push(e), evs.len() as int);
    lemma_tracks_front(tracks, tracks.push(evs), tracks.len() as int);
}

proof fn lemma_notes_front(a: Seq<Event>, b: Seq<Event>, n: int)
    requires
        n <= a.len() <= b.len(),
        forall|k: int| 0 <= k < n ==> #[trigger] a[k] == b[k],
    ensures
        check::notes_among(a, n) == check::notes_among(b, n),
    decreases n,
{
    if n > 0 {
        lemma_notes_front(a, b, n - 1);
        assert(a[n - 1] == b[n - 1]);
    }
}

proof fn lemma_tracks_front(a: Seq<Seq<Event>>, b: Seq<Seq<Event>>, n: int)
    requires
        n <= a.len() <= b.len(),
        forall|k: int| 0 <= k < n ==> #[trigger] a[k] == b[k],
    ensures
        check::notes_in(a, n) == check::notes_in(b, n),
    decreases n,
{
    if n > 0 {
        lemma_tracks_front(a, b, n - 1);
        assert(a[n - 1] == b[n - 1]);
    }
}

/// The program of a note is that of the last change of program before it, or the
/// first program where there is none.
pub proof fn the_last_change_of_program_holds(evs: Seq<Event>, n: int, j: int)
    requires
        -1 <= j < n <= evs.len(),
        j >= 0 ==> evs[j].kind is Program,
        forall|k: int| j < k < n ==> (#[trigger] evs[k]).kind !is Program,
    ensures
        j >= 0 ==> check::program_after(evs, n) == evs[j].kind->Program_0,
        j < 0 ==> check::program_after(evs, n) == 0,
    decreases n,
{
    if n - 1 > j {
        assert(evs[n - 1].kind !is Program);
        if n - 1 > 0 || j < n - 1 {
            if j < n - 1 && n - 1 >= 1 {
                the_last_change_of_program_holds(evs, n - 1, j);
            }
        }
    }
}

/// Dropped notes stand by track, then by program, then by key, and any two that
/// differ have an order.
pub proof fn dropped_notes_have_an_order(
    a: (usize, u8, u8),
    b: (usize, u8, u8),
    c: (usize, u8, u8),
)
    ensures
        a.0 < b.0 ==> check::earlier(a, b),
        a.0 == b.0 && a.1 < b.1 ==> check::earlier(a, b),
        a.0 == b.0 && a.1 == b.1 && a.2 < b.2 ==> check::earlier(a, b),
        !(check::earlier(a, b) && check::earlier(b, a)),
        a != b ==> check::earlier(a, b) || check::earlier(b, a),
        check::earlier(a, b) && check::earlier(b, c) ==> check::earlier(a, c),
{
}

/// The song of a name is the first that bears it; none where no song does.
pub proof fn a_song_is_found_by_its_name(m: MusicModel, name: Seq<char>)
    ensures
        mixer::first_song(m, name, 0) matches Some(i) ==> 0 <= i < m.songs.len() && m.songs[i].name
            == name && forall|k: int| 0 <= k < i ==> (#[trigger] m.songs[k]).name != name,
        mixer::first_song(m, name, 0) is None ==> forall|k: int|
            0 <= k < m.songs.len() ==> (#[trigger] m.songs[k]).name != name,
{
    lemma_first_song(m, name, 0);
}

proof fn lemma_first_song(m: MusicModel, name: Seq<char>, from: int)
    requires
        0 <= from,
    ensures
        mixer::first_song(m, name, from) matches Some(i) ==> from <= i < m.songs.len()
            && m.songs[i].name == name && forall|k: int|
            from <= k < i ==> (#[trigger] m.songs[k]).name != name,
        mixer::first_song(m, name, from) is None ==> forall|k: int|
            from <= k < m.songs.len() ==> (#[trigger] m.songs[k]).name != name,
    decreases m.songs.len() - from,
{
    if from < m.songs.len() && m.songs[from].name != name {
        lemma_first_song(m, name, from + 1);
    }
}

// ---- the sound file ---------------------------------------------------------------

/// The number that four bytes spell, the lowest first.
pub open spec fn spelled(s: Seq<u8>, at: int) -> int {
    s[at] + 256 * s[at + 1] + 65536 * s[at + 2] + 16777216 * s[at + 3]
}

/// A sound file says what it holds: how much follows its eighth byte, samples of
/// two channels and sixteen bits, the rate, and how many bytes of samples stand
/// behind the 44 of the head; then the samples, each in two bytes, the lower
/// first.
pub proof fn a_sound_file_says_what_it_holds(rate: u32, pcm: Seq<i16>)
    requires
        rate * 4 <= u32::MAX,
        36 + 2 * pcm.len() <= u32::MAX,
    ensures
        ({
            let f = wav::header(rate, (2 * pcm.len()) as u32) + wav::sample_bytes(pcm);
            &&& f.len() == 44 + 2 * pcm.len()
            &&& spelled(f, 4) == f.len() - 8
            &&& f[0] == 0x52 && f[1] == 0x49 && f[2] == 0x46 && f[3] == 0x46
            &&& f[8] == 0x57 && f[9] == 0x41 && f[10] == 0x56 && f[11] == 0x45
            &&& f[12] == 0x66 && f[13] == 0x6D && f[14] == 0x74 && f[15] == 0x20
            &&& spelled(f, 16) == 16
            &&& f[20] == 1 && f[21] == 0
            &&& f[22] == 2 && f[23] == 0
            &&& spelled(f, 24) == rate
            &&& spelled(f, 28) == 4 * rate
            &&& f[32] == 4 && f[33] == 0
            &&& f[34] == 16 && f[35] == 0
            &&& f[36] == 0x64 && f[37] == 0x61 && f[38] == 0x74 && f[39] == 0x61
            &&& spelled(f, 40) == 2 * pcm.len()
            &&& forall|i: int|
                0 <= i < pcm.len() ==> f[44 + 2 * i] + 256 * f[45 + 2 * i] == (#[trigger] pcm[i]
                    as int) % 65536
        }),
{
    lemma_sample_bytes(pcm);
    let len = (2 * pcm.len()) as u32;
    let h = wav::header(rate, len);
    lemma_header(rate, len);
    lemma_spelled(codec::le32((36 + len) as u32), (36 + len) as u32);
    lemma_spelled(codec::le32(16), 16);
    lemma_spelled(codec::le32(rate), rate);
    lemma_spelled(codec::le32((rate * 4) as u32), (rate * 4) as u32);
    lemma_spelled(codec::le32(len), len);
    let f = h + wav::sample_bytes(pcm);
    assert forall|i: int| 0 <= i < pcm.len() implies f[44 + 2 * i] + 256 * f[45 + 2 * i] == (
    #[trigger] pcm[i] as int) % 65536 by {
        assert(f[44 + 2 * i] == wav::sample_bytes(pcm)[2 * i]);
        assert(f[45 + 2 * i] == wav::sample_bytes(pcm)[2 * i + 1]);
    }
}

proof fn lemma_spelled(s: Seq<u8>, v: u32)
    requires
        s == codec::le32(v),
    ensures
        s.len() == 4,
        spelled(s, 0) == v,
{
    reveal(codec::le32);
}

proof fn lemma_header(rate: u32, len: u32)
    ensures
        ({
            let a = codec::le32((36 + len) as u32);
            let b = codec::le32(16);
            let c = codec::le32(rate);
            let d = codec::le32((rate * 4) as u32);
            let e = codec::le32(len);
            wav::header(rate, len) == seq![
                0x52u8, 0x49u8, 0x46u8, 0x46u8, a[0], a[1], a[2], a[3], 0x57u8, 0x41u8, 0x56u8,
                0x45u8, 0x66u8, 0x6Du8, 0x74u8, 0x20u8, b[0], b[1], b[2], b[3], 1u8, 0u8, 2u8, 0u8,
                c[0], c[1], c[2], c[3], d[0], d[1], d[2], d[3], 4u8, 0u8, 16u8, 0u8, 0x64u8, 0x61u8,
                0x74u8, 0x61u8, e[0], e[1], e[2], e[3],
            ]
        }),
{
    let a = codec::le32((36 + len) as u32);
    let b = codec::le32(16);
    let c = codec::le32(rate);
    let d = codec::le32((rate * 4) as u32);
    let e = codec::le32(len);
    codec::lemma_le32((36 + len) as u32);
    codec::lemma_le32(16);
    codec::lemma_le32(rate);
    codec::lemma_le32((rate * 4) as u32);
    codec::lemma_le32(len);
    assert(codec::le16(1) =~= seq![1u8, 0u8] && codec::le16(2) =~= seq![2u8, 0u8] && codec::le16(4)
        =~= seq![4u8, 0u8] && codec::le16(16) =~= seq![16u8, 0u8]) by {
        reveal(codec::le16);
    }
    assert(wav::header(rate, len) =~= seq![
        0x52u8, 0x49u8, 0x46u8, 0x46u8, a[0], a[1], a[2], a[3], 0x57u8, 0x41u8, 0x56u8, 0x45u8,
        0x66u8, 0x6Du8, 0x74u8, 0x20u8, b[0], b[1], b[2], b[3], 1u8, 0u8, 2u8, 0u8, c[0], c[1],
        c[2], c[3], d[0], d[1], d[2], d[3], 4u8, 0u8, 16u8, 0u8, 0x64u8, 0x61u8, 0x74u8, 0x61u8,
        e[0], e[1], e[2], e[3],
    ]);
}

proof fn lemma_sample_bytes(pcm: Seq<i16>)
    ensures
        wav::sample_bytes(pcm).len() == 2 * pcm.len(),
        forall|i: int|
            0 <= i < pcm.len() ==> wav::sample_bytes(pcm)[2 * i] + 256 * wav::sample_bytes(
                pcm,
            )[2 * i + 1] == (#[trigger] pcm[i] as int) % 65536,
    decreases pcm.len(),
{
    reveal(codec::le16);
    if pcm.len() > 0 {
        lemma_sample_bytes(pcm.drop_last());
        let s = wav::sample_bytes(pcm);
        let b = wav::sample_bytes(pcm.drop_last());
        assert forall|i: int| 0 <= i < pcm.len() implies s[2 * i] + 256 * s[2 * i + 1] == (
        #[trigger] pcm[i] as int) % 65536 by {
            if i < pcm.len() - 1 {
                assert(s[2 * i] == b[2 * i] && s[2 * i + 1] == b[2 * i + 1]);
                assert(pcm.drop_last()[i] == pcm[i]);
            } else {
                let v = wav::bits16(pcm.last());
                assert(s[2 * i] == (v % 256) as u8 && s[2 * i + 1] == (v / 256) as u8);
            }
        }
    }
}

} // verus!
