//! What the calls of the engine give back, whatever they are called with.

use vstd::prelude::*;
use crate::audio::check;
use crate::audio::data::{MusicModel, SongData, Voice};
use crate::audio::engine;
use crate::audio::engine::Engine;
use crate::audio::mixer;
use crate::audio::subset;
use crate::audio::tables;
use crate::codec::Wire;

verus! {

/// The tempo of a song is that of the last change at or before its tick, where
/// the changes stand in order, and half a second before the first.
pub proof fn the_engine_keeps_the_last_tempo(e: Engine, us: u32, k: int)
    requires
        e.wf(),
        e.song is Some,
        call_ensures(Engine::tempo, (&e,), us),
        ({
            let tempos = e.pack.songs@[e.song->0 as int].tempos@;
            forall|i: int, j: int|
                0 <= i <= j < tempos.len() ==> (#[trigger] tempos[i]).0 <= (#[trigger] tempos[j]).0
        }),
    ensures
        ({
            let tempos = e.pack.songs@[e.song->0 as int].tempos@;
            &&& 0 <= k < tempos.len() && tempos[k].0 <= e.tick && (k + 1 < tempos.len() ==> e.tick
                < tempos[k + 1].0) ==> us == tempos[k].1
            &&& tempos.len() == 0 || e.tick < tempos[0].0 ==> us == 500_000
        }),
{
    let tempos = e.pack.songs@[e.song->0 as int].tempos@;
    if 0 <= k < tempos.len() && tempos[k].0 <= e.tick && (k + 1 < tempos.len() ==> e.tick
        < tempos[k + 1].0) {
        crate::audio::rules::the_last_change_of_tempo_holds(tempos, e.tick as int, k);
    }
    if tempos.len() == 0 || e.tick < tempos[0].0 {
        crate::audio::rules::before_the_first_change_a_beat_is_half_a_second(
            tempos,
            e.tick as int,
        );
    }
}

/// Of a generator's two sides, the softer falls silent where the other is at
/// least twice as loud; otherwise both sound.
pub proof fn a_much_softer_side_falls_silent(l: i32, r: i32, on: (bool, bool))
    requires
        0 <= l <= 255,
        0 <= r <= 255,
        call_ensures(tables::psg_sides, (l, r), on),
    ensures
        r > 0 && 2 * l <= r ==> !on.0 && on.1,
        l > 0 && 2 * r <= l ==> on.0 && !on.1,
        l < 2 * r && r < 2 * l ==> on.0 && on.1,
{
}

/// A generator sustains at the part of its goal that its envelope says, in
/// sixteenths, rounded up.
pub proof fn a_sustain_is_a_part_of_the_goal(goal: i32, s: u8, level: i32)
    requires
        0 <= goal <= 15,
        call_ensures(tables::psg_sustain, (goal, s), level),
    ensures
        goal == 0 || s == 0 ==> level == 0,
        s == 16 ==> level == goal,
        16 * level >= goal * s,
        16 * level < goal * s + 16,
{
    if goal > 0 {
        assert(goal * 16 == 16 * goal && goal * 0 == 0);
        assert((goal * s + 15) / 16 == level);
    } else {
        assert(0 * s == 0) by (nonlinear_arith);
    }
}

/// Going back in a ring and forth again ends where it began.
pub proof fn a_ring_closes(at: usize, n: usize, back: usize, i: usize)
    requires
        at < n,
        back <= n,
        call_ensures(tables::ring_back, (at, n, back), i),
    ensures
        i < n,
        back <= at ==> i == at - back,
        back > at ==> i == at + n - back,
{
    let x = at + n - back;
    if back <= at {
        vstd::arithmetic::div_mod::lemma_fundamental_div_mod_converse(
            x,
            n as int,
            1,
            at - back,
        );
    } else {
        vstd::arithmetic::div_mod::lemma_small_mod(x as nat, n as nat);
    }
}

/// A key of the noise channel has its own register from 21 to 80, and the nearest
/// outside.
pub proof fn noise_keys_have_their_registers(key: u8, i: usize, t: [u8; 60])
    requires
        call_ensures(tables::noise_index, (key,), i),
        call_ensures(tables::noise_nr43, (), t),
    ensures
        21 <= key <= 80 ==> i == key - 21,
        key < 21 ==> i == 0,
        key > 80 ==> i == 59,
        forall|k: int| 0 <= k < 56 ==> #[trigger] t[k] % 16 == 7 - k % 4 && t[k] / 16 == k / 4,
        t[56] == 3 && t[57] == 2 && t[58] == 1 && t[59] == 0,
{
}

/// A sink holds fifteen hundredths of a second, of two channels.
pub proof fn a_sink_holds_fifteen_hundredths(rate: u32, n: u64)
    requires
        call_ensures(mixer::queue_target, (rate,), n),
    ensures
        100 * n <= 30 * rate,
        30 * rate < 100 * n + 100,
{
}

/// One pass of a song ends at its loop end, or with its last event; it has at
/// least one tick.
pub proof fn a_pass_ends_with_its_last_event(s: SongData, t: u32, i: int, k: int)
    requires
        call_ensures(check::end_tick, (&s,), t),
        0 <= i < s.tracks@.len(),
        0 <= k < s.tracks@[i]@.len(),
    ensures
        t >= 1,
        s.loop_end matches Some(e) ==> e >= 1 ==> t == e,
        s.loop_end is None ==> s.tracks@[i]@[k].tick <= t,
        s.loop_end is None && t > 1 ==> exists|a: int, b: int|
            #![trigger s.tracks@[a]@[b]]
            0 <= a < s.tracks@.len() && 0 <= b < s.tracks@[a]@.len() && s.tracks@[a]@[b].tick == t,
{
    let tracks = s.model().tracks;
    if s.loop_end is None {
        let last = choose|last: int| #[trigger] check::last_tick(tracks, last) && t == (if last == 0 {
            1
        } else {
            last
        });
        assert(tracks.len() == s.tracks@.len());
        assert forall|a: int, b: int|
            0 <= a < s.tracks@.len() && 0 <= b < s.tracks@[a]@.len() implies #[trigger] tracks[a][b]
            == s.tracks@[a]@[b] && tracks[a].len() == s.tracks@[a]@.len() by {
            assert(tracks[a] == crate::codec::models(s.tracks@[a]@));
        }
        assert(tracks[i][k].tick <= last);
        if t > 1 {
            let (a, b) = choose|a: int, b: int|
                #![trigger tracks[a][b]]
                0 <= a < tracks.len() && 0 <= b < tracks[a].len() && tracks[a][b].tick == last;
            assert(tracks[a] == crate::codec::models(s.tracks@[a]@));
            assert(s.tracks@[a]@[b].tick == t);
        }
    }
}

/// A song passes where it played a note, every dropped one has its reason and no
/// track is wrongly silent; a track is so where it began a note that should be
/// heard and was not.
pub proof fn a_song_passes_where_nothing_is_amiss(
    bugs: Vec<(usize, u8, u8)>,
    silent: Vec<usize>,
    notes: u64,
    ok: bool,
    audible: Vec<bool>,
    sounded: Vec<bool>,
    out: Vec<usize>,
    t: usize,
)
    requires
        call_ensures(check::passes, (&bugs, &silent, notes), ok),
        audible@.len() == sounded@.len(),
        call_ensures(check::silent_tracks, (&audible, &sounded), out),
    ensures
        ok <==> notes > 0 && bugs@.len() == 0 && silent@.len() == 0,
        out@.contains(t) <==> t < audible@.len() && audible@[t as int] && !sounded@[t as int],
{
}

/// Why a note is dropped is said in words: one that its voicegroup has no voice
/// for, one whose voice is none, one past the ends of the tables or the
/// drumset, and one that is split twice.
pub proof fn reasons_are_said_in_words(m: MusicModel, group: int, prog: int, key: u8)
    requires
        0 <= group < m.voicegroups.len(),
    ensures
        ({
            let r = check::drop_reason(m, group, prog, key);
            let v = engine::voice_at(m, group, prog);
            &&& v is None ==> r == Some("program outside the voicegroup"@)
            &&& v == Some(Voice::Unsupported) ==> r == Some("unsupported voice kind (cry)"@)
            &&& v matches Some(Voice::Keysplit { group: sub, table }) ==> (table < m.keysplits.len()
                && m.keysplits[table as int].map[(key % 128) as int] == 255 ==> r == Some(
                "key outside the keysplit tables' ROM span"@,
            ))
            &&& v matches Some(Voice::KeysplitAll { group: sub }) ==> (sub < m.voicegroups.len() ==> (
            engine::voice_at(m, sub as int, key as int) is None ==> r == Some(
                "drum key outside the drumset's range"@,
            )) && (engine::voice_at(m, sub as int, key as int) == Some(Voice::Unsupported) ==> r
                == Some("drum key is an unsupported voice"@)) && (engine::voice_at(
                m,
                sub as int,
                key as int,
            ) matches Some(Voice::KeysplitAll { .. }) ==> r == Some(
                "nested keysplit (engine forbids)"@,
            )))
        }),
{
}

/// A pack cut down to some songs has those songs, in the order asked for, with
/// nothing but the number of their voicegroup changed.
pub proof fn a_subset_has_the_songs_asked_for(m: MusicModel, songs: Seq<usize>, i: int)
    requires
        0 <= i < songs.len(),
    ensures
        ({
            let s = subset::subset_of(m, songs);
            let was = m.songs[songs[i] as int];
            &&& s.songs.len() == songs.len()
            &&& s.songs[i].name == was.name && s.songs[i].master_volume == was.master_volume
            &&& s.songs[i].reverb == was.reverb && s.songs[i].division == was.division
            &&& s.songs[i].tempos == was.tempos && s.songs[i].loop_start == was.loop_start
            &&& s.songs[i].loop_end == was.loop_end && s.songs[i].tracks == was.tracks
        }),
{
}

/// A pack cut down to some songs has nothing that they do not need: each of its
/// samples is played by a voice of a group that one of the songs comes to, and
/// each of its groups is one that a song comes to.
pub proof fn a_subset_has_nothing_else(m: MusicModel, songs: Seq<usize>, j: int)
    ensures
        ({
            let s = subset::subset_of(m, songs);
            &&& 0 <= j < s.samples.len() ==> exists|x: int, g: int, k: int|
                #![trigger m.samples[x], m.voicegroups[g].entries[k]]
                0 <= x < m.samples.len() && m.samples[x] == s.samples[j] && 0 <= g
                    < m.voicegroups.len() && subset::reaches(m, songs, g) && 0 <= k
                    < m.voicegroups[g].entries.len() && (
                m.voicegroups[g].entries[k] matches Voice::DirectSound { sample, .. } && sample
                    == x)
            &&& 0 <= j < s.voicegroups.len() ==> exists|g: int|
                0 <= g < m.voicegroups.len() && #[trigger] subset::reaches(m, songs, g)
                    && s.voicegroups[j].name == m.voicegroups[g].name && s.voicegroups[j].offset
                    == m.voicegroups[g].offset && s.voicegroups[j].entries.len()
                    == m.voicegroups[g].entries.len()
        }),
{
    let s = subset::subset_of(m, songs);
    let groups = subset::group_flags(m, songs);
    let used = subset::sample_flags(m, groups);
    if 0 <= j < s.samples.len() {
        let x = subset::lemma_kept_origin(m.samples, used, m.samples.len() as int, j);
        let f = |v: Voice| subset::plays_sample(v, x);
        assert(subset::some_voice(m, groups, f));
        let (g, k) = choose|g: int, k: int|
            #![trigger m.voicegroups[g].entries[k]]
            0 <= g < m.voicegroups.len() && groups[g] && 0 <= k < m.voicegroups[g].entries.len()
                && f(m.voicegroups[g].entries[k]);
        assert(m.samples[x] == s.samples[j]);
        assert(subset::plays_sample(m.voicegroups[g].entries[k], x));
    }
    if 0 <= j < s.voicegroups.len() {
        let g = subset::lemma_kept_origin(
            m.voicegroups,
            groups,
            m.voicegroups.len() as int,
            j,
        );
        assert(subset::reaches(m, songs, g));
    }
}

/// A group is come to from the song whose own it is, and from a group that is come
/// to by any voice that hands its notes on.
pub proof fn groups_are_come_to_by_handing_on(
    m: MusicModel,
    songs: Seq<usize>,
    g: int,
    k: int,
    n: int,
)
    ensures
        0 <= n < songs.len() ==> subset::reaches(
            m,
            songs,
            m.songs[songs[n] as int].voicegroup as int,
        ),
        subset::reaches(m, songs, g) && 0 <= g < m.voicegroups.len() && 0 <= k
            < m.voicegroups[g].entries.len() ==> (m.voicegroups[g].entries[k] matches Voice::Keysplit {
            group,
            ..
        } ==> subset::reaches(m, songs, group as int)) && (
        m.voicegroups[g].entries[k] matches Voice::KeysplitAll { group } ==> subset::reaches(
            m,
            songs,
            group as int,
        )),
{
    if 0 <= n < songs.len() {
        subset::lemma_reach_start(m, songs, n);
    }
    if subset::reaches(m, songs, g) && 0 <= g < m.voicegroups.len() && 0 <= k
        < m.voicegroups[g].entries.len() {
        let v = m.voicegroups[g].entries[k];
        if let Some(b) = subset::next_group(v) {
            let path = choose|path: Seq<int>| #[trigger]
                subset::is_chain(m, songs, path) && path.last() == g;
            let more = path.push(b);
            assert(subset::leads(m, g, b));
            assert forall|i: int| 0 <= i < more.len() - 1 implies subset::leads(
                m,
                #[trigger] more[i],
                more[i + 1],
            ) by {
                if i < path.len() - 1 {
                    assert(subset::leads(m, path[i], path[i + 1]));
                }
            }
            assert(more[0] == path[0]);
            assert(subset::is_chain(m, songs, more));
            assert(more.last() == b);
        }
    }
}

/// A voice of a pack that was cut down sounds as it did: its key, its pan, its
/// envelope and what its kind has besides are the same, and the sample, wave,
/// group or table under its new number is the one under the old.
pub proof fn a_voice_of_a_subset_sounds_as_it_did(
    m: MusicModel,
    songs: Seq<usize>,
    g: int,
    k: int,
)
    requires
        subset::sound(m, songs),
        subset::countable(m, songs),
        0 <= g < m.voicegroups.len(),
        subset::reaches(m, songs, g),
        0 <= k < m.voicegroups[g].entries.len(),
    ensures
        ({
            let s = subset::subset_of(m, songs);
            let groups = subset::group_flags(m, songs);
            let was = m.voicegroups[g].entries[k];
            let now = s.voicegroups[subset::rank(groups, g) as int].entries[k];
            &&& subset::rank(groups, g) < s.voicegroups.len()
            &&& s.voicegroups[subset::rank(groups, g) as int].name == m.voicegroups[g].name
            &&& s.voicegroups[subset::rank(groups, g) as int].offset == m.voicegroups[g].offset
            &&& s.voicegroups[subset::rank(groups, g) as int].entries.len()
                == m.voicegroups[g].entries.len()
            &&& was is Square || was is Noise || was is Unsupported ==> now == was
            &&& was matches Voice::DirectSound { base_key, pan, sample, adsr, fixed } ==> (
            now matches Voice::DirectSound {
                base_key: b,
                pan: p,
                sample: n,
                adsr: a,
                fixed: f,
            } && b == base_key && p == pan && a == adsr && f == fixed && n < s.samples.len()
                && s.samples[n as int] == m.samples[sample as int])
            &&& was matches Voice::Wave { base_key, pan, wave, adsr } ==> (now matches Voice::Wave {
                base_key: b,
                pan: p,
                wave: n,
                adsr: a,
            } && b == base_key && p == pan && a == adsr && n < s.waves.len() && s.waves[n as int]
                == m.waves[wave as int])
            &&& was matches Voice::Keysplit { group, table } ==> (now matches Voice::Keysplit {
                group: h,
                table: t,
            } && h < s.voicegroups.len() && s.voicegroups[h as int].name
                == m.voicegroups[group as int].name && t < s.keysplits.len()
                && s.keysplits[t as int] == m.keysplits[table as int])
            &&& was matches Voice::KeysplitAll { group } ==> (now matches Voice::KeysplitAll {
                group: h,
            } && h < s.voicegroups.len() && s.voicegroups[h as int].name
                == m.voicegroups[group as int].name)
        }),
{
    let groups = subset::group_flags(m, songs);
    subset::subset_keeps_what_is_reached(m, songs);
    subset::lemma_refers_to_kept(m, songs, g, k);
    assert(groups[g]);
    let was = m.voicegroups[g].entries[k];
    let samples = subset::sample_flags(m, groups);
    let waves = subset::wave_flags(m, groups);
    let tables = subset::table_flags(m, groups);
    match was {
        Voice::DirectSound { sample, .. } => {
            subset::lemma_rank_step(samples, sample as int, m.samples.len() as int);
            assert(samples[sample as int]);
        },
        Voice::Wave { wave, .. } => {
            subset::lemma_rank_step(waves, wave as int, m.waves.len() as int);
            assert(waves[wave as int]);
        },
        Voice::Keysplit { group, table } => {
            subset::lemma_rank_step(groups, group as int, m.voicegroups.len() as int);
            subset::lemma_rank_step(tables, table as int, m.keysplits.len() as int);
            assert(groups[group as int]);
            assert(tables[table as int]);
        },
        Voice::KeysplitAll { group } => {
            subset::lemma_rank_step(groups, group as int, m.voicegroups.len() as int);
            assert(groups[group as int]);
        },
        _ => {},
    }
}

/// A note can be heard where it is struck at all, of a sample; where its goal
/// reaches a quarter, of a wave; where it has a goal, of the other generators.
pub proof fn what_can_be_heard(r: engine::Resolved, vel: u8, t: engine::Track)
    ensures
        r.voice is DirectSound ==> engine::note_audible(r, vel, t) == (vel > 0),
        r.voice is Wave ==> engine::note_audible(r, vel, t) == (engine::note_goal(r, vel, t) >= 2),
        r.voice is Square || r.voice is Noise ==> engine::note_audible(r, vel, t) == (
        engine::note_goal(r, vel, t) > 0),
{
}

/// The programs that a song uses are those under which a note of it plays.
pub proof fn programs_are_used_by_notes(tracks: Seq<Seq<crate::audio::data::Event>>, p: u8)
    ensures
        check::plays_program(tracks, p) <==> exists|i: int, k: int|
            #![trigger tracks[i][k]]
            0 <= i < tracks.len() && 0 <= k < tracks[i].len() && tracks[i][k].kind is Note
                && check::program_after(tracks[i], k) == p,
{
    if check::plays_program(tracks, p) {
        let (i, k) = choose|i: int, k: int|
            #![trigger tracks[i][k]]
            0 <= i < tracks.len() && 0 <= k < tracks[i].len() && check::is_note(tracks[i][k])
                && check::program_after(tracks[i], k) == p;
        assert(tracks[i][k].kind is Note);
    }
    if exists|i: int, k: int|
        #![trigger tracks[i][k]]
        0 <= i < tracks.len() && 0 <= k < tracks[i].len() && tracks[i][k].kind is Note
            && check::program_after(tracks[i], k) == p {
        let (i, k) = choose|i: int, k: int|
            #![trigger tracks[i][k]]
            0 <= i < tracks.len() && 0 <= k < tracks[i].len() && tracks[i][k].kind is Note
                && check::program_after(tracks[i], k) == p;
        assert(check::is_note(tracks[i][k]));
    }
}

} // verus!
