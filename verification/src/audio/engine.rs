//! The m4a sequencer: it fires the events of a song tick by tick, resolves
//! each note against the raw voicegroup tables at note-on, and keeps the list
//! of sounding channels. What the channels sound like is the mixer's affair.

use vstd::prelude::*;
use crate::codec::Wire;
use crate::text::same_text;
use crate::audio::data::{Event, EventKind, MusicModel, MusicPack, SongData, Voice};

verus! {

/// Live channel cap.
pub const MAX_CHANNELS: usize = 256;

/// Microseconds per beat before the first tempo of a song.
pub const DEFAULT_TEMPO: u32 = 500000;

/// What a note resolved to: a concrete playable voice.
#[derive(Clone, Copy)]
pub struct Resolved {
    pub voice: Voice,
    /// The key that sounds (drumset notes play at the sub-voice's base key).
    pub play_key: u8,
    /// Drum pan override in the -128..126 range, 0 = neutral.
    pub rp: i32,
}

#[derive(Clone, Copy, PartialEq, Eq, Structural)]
pub enum EnvPhase {
    Attack,
    Decay,
    Sustain,
    Release,
    Dead,
}

/// The stage an envelope is in after a frame in which the stage it was in did
/// or did not run its course. The sustain has no course to run.
pub open spec fn next_phase(phase: EnvPhase, ran_out: bool) -> EnvPhase {
    if !ran_out {
        phase
    } else {
        match phase {
            EnvPhase::Attack => EnvPhase::Decay,
            EnvPhase::Decay => EnvPhase::Sustain,
            EnvPhase::Release => EnvPhase::Dead,
            other => other,
        }
    }
}

impl EnvPhase {
    pub fn next(self, ran_out: bool) -> (phase: EnvPhase)
        ensures
            phase == next_phase(self, ran_out),
    {
        if !ran_out {
            return self;
        }
        match self {
            EnvPhase::Attack => EnvPhase::Decay,
            EnvPhase::Decay => EnvPhase::Sustain,
            EnvPhase::Release => EnvPhase::Dead,
            other => other,
        }
    }
}

#[derive(Clone, Copy)]
pub struct Channel {
    pub track: usize,
    pub res: Resolved,
    pub vel: u8,
    /// Gate in sequencer ticks; release starts when it runs out.
    pub gate: u32,
    pub phase_env: EnvPhase,
    /// PSG note volume goal 0..15, quantized like the hardware.
    pub goal: i32,
    pub born_frame: u64,
    pub dead: bool,
}

#[derive(Clone, Copy, PartialEq, Eq, Structural)]
pub struct Track {
    /// Index into the tracks of the song.
    pub events: usize,
    pub next: usize,
    pub done: bool,
    pub prog: u8,
    pub vol: i32,
    pub pan: i32,
    pub bend: i32,
    pub bend_range: i32,
    pub modulation: i32,
    pub lfo_speed: i32,
}

/// What a track is before its first event.
pub open spec fn fresh_track(events: usize) -> Track {
    Track {
        events,
        next: 0,
        done: false,
        prog: 0,
        vol: 100,
        pan: 0,
        bend: 0,
        bend_range: 2,
        modulation: 0,
        lfo_speed: 22,
    }
}

impl Track {
    pub fn new(events: usize) -> (t: Track)
        ensures
            t == fresh_track(events),
    {
        Track {
            events,
            next: 0,
            done: false,
            prog: 0,
            vol: 100,
            pan: 0,
            bend: 0,
            bend_range: 2,
            modulation: 0,
            lfo_speed: 22,
        }
    }

    /// What the events can set keeps within their bytes.
    pub open spec fn wf(self) -> bool {
        &&& 0 <= self.vol <= 255
        &&& -128 <= self.pan <= 127
        &&& -128 <= self.bend <= 127
        &&& 0 <= self.bend_range <= 255
        &&& 0 <= self.modulation <= 255
        &&& 0 <= self.lfo_speed <= 255
    }
}

/// Per-play diagnostics: every note the score asked for either sounded or is
/// accounted for here.
pub struct PlayStats {
    pub notes_on: u64,
    /// (track, program, key) of notes that resolved to nothing, or found the
    /// channels full.
    pub dropped: Vec<(usize, u8, u8)>,
    /// Per track: spawned at least one note with nonzero potential gain.
    pub spawned_audible: Vec<bool>,
}

pub struct Engine {
    pub pack: MusicPack,
    /// Output rate in Hz.
    pub rate: u32,
    pub song: Option<usize>,
    pub looping: bool,
    pub tracks: Vec<Track>,
    pub channels: Vec<Channel>,
    pub tick: u32,
    pub frame: u64,
    pub stats: PlayStats,
}

// ---- resolving a note ----------------------------------------------------

/// The voice of a program in a group.
pub open spec fn voice_at(m: MusicModel, group: int, program: int) -> Option<Voice> {
    if 0 <= group < m.voicegroups.len() {
        let g = m.voicegroups[group];
        if g.offset <= program < g.offset + g.entries.len() {
            Some(g.entries[program - g.offset])
        } else {
            None
        }
    } else {
        None
    }
}

/// Whether a voice makes a sound of its own.
pub open spec fn playable(v: Voice) -> bool {
    match v {
        Voice::Keysplit { .. } => false,
        Voice::KeysplitAll { .. } => false,
        Voice::Unsupported => false,
        _ => true,
    }
}

pub open spec fn base_key_of(v: Voice) -> u8 {
    match v {
        Voice::DirectSound { base_key, .. } => base_key,
        Voice::Square { base_key, .. } => base_key,
        Voice::Wave { base_key, .. } => base_key,
        Voice::Noise { base_key, .. } => base_key,
        _ => 0,
    }
}

pub open spec fn pan_of(v: Voice) -> u8 {
    match v {
        Voice::DirectSound { pan, .. } => pan,
        Voice::Square { pan, .. } => pan,
        Voice::Wave { pan, .. } => pan,
        Voice::Noise { pan, .. } => pan,
        _ => 0,
    }
}

/// The pan of a drum: its pan byte with the top bit set, less 0xC0, doubled.
pub open spec fn drum_pan(pan: u8) -> i32 {
    if pan == 0 {
        0
    } else if pan >= 128 {
        ((pan - 0xC0) * 2) as i32
    } else {
        ((pan + 128 - 0xC0) * 2) as i32
    }
}

/// A voice played as a melodic note.
pub open spec fn melodic(v: Voice, key: u8) -> Option<Resolved> {
    if playable(v) {
        Some(Resolved { voice: v, play_key: key, rp: 0 })
    } else {
        None
    }
}

/// A voice played as a drum.
pub open spec fn drum(v: Voice) -> Option<Resolved> {
    if playable(v) {
        Some(Resolved { voice: v, play_key: base_key_of(v), rp: drum_pan(pan_of(v)) })
    } else {
        None
    }
}

/// What (voicegroup, program, key) sounds as; nothing where it cannot sound.
pub open spec fn resolved(m: MusicModel, group: int, program: int, key: u8) -> Option<Resolved> {
    match voice_at(m, group, program) {
        None => None,
        Some(Voice::Keysplit { group: sub, table }) => if table < m.keysplits.len() {
            let idx = m.keysplits[table as int].map[(key % 128) as int];
            if idx == 0xFF {
                None
            } else {
                match voice_at(m, sub as int, idx as int) {
                    None => None,
                    Some(v) => melodic(v, key),
                }
            }
        } else {
            None
        },
        Some(Voice::KeysplitAll { group: sub }) => match voice_at(m, sub as int, key as int) {
            None => None,
            Some(v) => drum(v),
        },
        Some(v) => melodic(v, key),
    }
}

/// The voice of a program in a group.
pub fn find_voice(pack: &MusicPack, group: u16, program: u16) -> (v: Option<Voice>)
    ensures
        v == voice_at(pack.model(), group as int, program as int),
{
    let g: usize = group as usize;
    if g >= pack.voicegroups.len() {
        return None;
    }
    assert(pack.model().voicegroups[g as int] == pack.voicegroups@[g as int].model());
    match pack.voicegroups[g].voice(program) {
        Some(v) => Some(*v),
        None => None,
    }
}

fn as_melodic(v: Voice, key: u8) -> (r: Option<Resolved>)
    ensures
        r == melodic(v, key),
{
    match v {
        Voice::Keysplit { .. } => None,
        Voice::KeysplitAll { .. } => None,
        Voice::Unsupported => None,
        voice => Some(Resolved { voice, play_key: key, rp: 0 }),
    }
}

fn as_drum(v: Voice) -> (r: Option<Resolved>)
    ensures
        r == drum(v),
{
    let (base, pan): (u8, u8) = match v {
        Voice::Keysplit { .. } => return None,
        Voice::KeysplitAll { .. } => return None,
        Voice::Unsupported => return None,
        Voice::DirectSound { base_key, pan, .. } => (base_key, pan),
        Voice::Square { base_key, pan, .. } => (base_key, pan),
        Voice::Wave { base_key, pan, .. } => (base_key, pan),
        Voice::Noise { base_key, pan, .. } => (base_key, pan),
    };
    let rp: i32 = if pan == 0 {
        0
    } else if pan >= 128 {
        (pan as i32 - 0xC0) * 2
    } else {
        (pan as i32 + 128 - 0xC0) * 2
    };
    Some(Resolved { voice: v, play_key: base, rp })
}

/// Resolve (voicegroup, program, key) at note-on. `None` = the note cannot
/// sound.
pub fn resolve(pack: &MusicPack, group: u16, program: u8, key: u8) -> (r: Option<Resolved>)
    ensures
        r == resolved(pack.model(), group as int, program as int, key),
{
    match find_voice(pack, group, program as u16) {
        None => None,
        Some(Voice::Keysplit { group: sub, table }) => {
            let t: usize = table as usize;
            if t >= pack.keysplits.len() {
                return None;
            }
            assert(pack.model().keysplits[t as int] == pack.keysplits@[t as int].model());
            let idx: u8 = pack.keysplits[t].map[(key % 128) as usize];
            if idx == 0xFF {
                return None;
            }
            match find_voice(pack, sub, idx as u16) {
                None => None,
                Some(v) => as_melodic(v, key),
            }
        },
        Some(Voice::KeysplitAll { group: sub }) => match find_voice(pack, sub, key as u16) {
            None => None,
            Some(v) => as_drum(v),
        },
        Some(v) => as_melodic(v, key),
    }
}

/// Whatever a note resolves to makes a sound of its own, and its drum pan
/// keeps within -128..126.
pub proof fn resolved_is_playable(m: MusicModel, group: int, program: int, key: u8)
    ensures
        resolved(m, group, program, key) matches Some(r) ==> playable(r.voice) && -128 <= r.rp
            <= 126,
{
}

// ---- volumes -------------------------------------------------------------

/// The pan of a track doubled, held to a signed byte.
pub open spec fn wide_pan(pan: int) -> int {
    if 2 * pan < -128 {
        -128
    } else if 2 * pan > 127 {
        127
    } else {
        2 * pan
    }
}

pub open spec fn at_most(x: int, top: int) -> int {
    if x < top {
        x
    } else {
        top
    }
}

/// Side volumes, 0..255 per side: left, then right.
pub open spec fn sides(vel: int, vol: int, pan: int, rp: int) -> (int, int) {
    let y = wide_pan(pan);
    let mr = (y + 128) * 2 * vol / 256;
    let ml = (127 - y) * 2 * vol / 256;
    (at_most(vel * (127 - rp) * ml / 16384, 255), at_most(vel * (rp + 128) * mr / 16384, 255))
}

/// Twice the pan, held to -128..127.
pub fn widened(pan: i32) -> (y: i32)
    requires
        -128 <= pan <= 127,
    ensures
        y == wide_pan(pan as int),
        -128 <= y <= 127,
{
    if 2 * pan < -128 {
        -128
    } else if 2 * pan > 127 {
        127
    } else {
        2 * pan
    }
}

proof fn lemma_side(a: int, b: int, c: int)
    requires
        0 <= a <= 255,
        0 <= b <= 255,
        0 <= c <= 508,
    ensures
        0 <= a * b <= 65025,
        0 <= a * b * c <= 33032700,
{
    assert(0 <= a * b <= 65025) by (nonlinear_arith)
        requires
            0 <= a <= 255,
            0 <= b <= 255,
    ;
    let ab = a * b;
    assert(0 <= ab * c <= 33032700) by (nonlinear_arith)
        requires
            0 <= ab <= 65025,
            0 <= c <= 508,
    ;
}

/// Side volumes: 0..255 per side.
pub fn side_vols(vel: i32, vol: i32, pan: i32, rp: i32) -> (r: (i32, i32))
    requires
        0 <= vel <= 255,
        0 <= vol <= 255,
        -128 <= pan <= 127,
        -128 <= rp <= 127,
    ensures
        (r.0 as int, r.1 as int) == sides(vel as int, vol as int, pan as int, rp as int),
        0 <= r.0 <= 255,
        0 <= r.1 <= 255,
{
    let y: i32 = widened(pan);
    assert(0 <= (y + 128) * 2 * vol <= 130050) by (nonlinear_arith)
        requires
            -128 <= y <= 127,
            0 <= vol <= 255,
    ;
    assert(0 <= (127 - y) * 2 * vol <= 130050) by (nonlinear_arith)
        requires
            -128 <= y <= 127,
            0 <= vol <= 255,
    ;
    let mr: i32 = (y + 128) * 2 * vol / 256;
    let ml: i32 = (127 - y) * 2 * vol / 256;
    proof {
        lemma_side(vel as int, 127 - rp, ml as int);
        lemma_side(vel as int, rp + 128, mr as int);
    }
    let l: i32 = vel * (127 - rp) * ml / 16384;
    let r: i32 = vel * (rp + 128) * mr / 16384;
    (if l < 255 { l } else { 255 }, if r < 255 { r } else { 255 })
}

/// The wave channel's coarse volume, in quarters.
pub open spec fn wave_quarters(level: int) -> int {
    if level <= 1 {
        0
    } else if level <= 5 {
        1
    } else if level <= 9 {
        2
    } else if level <= 13 {
        3
    } else {
        4
    }
}

/// The wave channel's coarse volume for a level, in quarters of full volume.
pub fn wave_vol_code(level: i32) -> (q: u8)
    ensures
        q == wave_quarters(level as int),
{
    if level <= 1 {
        0
    } else if level <= 5 {
        1
    } else if level <= 9 {
        2
    } else if level <= 13 {
        3
    } else {
        4
    }
}

pub open spec fn is_direct(v: Voice) -> bool {
    v is DirectSound
}

/// The volume goal of a note: none for a sample, four bits of the side
/// volumes for the other voices.
pub open spec fn note_goal(r: Resolved, vel: u8, t: Track) -> int {
    if is_direct(r.voice) {
        0
    } else {
        let (a, b) = sides(vel as int, t.vol as int, t.pan as int, r.rp as int);
        at_most((a + b) / 16, 15)
    }
}

/// Whether a note has any potential gain.
pub open spec fn note_audible(r: Resolved, vel: u8, t: Track) -> bool {
    match r.voice {
        Voice::DirectSound { .. } => vel > 0,
        Voice::Wave { .. } => wave_quarters(note_goal(r, vel, t)) > 0,
        _ => note_goal(r, vel, t) > 0,
    }
}

// ---- playing -------------------------------------------------------------

/// The state of a play as a value.
#[verifier::ext_equal]
pub struct Play {
    pub song: Option<usize>,
    pub looping: bool,
    pub tracks: Seq<Track>,
    pub channels: Seq<Channel>,
    pub tick: int,
    pub frame: int,
    pub notes_on: int,
    pub dropped: Seq<(usize, u8, u8)>,
    pub audible: Seq<bool>,
}

/// The events of a track of the song that plays.
pub open spec fn events_of(m: MusicModel, song: int, track: int) -> Seq<Event> {
    m.songs[song].tracks[track]
}

/// The channel that a note starts.
pub open spec fn started(r: Resolved, p: Play, ti: int, vel: u8, dur: u32) -> Channel {
    Channel {
        track: ti as usize,
        res: r,
        vel,
        gate: if dur == 0 {
            1
        } else {
            dur
        },
        phase_env: EnvPhase::Attack,
        goal: note_goal(r, vel, p.tracks[ti]) as i32,
        born_frame: p.frame as u64,
        dead: false,
    }
}

/// A note: it is dropped where it resolves to nothing or the channels are full,
/// and starts a channel otherwise.
pub open spec fn after_note(m: MusicModel, p: Play, ti: int, key: u8, vel: u8, dur: u32) -> Play {
    let prog = p.tracks[ti].prog;
    let counted = Play { notes_on: p.notes_on + 1, ..p };
    let dropped = Play { dropped: p.dropped.push((ti as usize, prog, key)), ..counted };
    match resolved(m, m.songs[p.song->0 as int].voicegroup as int, prog as int, key) {
        None => dropped,
        Some(r) => if p.channels.len() >= MAX_CHANNELS {
            dropped
        } else {
            Play {
                channels: p.channels.push(started(r, p, ti, vel, dur)),
                audible: if note_audible(r, vel, p.tracks[ti]) {
                    p.audible.update(ti, true)
                } else {
                    p.audible
                },
                ..counted
            }
        },
    }
}

/// What a control event makes of its track.
pub open spec fn after_control(t: Track, k: EventKind) -> Track {
    match k {
        EventKind::Note { .. } => t,
        EventKind::Program(v) => Track { prog: v, ..t },
        EventKind::Volume(v) => Track { vol: v as i32, ..t },
        EventKind::Pan(v) => Track { pan: v as i32, ..t },
        EventKind::Bend(v) => Track { bend: v as i32, ..t },
        EventKind::Mod(v) => Track { modulation: v as i32, ..t },
        EventKind::BendRange(v) => Track { bend_range: v as i32, ..t },
        EventKind::LfoSpeed(v) => Track { lfo_speed: v as i32, ..t },
    }
}

/// One event of track `ti`.
pub open spec fn after_event(m: MusicModel, p: Play, ti: int, k: EventKind) -> Play {
    match k {
        EventKind::Note { key, vel, dur } => after_note(m, p, ti, key, vel, dur),
        _ => Play { tracks: p.tracks.update(ti, after_control(p.tracks[ti], k)), ..p },
    }
}

/// The end of the run of due events that begins at `from`.
pub open spec fn due_end(evs: Seq<Event>, from: int, tick: int) -> int
    decreases evs.len() - from,
{
    if from >= evs.len() || evs[from].tick > tick {
        from
    } else {
        due_end(evs, from + 1, tick)
    }
}

/// The events `from..to` of track `ti`, one after the other.
pub open spec fn after_events(
    m: MusicModel,
    p: Play,
    ti: int,
    evs: Seq<Event>,
    from: int,
    to: int,
) -> Play
    decreases to - from,
{
    if to <= from {
        p
    } else {
        after_event(m, after_events(m, p, ti, evs, from, to - 1), ti, evs[to - 1].kind)
    }
}

/// Track `ti` fires what is due; at its end it is done unless the song loops.
pub open spec fn after_track(m: MusicModel, p: Play, ti: int) -> Play {
    let t = p.tracks[ti];
    if t.done {
        p
    } else {
        let evs = events_of(m, p.song->0 as int, t.events as int);
        let end = due_end(evs, t.next as int, p.tick);
        let q = after_events(m, p, ti, evs, t.next as int, end);
        Play {
            tracks: q.tracks.update(
                ti,
                Track {
                    next: end as usize,
                    done: end >= evs.len() && !p.looping,
                    ..q.tracks[ti]
                },
            ),
            ..q
        }
    }
}

/// The first `n` tracks fire, in their order.
pub open spec fn after_tracks(m: MusicModel, p: Play, n: int) -> Play
    decreases n,
{
    if n <= 0 {
        p
    } else {
        after_track(m, after_tracks(m, p, n - 1), n - 1)
    }
}

/// How many events at the front lie before `tick`.
pub open spec fn leading(evs: Seq<Event>, tick: int) -> int
    decreases evs.len(),
{
    if evs.len() == 0 || evs[0].tick >= tick {
        0
    } else {
        1 + leading(evs.skip(1), tick)
    }
}

/// A looping song at or past its loop end goes back to its loop start:
/// events at the loop end belong to the next pass.
pub open spec fn after_wrap(m: MusicModel, p: Play) -> Play {
    let s = m.songs[p.song->0 as int];
    if p.looping && s.loop_start is Some && s.loop_end is Some && p.tick >= s.loop_end->0 {
        let start = s.loop_start->0 as int;
        Play {
            tick: start,
            tracks: Seq::new(
                p.tracks.len(),
                |i: int|
                    Track {
                        next: leading(
                            events_of(m, p.song->0 as int, p.tracks[i].events as int),
                            start,
                        ) as usize,
                        done: false,
                        ..p.tracks[i]
                    },
            ),
            ..p
        }
    } else {
        p
    }
}

/// A gate counts down; at its end the release begins.
pub open spec fn after_gate(c: Channel) -> Channel {
    if c.gate > 0 {
        Channel {
            gate: (c.gate - 1) as u32,
            phase_env: if c.gate == 1 && c.phase_env != EnvPhase::Dead {
                EnvPhase::Release
            } else {
                c.phase_env
            },
            ..c
        }
    } else {
        c
    }
}

pub open spec fn after_gates(p: Play) -> Play {
    Play { channels: Seq::new(p.channels.len(), |i: int| after_gate(p.channels[i])), ..p }
}

/// One sequencer tick: the wrap, the gates, then the events (a note that
/// starts on this tick keeps its full gate).
pub open spec fn after_tick(m: MusicModel, p: Play) -> Play {
    if p.song is None {
        p
    } else {
        let q = after_gates(after_wrap(m, p));
        let r = after_tracks(m, q, q.tracks.len() as int);
        Play { tick: r.tick + 1, ..r }
    }
}

/// The channels among the first `n` that still sound.
pub open spec fn living(cs: Seq<Channel>, n: int) -> Seq<Channel>
    decreases n,
{
    if n <= 0 {
        seq![]
    } else if cs[n - 1].dead {
        living(cs, n - 1)
    } else {
        living(cs, n - 1).push(cs[n - 1])
    }
}

/// A channel after a frame of its envelope.
pub open spec fn after_envelope(c: Channel, ran_out: bool) -> Channel {
    let phase = next_phase(c.phase_env, ran_out);
    Channel { phase_env: phase, dead: c.dead || phase == EnvPhase::Dead, ..c }
}

/// The end of a frame: dead channels go, and a song that does not loop is
/// over when its tracks are done and nothing sounds.
pub open spec fn after_frame(p: Play) -> Play {
    let left = living(p.channels, p.channels.len() as int);
    let over = !p.looping && left.len() == 0 && forall|i: int|
        0 <= i < p.tracks.len() ==> (#[trigger] p.tracks[i]).done;
    Play {
        channels: left,
        song: if over {
            None
        } else {
            p.song
        },
        frame: p.frame + 1,
        ..p
    }
}

/// A song about to play its first tick.
pub open spec fn begun(m: MusicModel, song: usize, looping: bool) -> Play {
    let s = m.songs[song as int];
    Play {
        song: Some(song),
        looping: looping && s.loop_start is Some && s.loop_end is Some,
        tracks: Seq::new(s.tracks.len(), |i: int| fresh_track(i as usize)),
        channels: seq![],
        tick: 0,
        frame: 0,
        notes_on: 0,
        dropped: seq![],
        audible: Seq::new(s.tracks.len(), |i: int| false),
    }
}

/// The number of events in the first `n` tracks of a song.
pub open spec fn event_count(tracks: Seq<Seq<Event>>, n: int) -> int
    decreases n,
{
    if n <= 0 {
        0
    } else {
        event_count(tracks, n - 1) + tracks[n - 1].len()
    }
}

impl Play {
    /// What every operation keeps.
    pub open spec fn wf(self, m: MusicModel) -> bool {
        &&& self.channels.len() <= MAX_CHANNELS
        &&& self.song matches Some(si) ==> {
            &&& si < m.songs.len()
            &&& self.tracks.len() == m.songs[si as int].tracks.len()
            &&& self.audible.len() == self.tracks.len()
            &&& forall|i: int|
                0 <= i < self.tracks.len() ==> {
                    &&& (#[trigger] self.tracks[i]).events == i
                    &&& self.tracks[i].next <= events_of(m, si as int, i).len()
                    &&& self.tracks[i].wf()
                }
            &&& forall|i: int|
                0 <= i < self.channels.len() ==> (#[trigger] self.channels[i]).track
                    < self.tracks.len() && playable(self.channels[i].res.voice) && 0
                    <= self.channels[i].goal <= 15 && -128 <= self.channels[i].res.rp <= 126
        }
    }
}

// ---- facts about a play --------------------------------------------------

proof fn lemma_due_end(evs: Seq<Event>, from: int, tick: int)
    requires
        0 <= from <= evs.len(),
    ensures
        from <= due_end(evs, from, tick) <= evs.len(),
    decreases evs.len() - from,
{
    if from < evs.len() && evs[from].tick <= tick {
        lemma_due_end(evs, from + 1, tick);
    }
}

proof fn lemma_leading(evs: Seq<Event>, tick: int)
    ensures
        0 <= leading(evs, tick) <= evs.len(),
        forall|i: int| 0 <= i < leading(evs, tick) ==> (#[trigger] evs[i]).tick < tick,
        leading(evs, tick) < evs.len() ==> evs[leading(evs, tick)].tick >= tick,
    decreases evs.len(),
{
    if evs.len() > 0 && evs[0].tick < tick {
        let rest = evs.skip(1);
        lemma_leading(rest, tick);
        assert forall|i: int| 0 <= i < leading(evs, tick) implies (#[trigger] evs[i]).tick
            < tick by {
            if i > 0 {
                assert(rest[i - 1] == evs[i]);
            }
        }
        if leading(evs, tick) < evs.len() {
            assert(rest[leading(rest, tick)] == evs[leading(evs, tick)]);
        }
    }
}

/// `leading` is the only place with this property.
proof fn lemma_leading_is(evs: Seq<Event>, tick: int, n: int)
    requires
        0 <= n <= evs.len(),
        forall|i: int| 0 <= i < n ==> (#[trigger] evs[i]).tick < tick,
        n < evs.len() ==> evs[n].tick >= tick,
    ensures
        leading(evs, tick) == n,
{
    lemma_leading(evs, tick);
    let k = leading(evs, tick);
    if k < n {
        assert(evs[k].tick < tick);
    }
    if n < k {
        assert(evs[n].tick < tick);
    }
}

proof fn lemma_sides(vel: u8, vol: int, pan: int, rp: int)
    requires
        0 <= vol <= 255,
        -128 <= pan <= 127,
        -128 <= rp <= 127,
    ensures
        0 <= sides(vel as int, vol, pan, rp).0 <= 255,
        0 <= sides(vel as int, vol, pan, rp).1 <= 255,
{
    let y = wide_pan(pan);
    assert(0 <= (y + 128) * 2 * vol <= 130050) by (nonlinear_arith)
        requires
            -128 <= y <= 127,
            0 <= vol <= 255,
    ;
    assert(0 <= (127 - y) * 2 * vol <= 130050) by (nonlinear_arith)
        requires
            -128 <= y <= 127,
            0 <= vol <= 255,
    ;
    lemma_side(vel as int, 127 - rp, (127 - y) * 2 * vol / 256);
    lemma_side(vel as int, rp + 128, (y + 128) * 2 * vol / 256);
}

/// An event keeps what every operation keeps, leaves the other tracks alone
/// and counts at most one note.
proof fn lemma_after_event(m: MusicModel, p: Play, ti: int, k: EventKind)
    requires
        p.wf(m),
        p.song is Some,
        0 <= ti < p.tracks.len(),
        p.tracks.len() <= usize::MAX,
    ensures
        after_event(m, p, ti, k).wf(m),
        after_event(m, p, ti, k).song == p.song,
        after_event(m, p, ti, k).looping == p.looping,
        after_event(m, p, ti, k).tick == p.tick,
        after_event(m, p, ti, k).frame == p.frame,
        after_event(m, p, ti, k).tracks.len() == p.tracks.len(),
        after_event(m, p, ti, k).tracks[ti].next == p.tracks[ti].next,
        after_event(m, p, ti, k).tracks[ti].done == p.tracks[ti].done,
        p.notes_on <= after_event(m, p, ti, k).notes_on <= p.notes_on + 1,
        forall|i: int|
            0 <= i < p.tracks.len() && i != ti ==> after_event(m, p, ti, k).tracks[i]
                == p.tracks[i],
{
    let q = after_event(m, p, ti, k);
    match k {
        EventKind::Note { key, vel, dur } => {
            let t = p.tracks[ti];
            let group = m.songs[p.song->0 as int].voicegroup as int;
            resolved_is_playable(m, group, t.prog as int, key);
            if let Some(r) = resolved(m, group, t.prog as int, key) {
                lemma_sides(vel, t.vol as int, t.pan as int, r.rp as int);
            }
        },
        _ => {
            assert forall|i: int| 0 <= i < q.tracks.len() implies {
                &&& (#[trigger] q.tracks[i]).events == i
                &&& q.tracks[i].next <= events_of(m, q.song->0 as int, i).len()
                &&& q.tracks[i].wf()
            } by {
                assert(p.tracks[i].events == i);
            }
        },
    }
}

proof fn lemma_after_events(
    m: MusicModel,
    p: Play,
    ti: int,
    evs: Seq<Event>,
    from: int,
    to: int,
)
    requires
        p.wf(m),
        p.song is Some,
        0 <= ti < p.tracks.len(),
        p.tracks.len() <= usize::MAX,
        from <= to,
    ensures
        ({
            let q = after_events(m, p, ti, evs, from, to);
            &&& q.wf(m)
            &&& q.song == p.song
            &&& q.looping == p.looping
            &&& q.tick == p.tick
            &&& q.frame == p.frame
            &&& q.tracks.len() == p.tracks.len()
            &&& q.tracks[ti].next == p.tracks[ti].next
            &&& q.tracks[ti].done == p.tracks[ti].done
            &&& p.notes_on <= q.notes_on <= p.notes_on + (to - from)
            &&& forall|i: int| 0 <= i < p.tracks.len() && i != ti ==> q.tracks[i] == p.tracks[i]
        }),
    decreases to - from,
{
    if from < to {
        lemma_after_events(m, p, ti, evs, from, to - 1);
        lemma_after_event(
            m,
            after_events(m, p, ti, evs, from, to - 1),
            ti,
            evs[to - 1].kind,
        );
    }
}

/// What firing a track keeps.
proof fn lemma_after_track(m: MusicModel, p: Play, ti: int)
    requires
        p.wf(m),
        p.song is Some,
        0 <= ti < p.tracks.len(),
        p.tracks.len() <= usize::MAX,
        events_of(m, p.song->0 as int, ti).len() <= usize::MAX,
    ensures
        ({
            let q = after_track(m, p, ti);
            &&& q.wf(m)
            &&& q.song == p.song
            &&& q.looping == p.looping
            &&& q.tick == p.tick
            &&& q.frame == p.frame
            &&& q.tracks.len() == p.tracks.len()
            &&& p.notes_on <= q.notes_on <= p.notes_on + events_of(m, p.song->0 as int, ti).len()
            &&& forall|i: int| 0 <= i < p.tracks.len() && i != ti ==> q.tracks[i] == p.tracks[i]
        }),
{
    let t = p.tracks[ti];
    assert(t.events == ti);
    if !t.done {
        let evs = events_of(m, p.song->0 as int, ti);
        lemma_due_end(evs, t.next as int, p.tick);
        let end = due_end(evs, t.next as int, p.tick);
        lemma_after_events(m, p, ti, evs, t.next as int, end);
        let r = after_events(m, p, ti, evs, t.next as int, end);
        let q = after_track(m, p, ti);
        assert forall|i: int| 0 <= i < q.tracks.len() implies {
            &&& (#[trigger] q.tracks[i]).events == i
            &&& q.tracks[i].next <= events_of(m, q.song->0 as int, i).len()
            &&& q.tracks[i].wf()
        } by {
            assert(r.tracks[i].events == i);
        }
    }
}

/// What firing the first `n` tracks keeps.
proof fn lemma_after_tracks(m: MusicModel, p: Play, n: int)
    requires
        p.wf(m),
        p.song is Some,
        0 <= n <= p.tracks.len(),
        p.tracks.len() <= usize::MAX,
        forall|i: int|
            0 <= i < p.tracks.len() ==> (#[trigger] events_of(m, p.song->0 as int, i)).len()
                <= usize::MAX,
    ensures
        ({
            let q = after_tracks(m, p, n);
            &&& q.wf(m)
            &&& q.song == p.song
            &&& q.looping == p.looping
            &&& q.tick == p.tick
            &&& q.frame == p.frame
            &&& q.tracks.len() == p.tracks.len()
            &&& p.notes_on <= q.notes_on <= p.notes_on + event_count(
                m.songs[p.song->0 as int].tracks,
                n,
            )
            &&& forall|i: int| n <= i < p.tracks.len() ==> q.tracks[i] == p.tracks[i]
        }),
    decreases n,
{
    if n > 0 {
        lemma_after_tracks(m, p, n - 1);
        lemma_after_track(m, after_tracks(m, p, n - 1), n - 1);
    }
}

proof fn lemma_event_count(tracks: Seq<Seq<Event>>, a: int, b: int)
    requires
        0 <= a <= b,
    ensures
        0 <= event_count(tracks, a) <= event_count(tracks, b),
    decreases b,
{
    if a < b {
        lemma_event_count(tracks, a, b - 1);
    } else if a > 0 {
        lemma_event_count(tracks, a - 1, b - 1);
    }
}

proof fn lemma_after_wrap(m: MusicModel, p: Play)
    requires
        p.wf(m),
        p.song is Some,
        forall|i: int|
            0 <= i < p.tracks.len() ==> (#[trigger] events_of(m, p.song->0 as int, i)).len()
                <= usize::MAX,
    ensures
        after_wrap(m, p).wf(m),
        after_gates(after_wrap(m, p)).wf(m),
{
    let q = after_wrap(m, p);
    assert forall|i: int| 0 <= i < q.tracks.len() implies {
        &&& (#[trigger] q.tracks[i]).events == i
        &&& q.tracks[i].next <= events_of(m, q.song->0 as int, i).len()
        &&& q.tracks[i].wf()
    } by {
        assert(p.tracks[i].events == i);
        let s = m.songs[p.song->0 as int];
        if s.loop_start is Some {
            lemma_leading(events_of(m, p.song->0 as int, i), s.loop_start->0 as int);
        }
    }
}

proof fn lemma_living(cs: Seq<Channel>, n: int)
    requires
        0 <= n <= cs.len(),
    ensures
        living(cs, n).len() <= n,
        forall|j: int|
            0 <= j < living(cs, n).len() ==> !(#[trigger] living(cs, n)[j]).dead && cs.contains(
                living(cs, n)[j],
            ),
    decreases n,
{
    if n > 0 {
        lemma_living(cs, n - 1);
        assert(cs.contains(cs[n - 1]));
    }
}

// ---- the engine ----------------------------------------------------------

impl Engine {
    /// The state of the play.
    pub open spec fn play_state(&self) -> Play {
        Play {
            song: self.song,
            looping: self.looping,
            tracks: self.tracks@,
            channels: self.channels@,
            tick: self.tick as int,
            frame: self.frame as int,
            notes_on: self.stats.notes_on as int,
            dropped: self.stats.dropped@,
            audible: self.stats.spawned_audible@,
        }
    }

    pub open spec fn wf(&self) -> bool {
        self.play_state().wf(self.pack.model())
    }

    pub fn new(pack: MusicPack, sample_rate: u32) -> (e: Engine)
        ensures
            e.wf(),
            e.pack == pack,
            e.rate == sample_rate,
            e.play_state() == (Play {
                song: None,
                looping: false,
                tracks: seq![],
                channels: seq![],
                tick: 0,
                frame: 0,
                notes_on: 0,
                dropped: seq![],
                audible: seq![],
            }),
    {
        let e = Engine {
            pack,
            rate: sample_rate,
            song: None,
            looping: false,
            tracks: Vec::new(),
            channels: Vec::new(),
            tick: 0,
            frame: 0,
            stats: PlayStats {
                notes_on: 0,
                dropped: Vec::new(),
                spawned_audible: Vec::new(),
            },
        };
        assert(e.play_state().dropped =~= seq![]);
        e
    }

    pub fn pack(&self) -> (p: &MusicPack)
        ensures
            *p == self.pack,
    {
        &self.pack
    }

    /// The first song of a name.
    pub fn song_index(&self, name: &str) -> (r: Option<usize>)
        ensures
            match r {
                Some(i) => {
                    &&& i < self.pack.songs@.len()
                    &&& self.pack.songs@[i as int].name@ == name@
                    &&& forall|k: int|
                        0 <= k < i ==> (#[trigger] self.pack.songs@[k]).name@ != name@
                },
                None => forall|k: int|
                    0 <= k < self.pack.songs@.len() ==> (#[trigger] self.pack.songs@[k]).name@
                        != name@,
            },
    {
        let mut i: usize = 0;
        while i < self.pack.songs.len()
            invariant
                i <= self.pack.songs@.len(),
                forall|k: int| 0 <= k < i ==> (#[trigger] self.pack.songs@[k]).name@ != name@,
            decreases self.pack.songs.len() - i,
        {
            if same_text(self.pack.songs[i].name.as_str(), name) {
                return Some(i);
            }
            i += 1;
        }
        None
    }

    pub fn playing(&self) -> (b: bool)
        ensures
            b == (self.song is Some),
    {
        self.song.is_some()
    }

    /// Make a song ready for its first tick.
    pub fn play(&mut self, song: usize, looping: bool)
        requires
            song < old(self).pack.songs@.len(),
        ensures
            final(self).wf(),
            final(self).pack == old(self).pack,
            final(self).rate == old(self).rate,
            final(self).play_state() == begun(old(self).pack.model(), song, looping),
    {
        let ghost m = self.pack.model();
        assert(m.songs[song as int] == self.pack.songs@[song as int].model());
        let n: usize = self.pack.songs[song].tracks.len();
        let mut tracks: Vec<Track> = Vec::new();
        let mut audible: Vec<bool> = Vec::new();
        let mut i: usize = 0;
        while i < n
            invariant
                i <= n,
                tracks@ == Seq::new(i as nat, |k: int| fresh_track(k as usize)),
                audible@ == Seq::new(i as nat, |k: int| false),
            decreases n - i,
        {
            tracks.push(Track::new(i));
            audible.push(false);
            assert(tracks@ =~= Seq::new((i + 1) as nat, |k: int| fresh_track(k as usize)));
            assert(audible@ =~= Seq::new((i + 1) as nat, |k: int| false));
            i += 1;
        }
        let loops = self.pack.songs[song].loop_start.is_some()
            && self.pack.songs[song].loop_end.is_some();
        self.tracks = tracks;
        self.channels = Vec::new();
        self.song = Some(song);
        self.looping = looping && loops;
        self.tick = 0;
        self.frame = 0;
        self.stats = PlayStats { notes_on: 0, dropped: Vec::new(), spawned_audible: audible };
        assert(self.play_state() =~= begun(m, song, looping));
    }

    pub fn stop(&mut self)
        ensures
            final(self).pack == old(self).pack,
            final(self).rate == old(self).rate,
            final(self).wf(),
            final(self).play_state() == (Play {
                song: None,
                channels: seq![],
                ..old(self).play_state()
            }),
    {
        self.song = None;
        self.channels = Vec::new();
        assert(self.play_state().channels =~= seq![]);
    }

    fn note_on(&mut self, ti: usize, key: u8, vel: u8, dur: u32)
        requires
            old(self).wf(),
            old(self).song is Some,
            ti < old(self).tracks@.len(),
            old(self).stats.notes_on < u64::MAX,
        ensures
            final(self).pack == old(self).pack,
            final(self).rate == old(self).rate,
            final(self).play_state() == after_note(
                old(self).pack.model(),
                old(self).play_state(),
                ti as int,
                key,
                vel,
                dur,
            ),
    {
        let ghost m = self.pack.model();
        let ghost before = self.play_state();
        self.stats.notes_on += 1;
        let si: usize = self.song.unwrap();
        assert(m.songs[si as int] == self.pack.songs@[si as int].model());
        let group: u16 = self.pack.songs[si].voicegroup;
        let t = self.tracks[ti];
        assert(before.tracks[ti as int].wf());
        let prog: u8 = t.prog;
        proof {
            resolved_is_playable(m, group as int, prog as int, key);
        }
        match resolve(&self.pack, group, prog, key) {
            None => {
                self.stats.dropped.push((ti, prog, key));
            },
            Some(res) => {
                if self.channels.len() < MAX_CHANNELS {
                    let direct = match res.voice {
                        Voice::DirectSound { .. } => true,
                        _ => false,
                    };
                    let goal: i32 = if direct {
                        0
                    } else {
                        let (l, r): (i32, i32) = side_vols(vel as i32, t.vol, t.pan, res.rp);
                        let g: i32 = (l + r) / 16;
                        if g < 15 {
                            g
                        } else {
                            15
                        }
                    };
                    let audible = match res.voice {
                        Voice::DirectSound { .. } => vel > 0,
                        Voice::Wave { .. } => wave_vol_code(goal) > 0,
                        _ => goal > 0,
                    };
                    if audible {
                        self.stats.spawned_audible[ti] = true;
                    }
                    self.channels.push(
                        Channel {
                            track: ti,
                            res,
                            vel,
                            gate: if dur == 0 { 1 } else { dur },
                            phase_env: EnvPhase::Attack,
                            goal,
                            born_frame: self.frame,
                            dead: false,
                        },
                    );
                } else {
                    self.stats.dropped.push((ti, prog, key));
                }
            },
        }
        assert(self.play_state() =~= after_note(m, before, ti as int, key, vel, dur));
    }

    fn fire_track(&mut self, ti: usize)
        requires
            old(self).wf(),
            old(self).song is Some,
            ti < old(self).tracks@.len(),
            old(self).stats.notes_on + events_of(
                old(self).pack.model(),
                old(self).song->0 as int,
                ti as int,
            ).len() <= u64::MAX,
        ensures
            final(self).pack == old(self).pack,
            final(self).rate == old(self).rate,
            final(self).play_state() == after_track(
                old(self).pack.model(),
                old(self).play_state(),
                ti as int,
            ),
    {
        let ghost m = self.pack.model();
        let ghost p = self.play_state();
        let si: usize = self.song.unwrap();
        let ghost song = self.pack.songs@[si as int];
        assert(m.songs[si as int] == song.model());
        assert(p.tracks[ti as int].events == ti);
        assert(m.songs[si as int].tracks[ti as int] == song.tracks@[ti as int].model());
        let ghost evs = events_of(m, si as int, ti as int);
        assert(evs =~= song.tracks@[ti as int]@);
        if self.tracks[ti].done {
            return;
        }
        assert(self.tracks.len() <= usize::MAX);
        let first: usize = self.tracks[ti].next;
        let len: usize = self.pack.songs[si].tracks[ti].len();
        let mut next: usize = first;
        while next < len && self.pack.songs[si].tracks[ti][next].tick <= self.tick
            invariant
                first <= next <= len,
                len == evs.len(),
                p.wf(m),
                p.song == Some(si),
                ti < p.tracks.len(),
                p.tracks.len() <= usize::MAX,
                self.pack == old(self).pack,
                self.rate == old(self).rate,
                m == self.pack.model(),
                si < self.pack.songs@.len(),
                ti < self.pack.songs@[si as int].tracks@.len(),
                self.pack.songs@[si as int].tracks@[ti as int]@ == evs,
                p.notes_on + len <= u64::MAX,
                self.play_state() == after_events(m, p, ti as int, evs, first as int, next as int),
                due_end(evs, first as int, p.tick) == due_end(evs, next as int, p.tick),
            decreases len - next,
        {
            proof {
                lemma_after_events(m, p, ti as int, evs, first as int, next as int);
            }
            let ghost q = self.play_state();
            let kind = self.pack.songs[si].tracks[ti][next].kind;
            assert(kind == evs[next as int].kind);
            match kind {
                EventKind::Note { key, vel, dur } => self.note_on(ti, key, vel, dur),
                EventKind::Program(v) => {
                    let mut t = self.tracks[ti];
                    t.prog = v;
                    self.tracks[ti] = t;
                },
                EventKind::Volume(v) => {
                    let mut t = self.tracks[ti];
                    t.vol = v as i32;
                    self.tracks[ti] = t;
                },
                EventKind::Pan(v) => {
                    let mut t = self.tracks[ti];
                    t.pan = v as i32;
                    self.tracks[ti] = t;
                },
                EventKind::Bend(v) => {
                    let mut t = self.tracks[ti];
                    t.bend = v as i32;
                    self.tracks[ti] = t;
                },
                EventKind::Mod(v) => {
                    let mut t = self.tracks[ti];
                    t.modulation = v as i32;
                    self.tracks[ti] = t;
                },
                EventKind::BendRange(v) => {
                    let mut t = self.tracks[ti];
                    t.bend_range = v as i32;
                    self.tracks[ti] = t;
                },
                EventKind::LfoSpeed(v) => {
                    let mut t = self.tracks[ti];
                    t.lfo_speed = v as i32;
                    self.tracks[ti] = t;
                },
            }
            assert(self.play_state() =~= after_event(m, q, ti as int, kind));
            next += 1;
        }
        proof {
            lemma_after_events(m, p, ti as int, evs, first as int, next as int);
        }
        let ghost q = self.play_state();
        let mut t = self.tracks[ti];
        t.next = next;
        t.done = next >= len && !self.looping;
        self.tracks[ti] = t;
        assert(due_end(evs, next as int, p.tick) == next);
        assert(self.play_state() =~= after_track(m, p, ti as int));
    }

    fn wrap(&mut self)
        requires
            old(self).wf(),
            old(self).song is Some,
        ensures
            final(self).pack == old(self).pack,
            final(self).rate == old(self).rate,
            final(self).play_state() == after_wrap(old(self).pack.model(), old(self).play_state()),
    {
        let ghost m = self.pack.model();
        let ghost p = self.play_state();
        let si: usize = self.song.unwrap();
        let ghost song = self.pack.songs@[si as int];
        assert(m.songs[si as int] == song.model());
        if !self.looping {
            return;
        }
        let start: u32 = match self.pack.songs[si].loop_start {
            Some(v) => v,
            None => return,
        };
        let end: u32 = match self.pack.songs[si].loop_end {
            Some(v) => v,
            None => return,
        };
        if self.tick < end {
            return;
        }
        self.tick = start;
        let ghost goal = after_wrap(m, p);
        let mut i: usize = 0;
        while i < self.tracks.len()
            invariant
                i <= self.tracks@.len(),
                p.wf(m),
                p.song == Some(si),
                si < m.songs.len(),
                self.tracks@.len() == p.tracks.len(),
                self.pack == old(self).pack,
                self.rate == old(self).rate,
                m == self.pack.model(),
                song == self.pack.songs@[si as int],
                m.songs[si as int] == song.model(),
                song.loop_start == Some(start),
                goal == after_wrap(m, p),
                goal.tick == start,
                goal.tracks.len() == p.tracks.len(),
                forall|k: int|
                    0 <= k < p.tracks.len() ==> #[trigger] goal.tracks[k] == (Track {
                        next: leading(
                            events_of(m, si as int, p.tracks[k].events as int),
                            start as int,
                        ) as usize,
                        done: false,
                        ..p.tracks[k]
                    }),
                forall|k: int| 0 <= k < i ==> self.tracks@[k] == goal.tracks[k],
                forall|k: int| i <= k < self.tracks@.len() ==> self.tracks@[k] == p.tracks[k],
                self.play_state() == (Play { tracks: self.tracks@, tick: start as int, ..p }),
            decreases self.tracks.len() - i,
        {
            let mut t = self.tracks[i];
            assert(p.tracks[i as int].events == i);
            assert(m.songs[si as int].tracks[i as int] == song.tracks@[i as int].model());
            let ghost evs = events_of(m, si as int, i as int);
            assert(evs =~= song.tracks@[i as int]@);
            let len: usize = self.pack.songs[si].tracks[i].len();
            let mut n: usize = 0;
            while n < len && self.pack.songs[si].tracks[i][n].tick < start
                invariant
                    n <= len,
                    len == evs.len(),
                    si < self.pack.songs@.len(),
                    i < self.pack.songs@[si as int].tracks@.len(),
                    self.pack.songs@[si as int].tracks@[i as int]@ == evs,
                    forall|k: int| 0 <= k < n ==> (#[trigger] evs[k]).tick < start,
                decreases len - n,
            {
                n += 1;
            }
            proof {
                lemma_leading_is(evs, start as int, n as int);
            }
            t.next = n;
            t.done = false;
            self.tracks[i] = t;
            i += 1;
        }
        assert(self.play_state() =~= goal);
    }

    fn count_gates(&mut self)
        ensures
            final(self).pack == old(self).pack,
            final(self).rate == old(self).rate,
            final(self).play_state() == after_gates(old(self).play_state()),
    {
        let ghost p = self.play_state();
        let mut i: usize = 0;
        while i < self.channels.len()
            invariant
                i <= self.channels@.len(),
                self.channels@.len() == p.channels.len(),
                self.pack == old(self).pack,
                self.rate == old(self).rate,
                forall|k: int| 0 <= k < i ==> self.channels@[k] == after_gate(p.channels[k]),
                forall|k: int|
                    i <= k < self.channels@.len() ==> self.channels@[k] == p.channels[k],
                self.play_state() == (Play { channels: self.channels@, ..p }),
            decreases self.channels.len() - i,
        {
            let mut c = self.channels[i];
            if c.gate > 0 {
                c.gate -= 1;
                if c.gate == 0 && c.phase_env != EnvPhase::Dead {
                    c.phase_env = EnvPhase::Release;
                }
            }
            self.channels[i] = c;
            i += 1;
        }
        assert(self.play_state() =~= after_gates(p));
    }

    /// One sequencer tick: fire due events, count down gates.
    pub fn seq_tick(&mut self)
        requires
            old(self).wf(),
            old(self).song matches Some(si) ==> {
                let s = old(self).pack.model().songs[si as int];
                &&& old(self).stats.notes_on + event_count(s.tracks, s.tracks.len() as int)
                    <= u64::MAX
                &&& after_wrap(old(self).pack.model(), old(self).play_state()).tick < u32::MAX
            },
        ensures
            final(self).wf(),
            final(self).pack == old(self).pack,
            final(self).rate == old(self).rate,
            final(self).play_state() == after_tick(old(self).pack.model(), old(self).play_state()),
    {
        if self.song.is_none() {
            return;
        }
        let ghost m = self.pack.model();
        let ghost p = self.play_state();
        let si: usize = self.song.unwrap();
        let ghost song = self.pack.songs@[si as int];
        assert(m.songs[si as int] == song.model());
        assert forall|i: int| 0 <= i < p.tracks.len() implies (#[trigger] events_of(
            m,
            si as int,
            i,
        )).len() <= usize::MAX by {
            assert(m.songs[si as int].tracks[i] == song.tracks@[i].model());
            assert(song.tracks@[i].len() <= usize::MAX);
        }
        proof {
            lemma_after_wrap(m, p);
        }
        self.wrap();
        self.count_gates();
        let ghost q = self.play_state();
        let n: usize = self.tracks.len();
        let mut ti: usize = 0;
        while ti < n
            invariant
                ti <= n,
                n == q.tracks.len(),
                q.wf(m),
                q.song == Some(si),
                n == m.songs[si as int].tracks.len(),
                self.pack == old(self).pack,
                self.rate == old(self).rate,
                m == self.pack.model(),
                q.notes_on + event_count(m.songs[si as int].tracks, n as int) <= u64::MAX,
                forall|i: int|
                    0 <= i < q.tracks.len() ==> (#[trigger] events_of(m, si as int, i)).len()
                        <= usize::MAX,
                self.play_state() == after_tracks(m, q, ti as int),
            decreases n - ti,
        {
            proof {
                lemma_after_tracks(m, q, ti as int);
                lemma_event_count(m.songs[si as int].tracks, ti + 1, n as int);
                assert(event_count(m.songs[si as int].tracks, ti + 1) == event_count(
                    m.songs[si as int].tracks,
                    ti as int,
                ) + events_of(m, si as int, ti as int).len());
            }
            self.fire_track(ti);
            ti += 1;
        }
        proof {
            lemma_after_tracks(m, q, n as int);
        }
        self.tick += 1;
        assert(self.play_state() =~= after_tick(m, p));
    }

    /// Whether a tick can be taken: its notes and its number can be counted.
    pub fn can_tick(&self) -> (b: bool)
        requires
            self.wf(),
        ensures
            b == (self.song matches Some(si) ==> {
                let s = self.pack.model().songs[si as int];
                &&& self.stats.notes_on + event_count(s.tracks, s.tracks.len() as int) <= u64::MAX
                &&& after_wrap(self.pack.model(), self.play_state()).tick < u32::MAX
            }),
    {
        let si: usize = match self.song {
            Some(i) => i,
            None => return true,
        };
        let song = &self.pack.songs[si];
        let ghost s = self.pack.model().songs[si as int];
        assert(s == song.model());
        let mut total: u64 = self.stats.notes_on;
        let mut i: usize = 0;
        while i < song.tracks.len()
            invariant
                i <= song.tracks@.len(),
                self.song == Some(si),
                s == self.pack.model().songs[si as int],
                s == song.model(),
                total == self.stats.notes_on + event_count(s.tracks, i as int),
            decreases song.tracks.len() - i,
        {
            assert(s.tracks[i as int].len() == song.tracks@[i as int]@.len());
            let n: u64 = song.tracks[i].len() as u64;
            if n > u64::MAX - total {
                proof {
                    lemma_event_count(s.tracks, i + 1, s.tracks.len() as int);
                    assert(!(self.stats.notes_on + event_count(s.tracks, s.tracks.len() as int)
                        <= u64::MAX));
                }
                return false;
            }
            total += n;
            i += 1;
        }
        assert(s.tracks.len() == song.tracks@.len());
        let tick: u32 = match (song.loop_start, song.loop_end) {
            (Some(start), Some(end)) => if self.looping && self.tick >= end {
                start
            } else {
                self.tick
            },
            _ => self.tick,
        };
        tick < u32::MAX
    }

    /// The tempo at the current tick: microseconds per beat.
    pub fn tempo(&self) -> (us: u32)
        requires
            self.wf(),
            self.song is Some,
        ensures
            us == tempo_at(self.pack.songs@[self.song->0 as int].tempos@, self.tick as int),
    {
        let si: usize = self.song.unwrap();
        let tempos = &self.pack.songs[si].tempos;
        let mut us: u32 = DEFAULT_TEMPO;
        let mut i: usize = 0;
        while i < tempos.len() && tempos[i].0 <= self.tick
            invariant
                i <= tempos@.len(),
                tempo_upto(tempos@, i as int) == us,
                tempo_run(tempos@, 0, self.tick as int) == tempo_run(
                    tempos@,
                    i as int,
                    self.tick as int,
                ),
            decreases tempos.len() - i,
        {
            us = tempos[i].1;
            i += 1;
        }
        us
    }

    /// A channel's envelope after a frame: its next stage, and the end of the
    /// channel where that is the last.
    pub fn step_channel(&mut self, i: usize, ran_out: bool)
        requires
            i < old(self).channels@.len(),
            old(self).wf(),
        ensures
            final(self).wf(),
            final(self).pack == old(self).pack,
            final(self).rate == old(self).rate,
            final(self).play_state() == (Play {
                channels: old(self).channels@.update(
                    i as int,
                    after_envelope(old(self).channels@[i as int], ran_out),
                ),
                ..old(self).play_state()
            }),
    {
        let mut c = self.channels[i];
        c.phase_env = c.phase_env.next(ran_out);
        c.dead = c.dead || c.phase_env == EnvPhase::Dead;
        self.channels[i] = c;
    }

    /// A channel whose sample has come to its end goes with the frame.
    pub fn end_channel(&mut self, i: usize)
        requires
            i < old(self).channels@.len(),
            old(self).wf(),
        ensures
            final(self).wf(),
            final(self).pack == old(self).pack,
            final(self).rate == old(self).rate,
            final(self).play_state() == (Play {
                channels: old(self).channels@.update(
                    i as int,
                    Channel { dead: true, ..old(self).channels@[i as int] },
                ),
                ..old(self).play_state()
            }),
    {
        let mut c = self.channels[i];
        c.dead = true;
        self.channels[i] = c;
    }

    /// The end of a frame.
    pub fn end_frame(&mut self)
        requires
            old(self).wf(),
            old(self).frame < u64::MAX,
        ensures
            final(self).wf(),
            final(self).pack == old(self).pack,
            final(self).rate == old(self).rate,
            final(self).play_state() == after_frame(old(self).play_state()),
    {
        let ghost p = self.play_state();
        let mut left: Vec<Channel> = Vec::new();
        let mut i: usize = 0;
        while i < self.channels.len()
            invariant
                i <= self.channels@.len(),
                left@ == living(self.channels@, i as int),
            decreases self.channels.len() - i,
        {
            if !self.channels[i].dead {
                left.push(self.channels[i]);
            }
            i += 1;
        }
        proof {
            lemma_living(self.channels@, self.channels@.len() as int);
        }
        self.channels = left;
        let mut all_done = true;
        let mut k: usize = 0;
        while k < self.tracks.len()
            invariant
                k <= self.tracks@.len(),
                all_done == (forall|j: int| 0 <= j < k ==> (#[trigger] self.tracks@[j]).done),
            decreases self.tracks.len() - k,
        {
            if !self.tracks[k].done {
                all_done = false;
            }
            k += 1;
        }
        if !self.looping && all_done && self.channels.len() == 0 {
            self.song = None;
        }
        self.frame += 1;
        assert(self.play_state() =~= after_frame(p));
        assert forall|j: int| 0 <= j < self.channels@.len() implies p.channels.contains(
            #[trigger] self.channels@[j],
        ) by {
        }
    }
}

/// The tempo after the first `n` entries.
pub open spec fn tempo_upto(tempos: Seq<(u32, u32)>, n: int) -> u32 {
    if n <= 0 {
        DEFAULT_TEMPO
    } else {
        tempos[n - 1].1
    }
}

/// The end of the run of entries, from `i` on, that have begun at `tick`.
pub open spec fn tempo_run(tempos: Seq<(u32, u32)>, i: int, tick: int) -> int
    decreases tempos.len() - i,
{
    if i >= tempos.len() || tempos[i].0 > tick {
        i
    } else {
        tempo_run(tempos, i + 1, tick)
    }
}

/// The tempo at a tick: that of the last entry of the leading run that has
/// begun, or the default before the first.
pub open spec fn tempo_at(tempos: Seq<(u32, u32)>, tick: int) -> u32 {
    tempo_upto(tempos, tempo_run(tempos, 0, tick))
}

} // verus!
