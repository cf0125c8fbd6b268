//! What the verification harness decides: which dropped notes the data
//! explains, which tracks stayed silent, and whether a song passes.

use vstd::prelude::*;
use crate::codec::Wire;
use crate::audio::data::{Event, EventKind, MusicModel, MusicPack, SongData, Voice};
use crate::audio::engine;
use crate::audio::engine::find_voice;
use crate::text;
use crate::text::{chars_of, starts_with, string_of};

verus! {

// ---- where a song lies ---------------------------------------------------

/// The file of a song: all effects share one.
pub open spec fn file_of(name: Seq<char>) -> Seq<char> {
    if text::has_prefix(name, "se_"@) {
        "sfx.bin"@
    } else {
        name + ".bin"@
    }
}

/// The file that a song is in.
pub fn pack_file(name: &str) -> (file: String)
    ensures
        file@ == file_of(name@),
{
    let mut path = chars_of(name);
    if starts_with(&path, "se_") {
        path = chars_of("sfx.bin");
    } else {
        text::append(&mut path, &chars_of(".bin"));
    }
    string_of(&path)
}

// ---- why a note was dropped ----------------------------------------------

/// Why a (program, key) cannot sound: a text where the score names something
/// outside the authored tables, nothing where no such reason is found.
pub open spec fn drop_reason(m: MusicModel, group: int, prog: int, key: u8) -> Option<Seq<char>> {
    if group >= m.voicegroups.len() {
        None
    } else {
        match engine::voice_at(m, group, prog) {
            None => Some("program outside the voicegroup"@),
            Some(Voice::Unsupported) => Some("unsupported voice kind (cry)"@),
            Some(Voice::Keysplit { group: sub, table }) => if table >= m.keysplits.len() {
                None
            } else {
                let idx = m.keysplits[table as int].map[(key % 128) as int];
                if idx == 0xFF {
                    Some("key outside the keysplit tables' ROM span"@)
                } else if sub >= m.voicegroups.len() {
                    None
                } else {
                    match engine::voice_at(m, sub as int, idx as int) {
                        None => Some("keysplit index outside the sub-voicegroup"@),
                        Some(Voice::Unsupported) => Some(
                            "keysplit resolves to unsupported voice"@,
                        ),
                        Some(Voice::Keysplit { .. }) => Some("nested keysplit (engine forbids)"@),
                        Some(Voice::KeysplitAll { .. }) => Some(
                            "nested keysplit (engine forbids)"@,
                        ),
                        Some(_) => None,
                    }
                }
            },
            Some(Voice::KeysplitAll { group: sub }) => if sub >= m.voicegroups.len() {
                None
            } else {
                match engine::voice_at(m, sub as int, key as int) {
                    None => Some("drum key outside the drumset's range"@),
                    Some(Voice::Unsupported) => Some("drum key is an unsupported voice"@),
                    Some(Voice::Keysplit { .. }) => Some("nested keysplit (engine forbids)"@),
                    Some(Voice::KeysplitAll { .. }) => Some("nested keysplit (engine forbids)"@),
                    Some(_) => None,
                }
            },
            Some(_) => None,
        }
    }
}

/// Why a (program, key) cannot sound. `None` = no benign explanation.
pub fn classify_drop(pack: &MusicPack, group: u16, prog: u8, key: u8) -> (r: Option<&'static str>)
    ensures
        match drop_reason(pack.model(), group as int, prog as int, key) {
            Some(text) => r matches Some(s) && s@ == text,
            None => r is None,
        },
{
    if group as usize >= pack.voicegroups.len() {
        return None;
    }
    match find_voice(pack, group, prog as u16) {
        None => Some("program outside the voicegroup"),
        Some(Voice::Unsupported) => Some("unsupported voice kind (cry)"),
        Some(Voice::Keysplit { group: sub, table }) => {
            let t: usize = table as usize;
            if t >= pack.keysplits.len() {
                return None;
            }
            assert(pack.model().keysplits[t as int] == pack.keysplits@[t as int].model());
            let idx: u8 = pack.keysplits[t].map[(key % 128) as usize];
            if idx == 0xFF {
                return Some("key outside the keysplit tables' ROM span");
            }
            if sub as usize >= pack.voicegroups.len() {
                return None;
            }
            match find_voice(pack, sub, idx as u16) {
                None => Some("keysplit index outside the sub-voicegroup"),
                Some(Voice::Unsupported) => Some("keysplit resolves to unsupported voice"),
                Some(Voice::Keysplit { .. }) => Some("nested keysplit (engine forbids)"),
                Some(Voice::KeysplitAll { .. }) => Some("nested keysplit (engine forbids)"),
                Some(_) => None,
            }
        },
        Some(Voice::KeysplitAll { group: sub }) => {
            if sub as usize >= pack.voicegroups.len() {
                return None;
            }
            match find_voice(pack, sub, key as u16) {
                None => Some("drum key outside the drumset's range"),
                Some(Voice::Unsupported) => Some("drum key is an unsupported voice"),
                Some(Voice::Keysplit { .. }) => Some("nested keysplit (engine forbids)"),
                Some(Voice::KeysplitAll { .. }) => Some("nested keysplit (engine forbids)"),
                Some(_) => None,
            }
        },
        Some(_) => None,
    }
}

/// A note that has a reason not to sound resolves to nothing, and one that
/// resolves to nothing has a reason, wherever the numbers on its way name
/// something in the pack.
pub proof fn drops_are_explained(m: MusicModel, group: int, prog: int, key: u8)
    requires
        0 <= group < m.voicegroups.len(),
    ensures
        drop_reason(m, group, prog, key) is Some ==> engine::resolved(m, group, prog, key) is None,
        engine::resolved(m, group, prog, key) is None && match engine::voice_at(m, group, prog) {
            Some(Voice::Keysplit { group: sub, table }) => table < m.keysplits.len() && sub
                < m.voicegroups.len(),
            Some(Voice::KeysplitAll { group: sub }) => sub < m.voicegroups.len(),
            _ => true,
        } ==> drop_reason(m, group, prog, key) is Some,
{
}

// ---- the shape of a score ------------------------------------------------

pub open spec fn is_note(e: Event) -> bool {
    e.kind is Note
}

/// How many notes stand among the first `n` events.
pub open spec fn notes_among(evs: Seq<Event>, n: int) -> int
    decreases n,
{
    if n <= 0 {
        0
    } else {
        notes_among(evs, n - 1) + if is_note(evs[n - 1]) {
            1int
        } else {
            0
        }
    }
}

/// How many notes the first `n` tracks hold.
pub open spec fn notes_in(tracks: Seq<Seq<Event>>, n: int) -> int
    decreases n,
{
    if n <= 0 {
        0
    } else {
        notes_in(tracks, n - 1) + notes_among(tracks[n - 1], tracks[n - 1].len() as int)
    }
}

proof fn lemma_notes_among(evs: Seq<Event>, n: int)
    requires
        0 <= n,
    ensures
        0 <= notes_among(evs, n) <= n,
    decreases n,
{
    if n > 0 {
        lemma_notes_among(evs, n - 1);
    }
}

proof fn lemma_notes_in(tracks: Seq<Seq<Event>>, a: int, b: int)
    requires
        0 <= a <= b,
    ensures
        0 <= notes_in(tracks, a) <= notes_in(tracks, b),
    decreases b,
{
    if b > 0 {
        lemma_notes_among(tracks[b - 1], tracks[b - 1].len() as int);
        if a < b {
            lemma_notes_in(tracks, a, b - 1);
        } else {
            lemma_notes_in(tracks, a - 1, b - 1);
        }
    }
}

/// How many notes a song holds.
pub fn count_notes(song: &SongData) -> (n: u64)
    requires
        notes_in(song.model().tracks, song.tracks@.len() as int) <= u64::MAX,
    ensures
        n == notes_in(song.model().tracks, song.tracks@.len() as int),
{
    let ghost ms = song.model().tracks;
    let mut total: u64 = 0;
    let mut ti: usize = 0;
    while ti < song.tracks.len()
        invariant
            ti <= song.tracks@.len(),
            ms == song.model().tracks,
            notes_in(ms, song.tracks@.len() as int) <= u64::MAX,
            total == notes_in(ms, ti as int),
        decreases song.tracks.len() - ti,
    {
        let track = &song.tracks[ti];
        assert(ms[ti as int] =~= track@);
        let mut i: usize = 0;
        proof {
            lemma_notes_in(ms, ti + 1, song.tracks@.len() as int);
        }
        while i < track.len()
            invariant
                i <= track@.len(),
                total == notes_in(ms, ti as int) + notes_among(track@, i as int),
                notes_in(ms, ti as int) + notes_among(track@, track@.len() as int) <= u64::MAX,
            decreases track.len() - i,
        {
            proof {
                lemma_notes_rest(track@, i + 1, track@.len() as int);
            }
            match track[i].kind {
                EventKind::Note { .. } => {
                    total += 1;
                },
                _ => {},
            }
            i += 1;
        }
        ti += 1;
    }
    total
}

proof fn lemma_notes_rest(evs: Seq<Event>, a: int, b: int)
    requires
        0 <= a <= b,
    ensures
        notes_among(evs, a) <= notes_among(evs, b),
    decreases b,
{
    if a < b {
        lemma_notes_rest(evs, a, b - 1);
    }
}

/// The last tick of any event among the first `n` tracks, 0 where there is
/// none.
pub open spec fn last_tick(tracks: Seq<Seq<Event>>, t: int) -> bool {
    &&& forall|i: int, k: int|
        #![trigger tracks[i][k]]
        0 <= i < tracks.len() && 0 <= k < tracks[i].len() ==> tracks[i][k].tick <= t
    &&& t == 0 || exists|i: int, k: int|
        #![trigger tracks[i][k]]
        0 <= i < tracks.len() && 0 <= k < tracks[i].len() && tracks[i][k].tick == t
}

/// The tick at which one pass of a song ends: its loop end, or its last
/// event; at least 1.
pub fn end_tick(song: &SongData) -> (t: u32)
    ensures
        t >= 1,
        match song.loop_end {
            Some(e) => t == if e == 0 {
                1
            } else {
                e
            },
            None => exists|last: int| #[trigger] last_tick(song.model().tracks, last) && t == (if last
                == 0 {
                1
            } else {
                last
            }),
        },
{
    if let Some(e) = song.loop_end {
        return if e == 0 { 1 } else { e };
    }
    let ghost ms = song.model().tracks;
    let mut last: u32 = 0;
    let mut ti: usize = 0;
    while ti < song.tracks.len()
        invariant
            ti <= song.tracks@.len(),
            ms == song.model().tracks,
            forall|i: int, k: int|
                #![trigger ms[i][k]]
                0 <= i < ti && 0 <= k < ms[i].len() ==> ms[i][k].tick <= last,
            last == 0 || exists|i: int, k: int|
                #![trigger ms[i][k]]
                0 <= i < ms.len() && 0 <= k < ms[i].len() && ms[i][k].tick == last,
        decreases song.tracks.len() - ti,
    {
        let track = &song.tracks[ti];
        assert(ms[ti as int] =~= track@);
        let mut j: usize = 0;
        while j < track.len()
            invariant
                j <= track@.len(),
                ti < ms.len(),
                ms[ti as int] == track@,
                forall|i: int, k: int|
                    #![trigger ms[i][k]]
                    0 <= i < ti && 0 <= k < ms[i].len() ==> ms[i][k].tick <= last,
                forall|k: int| 0 <= k < j ==> (#[trigger] track@[k]).tick <= last,
                last == 0 || exists|i: int, k: int|
                    #![trigger ms[i][k]]
                    0 <= i < ms.len() && 0 <= k < ms[i].len() && ms[i][k].tick == last,
            decreases track.len() - j,
        {
            let t: u32 = track[j].tick;
            if t > last {
                last = t;
                assert(ms[ti as int][j as int].tick == last);
            }
            j += 1;
        }
        ti += 1;
    }
    assert(last_tick(ms, last as int));
    if last == 0 {
        1
    } else {
        last
    }
}

/// The stretches of constant tempo up to `tick`: how many ticks each has and
/// how many microseconds its beat lasts.
pub open spec fn spans(tempos: Seq<(u32, u32)>, i: int, at: int, us: u32, tick: int) -> Seq<
    (int, u32),
>
    decreases tempos.len() - i,
{
    if i >= tempos.len() || tempos[i].0 >= tick {
        seq![(tick - at, us)]
    } else {
        seq![(tempos[i].0 - at, us)] + spans(tempos, i + 1, tempos[i].0 as int, tempos[i].1, tick)
    }
}

/// Whether tempo changes come in the order of their ticks.
pub open spec fn in_order(tempos: Seq<(u32, u32)>) -> bool {
    forall|i: int, j: int|
        0 <= i <= j < tempos.len() ==> (#[trigger] tempos[i]).0 <= (#[trigger] tempos[j]).0
}

pub fn tempos_in_order(tempos: &Vec<(u32, u32)>) -> (b: bool)
    ensures
        b == in_order(tempos@),
{
    let mut i: usize = 1;
    while i < tempos.len()
        invariant
            1 <= i,
            i <= tempos@.len() || tempos@.len() == 0,
            forall|a: int, b: int|
                0 <= a <= b < i && b < tempos@.len() ==> (#[trigger] tempos@[a]).0 <= (
                #[trigger] tempos@[b]).0,
        decreases tempos.len() - i,
    {
        if tempos[i - 1].0 > tempos[i].0 {
            assert(tempos@[i - 1].0 > tempos@[i as int].0);
            return false;
        }
        i += 1;
    }
    true
}

/// The stretches of constant tempo of a song, up to `tick`.
pub fn tempo_spans(tempos: &Vec<(u32, u32)>, tick: u32) -> (out: Vec<(u32, u32)>)
    requires
        in_order(tempos@),
    ensures
        out@.len() == spans(tempos@, 0, 0, engine::DEFAULT_TEMPO, tick as int).len(),
        forall|k: int|
            0 <= k < out@.len() ==> ({
                let s = spans(tempos@, 0, 0, engine::DEFAULT_TEMPO, tick as int)[k];
                (#[trigger] out@[k]).0 == s.0 && out@[k].1 == s.1
            }),
{
    let ghost all = spans(tempos@, 0, 0, engine::DEFAULT_TEMPO, tick as int);
    let mut out: Vec<(u32, u32)> = Vec::new();
    let mut at: u32 = 0;
    let mut us: u32 = engine::DEFAULT_TEMPO;
    let mut i: usize = 0;
    assert(all =~= Seq::<(int, u32)>::empty() + all);
    let ghost mut done: Seq<(int, u32)> = seq![];
    while i < tempos.len() && tempos[i].0 < tick
        invariant
            i <= tempos@.len(),
            in_order(tempos@),
            at <= tick,
            i < tempos@.len() ==> at <= tempos@[i as int].0,
            all == done + spans(tempos@, i as int, at as int, us, tick as int),
            out@.len() == done.len(),
            forall|k: int|
                0 <= k < done.len() ==> (#[trigger] out@[k]).0 == done[k].0 && out@[k].1
                    == done[k].1,
        decreases tempos.len() - i,
    {
        let (t, u): (u32, u32) = tempos[i];
        proof {
            let rest = spans(tempos@, i + 1, t as int, u, tick as int);
            assert(done + (seq![(t - at, us)] + rest) =~= done.push((t - at, us)) + rest);
            done = done.push((t - at, us));
        }
        out.push((t - at, us));
        at = t;
        us = u;
        i += 1;
    }
    out.push((tick - at, us));
    assert(all =~= done.push((tick - at, us)));
    out
}

// ---- the verdict ---------------------------------------------------------

/// A track that started an audible note and still gave no output.
pub fn silent_tracks(audible: &Vec<bool>, sounded: &Vec<bool>) -> (out: Vec<usize>)
    requires
        audible@.len() == sounded@.len(),
    ensures
        forall|i: int, j: int|
            0 <= i < j < out@.len() ==> (#[trigger] out@[i]) < (#[trigger] out@[j]),
        forall|t: usize|
            out@.contains(t) <==> t < audible@.len() && audible@[t as int] && !sounded@[t as int],
{
    let mut out: Vec<usize> = Vec::new();
    let mut t: usize = 0;
    while t < audible.len()
        invariant
            t <= audible@.len(),
            audible@.len() == sounded@.len(),
            forall|i: int, j: int|
                0 <= i < j < out@.len() ==> (#[trigger] out@[i]) < (#[trigger] out@[j]),
            forall|i: int| 0 <= i < out@.len() ==> (#[trigger] out@[i]) < t,
            forall|x: usize|
                out@.contains(x) <==> x < t && audible@[x as int] && !sounded@[x as int],
        decreases audible.len() - t,
    {
        let ghost had = out@;
        if audible[t] && !sounded[t] {
            out.push(t);
            assert forall|x: usize|
                out@.contains(x) <==> x < t + 1 && audible@[x as int] && !sounded@[x as int] by {
                if had.contains(x) {
                    let k = choose|k: int| 0 <= k < had.len() && had[k] == x;
                    assert(out@[k] == x);
                }
                assert(out@[had.len() as int] == t);
                if out@.contains(x) && x != t {
                    let k = choose|k: int| 0 <= k < out@.len() && out@[k] == x;
                    assert(had[k] == x);
                }
            }
        }
        t += 1;
    }
    out
}

/// A note that was dropped: track, program, key.
pub type Dropped = (usize, u8, u8);

/// The order of dropped notes: by track, then program, then key.
pub open spec fn earlier(a: Dropped, b: Dropped) -> bool {
    a.0 < b.0 || (a.0 == b.0 && (a.1 < b.1 || (a.1 == b.1 && a.2 < b.2)))
}

pub open spec fn ascending(s: Seq<Dropped>) -> bool {
    forall|i: int, j: int| 0 <= i < j < s.len() ==> #[trigger] earlier(s[i], s[j])
}

fn comes_before(a: Dropped, b: Dropped) -> (r: bool)
    ensures
        r == earlier(a, b),
{
    a.0 < b.0 || (a.0 == b.0 && (a.1 < b.1 || (a.1 == b.1 && a.2 < b.2)))
}

/// Put a dropped note in its place, once.
fn insert_drop(v: &mut Vec<Dropped>, d: Dropped)
    requires
        ascending(old(v)@),
    ensures
        ascending(final(v)@),
        forall|x: Dropped| #[trigger] final(v)@.contains(x) <==> x == d || old(v)@.contains(x),
{
    let ghost s = v@;
    let mut i: usize = 0;
    while i < v.len() && comes_before(v[i], d)
        invariant
            i <= v@.len(),
            v@ == s,
            ascending(s),
            forall|k: int| 0 <= k < i ==> #[trigger] earlier(s[k], d),
        decreases v.len() - i,
    {
        i += 1;
    }
    if i < v.len() && v[i].0 == d.0 && v[i].1 == d.1 && v[i].2 == d.2 {
        assert(s[i as int] == d);
        return;
    }
    v.insert(i, d);
    assert(v@ =~= s.insert(i as int, d));
    assert forall|a: int, b: int| 0 <= a < b < v@.len() implies #[trigger] earlier(
        v@[a],
        v@[b],
    ) by {
        if i < s.len() {
            assert(earlier(d, s[i as int]));
        }
        if a < i && b > i {
            assert(earlier(s[a], s[b - 1]));
        } else if a < i && b < i {
            assert(earlier(s[a], s[b]));
        } else if a > i {
            assert(earlier(s[a - 1], s[b - 1]));
        } else if a == i {
            if b - 1 > i {
                assert(earlier(s[i as int], s[b - 1]));
            }
        } else {
            assert(earlier(s[a], d));
        }
    }
    assert forall|x: Dropped| #[trigger] v@.contains(x) <==> x == d || s.contains(x) by {
        assert(v@[i as int] == d);
        if s.contains(x) {
            let k = choose|k: int| 0 <= k < s.len() && s[k] == x;
            if k < i {
                assert(v@[k] == x);
            } else {
                assert(v@[k + 1] == x);
            }
        }
        if v@.contains(x) && x != d {
            let k = choose|k: int| 0 <= k < v@.len() && v@[k] == x;
            if k < i {
                assert(s[k] == x);
            } else {
                assert(s[k - 1] == x);
            }
        }
    }
}

pub open spec fn explained(m: MusicModel, group: int, d: Dropped) -> bool {
    drop_reason(m, group, d.1 as int, d.2) is Some
}

/// The dropped notes without an explanation, then those with one, each in
/// order and once.
pub fn sort_drops(pack: &MusicPack, group: u16, dropped: &Vec<Dropped>) -> (r: (
    Vec<Dropped>,
    Vec<Dropped>,
))
    ensures
        ascending(r.0@),
        ascending(r.1@),
        forall|d: Dropped|
            r.0@.contains(d) <==> dropped@.contains(d) && !explained(
                pack.model(),
                group as int,
                d,
            ),
        forall|d: Dropped|
            r.1@.contains(d) <==> dropped@.contains(d) && explained(pack.model(), group as int, d),
{
    let ghost m = pack.model();
    let mut bugs: Vec<Dropped> = Vec::new();
    let mut quirks: Vec<Dropped> = Vec::new();
    let mut i: usize = 0;
    while i < dropped.len()
        invariant
            i <= dropped@.len(),
            m == pack.model(),
            ascending(bugs@),
            ascending(quirks@),
            forall|d: Dropped|
                bugs@.contains(d) <==> dropped@.take(i as int).contains(d) && !explained(
                    m,
                    group as int,
                    d,
                ),
            forall|d: Dropped|
                quirks@.contains(d) <==> dropped@.take(i as int).contains(d) && explained(
                    m,
                    group as int,
                    d,
                ),
        decreases dropped.len() - i,
    {
        let d = dropped[i];
        let (ti, prog, key): (usize, u8, u8) = d;
        match classify_drop(pack, group, prog, key) {
            Some(_) => insert_drop(&mut quirks, d),
            None => insert_drop(&mut bugs, d),
        }
        assert forall|x: Dropped| #[trigger]
            dropped@.take(i + 1).contains(x) <==> x == d || dropped@.take(i as int).contains(
                x,
            ) by {
            let a = dropped@.take(i as int);
            let b = dropped@.take(i + 1);
            assert(b =~= a.push(d));
            assert(b[i as int] == d);
            if a.contains(x) {
                let k = choose|k: int| 0 <= k < a.len() && a[k] == x;
                assert(b[k] == x);
            }
            if b.contains(x) && x != d {
                let k = choose|k: int| 0 <= k < b.len() && b[k] == x;
                assert(a[k] == x);
            }
        }
        i += 1;
    }
    assert(dropped@.take(dropped@.len() as int) =~= dropped@);
    (bugs, quirks)
}

/// Whether a song passes: it played something, every dropped note is
/// explained and no track is wrongly silent.
pub fn passes(bugs: &Vec<Dropped>, silent: &Vec<usize>, notes_on: u64) -> (b: bool)
    ensures
        b == (bugs@.len() == 0 && silent@.len() == 0 && notes_on > 0),
{
    bugs.len() == 0 && silent.len() == 0 && notes_on > 0
}

// ---- what a song plays ---------------------------------------------------

/// The program of a track after its first `n` events.
pub open spec fn program_after(evs: Seq<Event>, n: int) -> u8
    decreases n,
{
    if n <= 0 {
        0
    } else {
        match evs[n - 1].kind {
            EventKind::Program(p) => p,
            _ => program_after(evs, n - 1),
        }
    }
}

/// Whether some note of some track plays under program `p`.
pub open spec fn plays_program(tracks: Seq<Seq<Event>>, p: u8) -> bool {
    exists|i: int, k: int|
        #![trigger tracks[i][k]]
        0 <= i < tracks.len() && 0 <= k < tracks[i].len() && is_note(tracks[i][k])
            && program_after(tracks[i], k) == p
}

/// The programs under which a song plays notes, in order.
pub fn programs_used(song: &SongData) -> (out: Vec<u8>)
    ensures
        forall|i: int, j: int|
            0 <= i < j < out@.len() ==> (#[trigger] out@[i]) < (#[trigger] out@[j]),
        forall|p: u8| out@.contains(p) <==> plays_program(song.model().tracks, p),
{
    let ghost ms = song.model().tracks;
    let mut flags = [false; 256];
    let mut ti: usize = 0;
    while ti < song.tracks.len()
        invariant
            ti <= song.tracks@.len(),
            ms == song.model().tracks,
            forall|p: int|
                0 <= p < 256 ==> (#[trigger] flags[p] <==> plays_program(
                    ms.take(ti as int),
                    p as u8,
                )),
        decreases song.tracks.len() - ti,
    {
        let track = &song.tracks[ti];
        assert(ms[ti as int] =~= track@);
        let mut prog: u8 = 0;
        let mut k: usize = 0;
        let ghost before = ms.take(ti as int);
        let ghost upto = ms.take(ti + 1);
        while k < track.len()
            invariant
                k <= track@.len(),
                prog == program_after(track@, k as int),
                forall|p: int|
                    0 <= p < 256 ==> (#[trigger] flags[p] <==> plays_program(before, p as u8)
                        || exists|j: int|
                        #![trigger track@[j]]
                        0 <= j < k && is_note(track@[j]) && program_after(track@, j) == p),
            decreases track.len() - k,
        {
            let ghost had = flags;
            match track[k].kind {
                EventKind::Program(p) => {
                    prog = p;
                },
                EventKind::Note { .. } => {
                    flags[prog as usize] = true;
                    assert(is_note(track@[k as int]));
                },
                _ => {},
            }
            assert forall|p: int| 0 <= p < 256 implies (#[trigger] flags[p] <==> plays_program(
                before,
                p as u8,
            ) || exists|j: int|
                #![trigger track@[j]]
                0 <= j < k + 1 && is_note(track@[j]) && program_after(track@, j) == p) by {
                assert(had[p] ==> flags[p]);
            }
            k += 1;
        }
        assert forall|p: int| 0 <= p < 256 implies (#[trigger] flags[p] <==> plays_program(
            upto,
            p as u8,
        )) by {
            if plays_program(before, p as u8) {
                let (a, b) = choose|a: int, b: int|
                    #![trigger before[a][b]]
                    0 <= a < before.len() && 0 <= b < before[a].len() && is_note(before[a][b])
                        && program_after(before[a], b) == p as u8;
                assert(upto[a][b] == before[a][b]);
            }
            if plays_program(upto, p as u8) {
                let (a, b) = choose|a: int, b: int|
                    #![trigger upto[a][b]]
                    0 <= a < upto.len() && 0 <= b < upto[a].len() && is_note(upto[a][b])
                        && program_after(upto[a], b) == p as u8;
                if a < ti {
                    assert(before[a][b] == upto[a][b]);
                } else {
                    assert(track@[b] == upto[a][b]);
                }
            }
            if exists|j: int|
                #![trigger track@[j]]
                0 <= j < track@.len() && is_note(track@[j]) && program_after(track@, j) == p {
                let j = choose|j: int|
                    #![trigger track@[j]]
                    0 <= j < track@.len() && is_note(track@[j]) && program_after(track@, j) == p;
                assert(upto[ti as int][j] == track@[j]);
            }
        }
        ti += 1;
    }
    assert(ms.take(ms.len() as int) =~= ms);
    let mut out: Vec<u8> = Vec::new();
    let mut p: usize = 0;
    while p < 256
        invariant
            p <= 256,
            forall|i: int, j: int|
                0 <= i < j < out@.len() ==> (#[trigger] out@[i]) < (#[trigger] out@[j]),
            forall|i: int| 0 <= i < out@.len() ==> (#[trigger] out@[i]) < p,
            forall|x: u8| out@.contains(x) <==> x < p && flags[x as int],
        decreases 256 - p,
    {
        let ghost had = out@;
        if flags[p] {
            out.push(p as u8);
            assert forall|x: u8| out@.contains(x) <==> x < p + 1 && flags[x as int] by {
                if had.contains(x) {
                    let k = choose|k: int| 0 <= k < had.len() && had[k] == x;
                    assert(out@[k] == x);
                }
                assert(out@[had.len() as int] == p);
                if out@.contains(x) && x != p {
                    let k = choose|k: int| 0 <= k < out@.len() && out@[k] == x;
                    assert(had[k] == x);
                }
            }
        }
        p += 1;
    }
    out
}

} // verus!
