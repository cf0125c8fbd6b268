//! Cutting a music pack down to some of its songs and what they can reach:
//! the voicegroups (through keysplits and drumsets) and the samples, waves and
//! keysplit tables that those refer to, renumbered. This is how one song at a
//! time is streamed instead of the whole bank.

use vstd::prelude::*;
use crate::codec;
use crate::codec::Wire;
use crate::audio::data;
use crate::audio::data::{
    Event, GroupModel, KeysplitTable, MusicModel, MusicPack, SampleData, SongData, SongModel, Voice,
    VoiceGroup,
};

verus! {

// ---- what is reached -----------------------------------------------------

/// The group that a voice hands its notes on to.
pub open spec fn next_group(v: Voice) -> Option<int> {
    match v {
        Voice::Keysplit { group, table } => Some(group as int),
        Voice::KeysplitAll { group } => Some(group as int),
        _ => None,
    }
}

/// Whether some voice of group `a` hands on to group `b`.
pub open spec fn leads(m: MusicModel, a: int, b: int) -> bool {
    0 <= a < m.voicegroups.len() && exists|k: int|
        0 <= k < m.voicegroups[a].entries.len() && #[trigger] next_group(
            m.voicegroups[a].entries[k],
        ) == Some(b)
}

/// A chain of groups that begins at the group of one of the songs.
pub open spec fn is_chain(m: MusicModel, songs: Seq<usize>, path: Seq<int>) -> bool {
    &&& path.len() > 0
    &&& exists|k: int|
        0 <= k < songs.len() && #[trigger] m.songs[songs[k] as int].voicegroup == path[0]
    &&& forall|i: int| 0 <= i < path.len() - 1 ==> leads(m, #[trigger] path[i], path[i + 1])
}

/// Whether one of the songs can play a voice of group `g`.
pub open spec fn reaches(m: MusicModel, songs: Seq<usize>, g: int) -> bool {
    exists|path: Seq<int>| #[trigger] is_chain(m, songs, path) && path.last() == g
}

pub open spec fn group_flags(m: MusicModel, songs: Seq<usize>) -> Seq<bool> {
    Seq::new(m.voicegroups.len(), |g: int| reaches(m, songs, g))
}

/// Whether some voice of a group that is kept meets `f`.
pub open spec fn some_voice(m: MusicModel, groups: Seq<bool>, f: spec_fn(Voice) -> bool) -> bool {
    exists|g: int, k: int|
        #![trigger m.voicegroups[g].entries[k]]
        0 <= g < m.voicegroups.len() && groups[g] && 0 <= k < m.voicegroups[g].entries.len() && f(
            m.voicegroups[g].entries[k],
        )
}

pub open spec fn plays_sample(v: Voice, i: int) -> bool {
    v matches Voice::DirectSound { sample, .. } && sample == i
}

pub open spec fn plays_wave(v: Voice, i: int) -> bool {
    v matches Voice::Wave { wave, .. } && wave == i
}

pub open spec fn looks_up(v: Voice, i: int) -> bool {
    v matches Voice::Keysplit { table, .. } && table == i
}

pub open spec fn sample_flags(m: MusicModel, groups: Seq<bool>) -> Seq<bool> {
    Seq::new(m.samples.len(), |i: int| some_voice(m, groups, |v: Voice| plays_sample(v, i)))
}

pub open spec fn wave_flags(m: MusicModel, groups: Seq<bool>) -> Seq<bool> {
    Seq::new(m.waves.len(), |i: int| some_voice(m, groups, |v: Voice| plays_wave(v, i)))
}

pub open spec fn table_flags(m: MusicModel, groups: Seq<bool>) -> Seq<bool> {
    Seq::new(m.keysplits.len(), |i: int| some_voice(m, groups, |v: Voice| looks_up(v, i)))
}

// ---- keeping and renumbering ---------------------------------------------

/// How many of the first `i` flags are set: the new number of item `i`.
pub open spec fn rank(used: Seq<bool>, i: int) -> nat
    decreases i,
{
    if i <= 0 {
        0
    } else if used[i - 1] {
        rank(used, i - 1) + 1
    } else {
        rank(used, i - 1)
    }
}

/// The flagged items among the first `n`, in their order.
pub open spec fn kept_first<T>(s: Seq<T>, used: Seq<bool>, n: int) -> Seq<T>
    decreases n,
{
    if n <= 0 {
        seq![]
    } else if used[n - 1] {
        kept_first(s, used, n - 1).push(s[n - 1])
    } else {
        kept_first(s, used, n - 1)
    }
}

/// The flagged items, in their order.
pub open spec fn kept<T>(s: Seq<T>, used: Seq<bool>) -> Seq<T> {
    kept_first(s, used, s.len() as int)
}

/// A voice with the new numbers of what it refers to.
pub open spec fn renumbered(
    v: Voice,
    samples: Seq<bool>,
    waves: Seq<bool>,
    tables: Seq<bool>,
    groups: Seq<bool>,
) -> Voice {
    match v {
        Voice::DirectSound { base_key, pan, sample, adsr, fixed } => Voice::DirectSound {
            base_key,
            pan,
            sample: rank(samples, sample as int) as u16,
            adsr,
            fixed,
        },
        Voice::Wave { base_key, pan, wave, adsr } => Voice::Wave {
            base_key,
            pan,
            wave: rank(waves, wave as int) as u16,
            adsr,
        },
        Voice::Keysplit { group, table } => Voice::Keysplit {
            group: rank(groups, group as int) as u16,
            table: rank(tables, table as int) as u16,
        },
        Voice::KeysplitAll { group } => Voice::KeysplitAll {
            group: rank(groups, group as int) as u16,
        },
        other => other,
    }
}

/// A group whose voices have the new numbers.
pub open spec fn renumbered_group(m: MusicModel, groups: Seq<bool>, g: GroupModel) -> GroupModel {
    GroupModel {
        name: g.name,
        offset: g.offset,
        entries: Seq::new(
            g.entries.len(),
            |k: int|
                renumbered(
                    g.entries[k],
                    sample_flags(m, groups),
                    wave_flags(m, groups),
                    table_flags(m, groups),
                    groups,
                ),
        ),
    }
}

/// A song with the new number of its group.
pub open spec fn renumbered_song(groups: Seq<bool>, s: SongModel) -> SongModel {
    SongModel { voicegroup: rank(groups, s.voicegroup as int) as u16, ..s }
}

/// The pack that holds `songs` and what they reach.
pub open spec fn subset_of(m: MusicModel, songs: Seq<usize>) -> MusicModel {
    let groups = group_flags(m, songs);
    let kept_groups = kept(m.voicegroups, groups);
    MusicModel {
        samples: kept(m.samples, sample_flags(m, groups)),
        waves: kept(m.waves, wave_flags(m, groups)),
        keysplits: kept(m.keysplits, table_flags(m, groups)),
        voicegroups: Seq::new(
            kept_groups.len(),
            |i: int| renumbered_group(m, groups, kept_groups[i]),
        ),
        songs: Seq::new(
            songs.len(),
            |i: int| renumbered_song(groups, m.songs[songs[i] as int]),
        ),
    }
}

/// Whether every number in a voice names something in the pack.
pub open spec fn refers(m: MusicModel, v: Voice) -> bool {
    match v {
        Voice::DirectSound { sample, .. } => sample < m.samples.len(),
        Voice::Wave { wave, .. } => wave < m.waves.len(),
        Voice::Keysplit { group, table } => group < m.voicegroups.len() && table
            < m.keysplits.len(),
        Voice::KeysplitAll { group } => group < m.voicegroups.len(),
        _ => true,
    }
}

/// Whether every number that the songs can meet names something in the pack.
pub open spec fn sound(m: MusicModel, songs: Seq<usize>) -> bool {
    &&& forall|k: int| 0 <= k < songs.len() ==> (#[trigger] songs[k]) < m.songs.len()
    &&& forall|k: int|
        0 <= k < songs.len() ==> (#[trigger] m.songs[songs[k] as int].voicegroup)
            < m.voicegroups.len()
    &&& forall|g: int, k: int|
        #![trigger m.voicegroups[g].entries[k]]
        0 <= g < m.voicegroups.len() && reaches(m, songs, g) && 0 <= k
            < m.voicegroups[g].entries.len() ==> refers(m, m.voicegroups[g].entries[k])
}

/// Whether the new numbers fit in 16 bits.
pub open spec fn countable(m: MusicModel, songs: Seq<usize>) -> bool {
    let groups = group_flags(m, songs);
    &&& rank(groups, groups.len() as int) <= u16::MAX
    &&& rank(sample_flags(m, groups), m.samples.len() as int) <= u16::MAX
    &&& rank(wave_flags(m, groups), m.waves.len() as int) <= u16::MAX
    &&& rank(table_flags(m, groups), m.keysplits.len() as int) <= u16::MAX
}

// ---- facts about keeping -------------------------------------------------

pub proof fn lemma_rank_step(used: Seq<bool>, i: int, n: int)
    requires
        0 <= i < n,
        used[i],
    ensures
        rank(used, i) < rank(used, n),
    decreases n,
{
    if i < n - 1 {
        lemma_rank_step(used, i, n - 1);
    }
}

/// A kept item stands at its new number, and nothing else is kept.
pub proof fn lemma_kept<T>(s: Seq<T>, used: Seq<bool>, n: int)
    requires
        0 <= n <= s.len(),
    ensures
        kept_first(s, used, n).len() == rank(used, n),
        forall|i: int|
            0 <= i < n && #[trigger] used[i] ==> kept_first(s, used, n)[rank(used, i) as int]
                == s[i],
    decreases n,
{
    if n > 0 {
        lemma_kept(s, used, n - 1);
        assert forall|i: int| 0 <= i < n && #[trigger] used[i] implies kept_first(s, used, n)[rank(
            used,
            i,
        ) as int] == s[i] by {
            if i < n - 1 {
                lemma_rank_step(used, i, n - 1);
            }
        }
    }
}

/// What a kept item was before.
pub proof fn lemma_kept_origin<T>(s: Seq<T>, used: Seq<bool>, n: int, j: int) -> (i: int)
    requires
        0 <= n <= s.len(),
        0 <= j < kept_first(s, used, n).len(),
    ensures
        0 <= i < n,
        used[i],
        rank(used, i) == j,
        s[i] == kept_first(s, used, n)[j],
    decreases n,
{
    if n > 0 {
        lemma_kept(s, used, n - 1);
    }
    if j < kept_first(s, used, n - 1).len() {
        lemma_kept_origin(s, used, n - 1, j)
    } else {
        n - 1
    }
}

// ---- facts about reaching ------------------------------------------------

pub proof fn lemma_reach_start(m: MusicModel, songs: Seq<usize>, k: int)
    requires
        0 <= k < songs.len(),
    ensures
        reaches(m, songs, m.songs[songs[k] as int].voicegroup as int),
{
    let path = seq![m.songs[songs[k] as int].voicegroup as int];
    assert(is_chain(m, songs, path));
}

proof fn lemma_reach_next(m: MusicModel, songs: Seq<usize>, a: int, b: int)
    requires
        reaches(m, songs, a),
        leads(m, a, b),
    ensures
        reaches(m, songs, b),
{
    let path = choose|path: Seq<int>| #[trigger] is_chain(m, songs, path) && path.last() == a;
    let longer = path.push(b);
    assert(longer[0] == path[0]);
    assert forall|i: int| 0 <= i < longer.len() - 1 implies leads(
        m,
        #[trigger] longer[i],
        longer[i + 1],
    ) by {
        if i < path.len() - 1 {
            assert(leads(m, path[i], path[i + 1]));
        }
    }
    assert(is_chain(m, songs, longer));
}

/// A set of groups that holds the songs' groups and is closed under `leads`
/// holds every group that is reached.
proof fn lemma_reach_closed(m: MusicModel, songs: Seq<usize>, used: Seq<bool>, path: Seq<int>)
    requires
        is_chain(m, songs, path),
        forall|k: int|
            0 <= k < songs.len() ==> used[#[trigger] m.songs[songs[k] as int].voicegroup as int],
        forall|a: int, b: int|
            0 <= a < used.len() && used[a] && #[trigger] leads(m, a, b) ==> used[b],
        used.len() == m.voicegroups.len(),
    ensures
        used[path.last()],
    decreases path.len(),
{
    if path.len() > 1 {
        let front = path.drop_last();
        assert(front[0] == path[0]);
        assert forall|i: int| 0 <= i < front.len() - 1 implies leads(
            m,
            #[trigger] front[i],
            front[i + 1],
        ) by {
            assert(leads(m, path[i], path[i + 1]));
        }
        lemma_reach_closed(m, songs, used, front);
        let i = path.len() - 2;
        assert(leads(m, path[i], path[i + 1]));
    }
}

// ---- copies --------------------------------------------------------------

impl Clone for SampleData {
    fn clone(&self) -> (r: SampleData)
        ensures
            r.model() == self.model(),
    {
        let r = SampleData {
            name: self.name.clone(),
            rate: self.rate,
            loop_start: self.loop_start,
            pcm: self.pcm.clone(),
        };
        assert(r.pcm@ =~= self.pcm@);
        r
    }
}

impl Clone for KeysplitTable {
    fn clone(&self) -> (r: KeysplitTable)
        ensures
            r.model() == self.model(),
    {
        KeysplitTable { name: self.name.clone(), map: self.map }
    }
}

impl Clone for VoiceGroup {
    fn clone(&self) -> (r: VoiceGroup)
        ensures
            r.model() == self.model(),
    {
        let entries = self.entries.clone();
        assert(entries@ =~= self.entries@);
        VoiceGroup { name: self.name.clone(), offset: self.offset, entries }
    }
}

impl Clone for SongData {
    fn clone(&self) -> (r: SongData)
        ensures
            r.model() == self.model(),
    {
        let mut tempos: Vec<(u32, u32)> = Vec::new();
        let mut n: usize = 0;
        while n < self.tempos.len()
            invariant
                n <= self.tempos.len(),
                tempos@ == self.tempos@.take(n as int),
            decreases self.tempos.len() - n,
        {
            tempos.push(self.tempos[n]);
            assert(self.tempos@.take(n + 1) =~= self.tempos@.take(n as int).push(
                self.tempos@[n as int],
            ));
            n += 1;
        }
        assert(tempos@ =~= self.tempos@);
        let mut tracks: Vec<Vec<Event>> = Vec::new();
        let mut i: usize = 0;
        while i < self.tracks.len()
            invariant
                i <= self.tracks.len(),
                tracks@.len() == i,
                forall|k: int| 0 <= k < i ==> tracks@[k]@ == self.tracks@[k]@,
            decreases self.tracks.len() - i,
        {
            let t = self.tracks[i].clone();
            assert(t@ =~= self.tracks@[i as int]@);
            tracks.push(t);
            i += 1;
        }
        assert(codec::models(tracks@) =~= codec::models(self.tracks@));
        SongData {
            name: self.name.clone(),
            voicegroup: self.voicegroup,
            master_volume: self.master_volume,
            reverb: self.reverb,
            division: self.division,
            tempos,
            loop_start: self.loop_start,
            loop_end: self.loop_end,
            tracks,
        }
    }
}

// ---- cutting -------------------------------------------------------------

/// How many flags are not set among the first `n`.
spec fn unset(used: Seq<bool>, n: int) -> nat
    decreases n,
{
    if n <= 0 {
        0
    } else if used[n - 1] {
        unset(used, n - 1)
    } else {
        unset(used, n - 1) + 1
    }
}

proof fn lemma_unset(used: Seq<bool>, g: int, n: int)
    requires
        0 <= g < used.len(),
        !used[g],
        n <= used.len(),
    ensures
        unset(used.update(g, true), n) == unset(used, n) - (if g < n {
            1int
        } else {
            0int
        }),
    decreases n,
{
    if n > 0 {
        lemma_unset(used, g, n - 1);
    }
}

/// The flags of the groups that the songs reach.
fn reached_groups(p: &MusicPack, songs: &[usize]) -> (used: Vec<bool>)
    requires
        sound(p.model(), songs@),
    ensures
        used@ == group_flags(p.model(), songs@),
{
    let ghost m = p.model();
    let mut used: Vec<bool> = vec![false; p.voicegroups.len()];
    let mut stack: Vec<usize> = Vec::new();
    let mut i: usize = 0;
    while i < songs.len()
        invariant
            i <= songs.len(),
            m == p.model(),
            sound(m, songs@),
            stack@.len() == i,
            forall|k: int| 0 <= k < stack@.len() ==> (#[trigger] stack@[k]) < m.voicegroups.len(),
            forall|k: int|
                0 <= k < stack@.len() ==> reaches(m, songs@, #[trigger] stack@[k] as int),
            forall|k: int|
                0 <= k < i ==> stack@[k] == #[trigger] m.songs[songs@[k] as int].voicegroup,
        decreases songs.len() - i,
    {
        let s: usize = songs[i];
        assert(songs@[i as int] < m.songs.len());
        assert(m.songs[s as int] == p.songs@[s as int].model());
        proof {
            lemma_reach_start(m, songs@, i as int);
        }
        stack.push(p.songs[s].voicegroup as usize);
        i += 1;
    }
    assert forall|k: int| 0 <= k < songs@.len() implies stack@.contains(
        #[trigger] m.songs[songs@[k] as int].voicegroup as usize,
    ) by {
        assert(stack@[k] == m.songs[songs@[k] as int].voicegroup);
    }
    while stack.len() > 0
        invariant
            m == p.model(),
            sound(m, songs@),
            used@.len() == m.voicegroups.len(),
            forall|k: int| 0 <= k < stack@.len() ==> (#[trigger] stack@[k]) < m.voicegroups.len(),
            forall|k: int|
                0 <= k < stack@.len() ==> reaches(m, songs@, #[trigger] stack@[k] as int),
            forall|g: int| 0 <= g < used@.len() && #[trigger] used@[g] ==> reaches(m, songs@, g),
            forall|k: int|
                0 <= k < songs@.len() ==> {
                    let g = #[trigger] m.songs[songs@[k] as int].voicegroup;
                    used@[g as int] || stack@.contains(g as usize)
                },
            forall|a: int, b: int|
                0 <= a < used@.len() && used@[a] && #[trigger] leads(m, a, b) ==> used@[b]
                    || stack@.contains(b as usize),
        decreases unset(used@, used@.len() as int), stack@.len(),
    {
        let ghost before = stack@;
        let ghost flags = used@;
        let g: usize = stack.pop().unwrap();
        let ghost rest = stack@;
        assert(before =~= rest.push(g));
        assert forall|x: usize| before.contains(x) implies x == g || rest.contains(x) by {
            let k = choose|k: int| 0 <= k < before.len() && before[k] == x;
            if k < rest.len() {
                assert(rest[k] == x);
            }
        }
        assert(before[before.len() - 1] == g);
        if used[g] {
            continue ;
        }
        used[g] = true;
        proof {
            lemma_unset(flags, g as int, flags.len() as int);
        }
        let entries = &p.voicegroups[g].entries;
        assert(m.voicegroups[g as int] == p.voicegroups@[g as int].model());
        assert(m.voicegroups[g as int].entries =~= entries@);
        let mut k: usize = 0;
        while k < entries.len()
            invariant
                k <= entries.len(),
                m == p.model(),
                sound(m, songs@),
                g < m.voicegroups.len(),
                m.voicegroups[g as int].entries == entries@,
                reaches(m, songs@, g as int),
                stack@.len() >= rest.len(),
                forall|j: int| 0 <= j < rest.len() ==> stack@[j] == rest[j],
                forall|j: int|
                    0 <= j < stack@.len() ==> (#[trigger] stack@[j]) < m.voicegroups.len(),
                forall|j: int|
                    0 <= j < stack@.len() ==> reaches(m, songs@, #[trigger] stack@[j] as int),
                forall|j: int|
                    0 <= j < k && (#[trigger] next_group(entries@[j])) is Some ==> stack@.contains(
                        next_group(entries@[j])->0 as usize,
                    ),
            decreases entries.len() - k,
        {
            let v = entries[k];
            assert(refers(m, m.voicegroups[g as int].entries[k as int]));
            let ghost held = stack@;
            match v {
                Voice::Keysplit { group, table: _ } | Voice::KeysplitAll { group } => {
                    proof {
                        assert(next_group(m.voicegroups[g as int].entries[k as int]) == Some(
                            group as int,
                        ));
                        assert(leads(m, g as int, group as int));
                        lemma_reach_next(m, songs@, g as int, group as int);
                    }
                    stack.push(group as usize);
                    assert(stack@[stack@.len() - 1] == group);
                },
                _ => {},
            }
            assert forall|x: usize| held.contains(x) implies stack@.contains(x) by {
                let j = choose|j: int| 0 <= j < held.len() && held[j] == x;
                assert(stack@[j] == x);
            }
            k += 1;
        }
        assert forall|x: usize| rest.contains(x) implies stack@.contains(x) by {
            let j = choose|j: int| 0 <= j < rest.len() && rest[j] == x;
            assert(stack@[j] == x);
        }
        assert forall|a: int, b: int|
            0 <= a < used@.len() && used@[a] && #[trigger] leads(m, a, b) implies used@[b]
            || stack@.contains(b as usize) by {
            if a != g {
                assert(flags[a]);
            } else {
                let j = choose|j: int|
                    0 <= j < m.voicegroups[a].entries.len() && #[trigger] next_group(
                        m.voicegroups[a].entries[j],
                    ) == Some(b);
                assert(next_group(entries@[j]) is Some);
            }
        }
    }
    assert forall|g: int| 0 <= g < used@.len() && reaches(m, songs@, g) implies used@[g] by {
        let path = choose|path: Seq<int>| #[trigger]
            is_chain(m, songs@, path) && path.last() == g;
        lemma_reach_closed(m, songs@, used@, path);
    }
    assert(used@ =~= group_flags(m, songs@));
    used
}

/// The new number of each flagged item.
fn new_numbers(used: &Vec<bool>) -> (out: Vec<u16>)
    requires
        rank(used@, used@.len() as int) <= u16::MAX,
    ensures
        out@.len() == used@.len(),
        forall|i: int|
            0 <= i < used@.len() && used@[i] ==> #[trigger] out@[i] == rank(used@, i) && rank(
                used@,
                i,
            ) < u16::MAX,
{
    let mut out: Vec<u16> = Vec::new();
    let mut n: u16 = 0;
    let mut i: usize = 0;
    while i < used.len()
        invariant
            i <= used.len(),
            rank(used@, used@.len() as int) <= u16::MAX,
            n == rank(used@, i as int),
            out@.len() == i,
            forall|k: int|
                0 <= k < i && used@[k] ==> #[trigger] out@[k] == rank(used@, k) && rank(used@, k)
                    < u16::MAX,
        decreases used.len() - i,
    {
        if used[i] {
            proof {
                lemma_rank_step(used@, i as int, used@.len() as int);
            }
            out.push(n);
            n += 1;
        } else {
            out.push(0);
        }
        i += 1;
    }
    out
}

/// The flags of what the voices of the kept groups refer to.
struct Used {
    samples: Vec<bool>,
    waves: Vec<bool>,
    tables: Vec<bool>,
}

/// Whether voice `k` of group `g` comes before voice `kk` of group `gg`.
spec fn before(g: int, k: int, gg: int, kk: int) -> bool {
    g < gg || (g == gg && k < kk)
}

/// What the voices before a place refer to.
spec fn seen(m: MusicModel, groups: Seq<bool>, f: spec_fn(Voice) -> bool, gg: int, kk: int) -> bool {
    exists|g: int, k: int|
        #![trigger m.voicegroups[g].entries[k]]
        0 <= g < m.voicegroups.len() && groups[g] && 0 <= k < m.voicegroups[g].entries.len() && f(
            m.voicegroups[g].entries[k],
        ) && before(g, k, gg, kk)
}

impl Used {
    spec fn upto(&self, m: MusicModel, groups: Seq<bool>, g: int, k: int) -> bool {
        &&& self.samples@.len() == m.samples.len()
        &&& self.waves@.len() == m.waves.len()
        &&& self.tables@.len() == m.keysplits.len()
        &&& forall|i: int|
            0 <= i < m.samples.len() ==> (#[trigger] self.samples@[i] == seen(
                m,
                groups,
                |v: Voice| plays_sample(v, i),
                g,
                k,
            ))
        &&& forall|i: int|
            0 <= i < m.waves.len() ==> (#[trigger] self.waves@[i] == seen(
                m,
                groups,
                |v: Voice| plays_wave(v, i),
                g,
                k,
            ))
        &&& forall|i: int|
            0 <= i < m.keysplits.len() ==> (#[trigger] self.tables@[i] == seen(
                m,
                groups,
                |v: Voice| looks_up(v, i),
                g,
                k,
            ))
    }
}

/// One more voice adds what it refers to and nothing else.
proof fn lemma_seen_step(
    m: MusicModel,
    groups: Seq<bool>,
    f: spec_fn(Voice) -> bool,
    g: int,
    k: int,
)
    requires
        0 <= g < m.voicegroups.len(),
        groups[g],
        0 <= k < m.voicegroups[g].entries.len(),
    ensures
        seen(m, groups, f, g, k + 1) == (seen(m, groups, f, g, k) || f(
            m.voicegroups[g].entries[k],
        )),
{
    if seen(m, groups, f, g, k) {
        let (a, b) = choose|a: int, b: int|
            #![trigger m.voicegroups[a].entries[b]]
            0 <= a < m.voicegroups.len() && groups[a] && 0 <= b < m.voicegroups[a].entries.len()
                && f(m.voicegroups[a].entries[b]) && before(a, b, g, k);
        assert(before(a, b, g, k + 1));
    }
    if f(m.voicegroups[g].entries[k]) {
        assert(before(g, k, g, k + 1));
    }
    if seen(m, groups, f, g, k + 1) {
        let (a, b) = choose|a: int, b: int|
            #![trigger m.voicegroups[a].entries[b]]
            0 <= a < m.voicegroups.len() && groups[a] && 0 <= b < m.voicegroups[a].entries.len()
                && f(m.voicegroups[a].entries[b]) && before(a, b, g, k + 1);
        if !(a == g && b == k) {
            assert(before(a, b, g, k));
        }
    }
}

/// The end of a group is the start of the next.
proof fn lemma_seen_next(m: MusicModel, groups: Seq<bool>, f: spec_fn(Voice) -> bool, g: int)
    requires
        0 <= g < m.voicegroups.len(),
    ensures
        seen(m, groups, f, g + 1, 0) == (if groups[g] {
            seen(m, groups, f, g, m.voicegroups[g].entries.len() as int)
        } else {
            seen(m, groups, f, g, 0)
        }),
{
    let n = if groups[g] {
        m.voicegroups[g].entries.len() as int
    } else {
        0
    };
    if seen(m, groups, f, g + 1, 0) {
        let (a, b) = choose|a: int, b: int|
            #![trigger m.voicegroups[a].entries[b]]
            0 <= a < m.voicegroups.len() && groups[a] && 0 <= b < m.voicegroups[a].entries.len()
                && f(m.voicegroups[a].entries[b]) && before(a, b, g + 1, 0);
        assert(before(a, b, g, n));
    }
    if seen(m, groups, f, g, n) {
        let (a, b) = choose|a: int, b: int|
            #![trigger m.voicegroups[a].entries[b]]
            0 <= a < m.voicegroups.len() && groups[a] && 0 <= b < m.voicegroups[a].entries.len()
                && f(m.voicegroups[a].entries[b]) && before(a, b, g, n);
        assert(before(a, b, g + 1, 0));
    }
}

proof fn lemma_seen_all(m: MusicModel, groups: Seq<bool>, f: spec_fn(Voice) -> bool)
    ensures
        seen(m, groups, f, m.voicegroups.len() as int, 0) == some_voice(m, groups, f),
{
    if some_voice(m, groups, f) {
        let (a, b) = choose|a: int, b: int|
            #![trigger m.voicegroups[a].entries[b]]
            0 <= a < m.voicegroups.len() && groups[a] && 0 <= b < m.voicegroups[a].entries.len()
                && f(m.voicegroups[a].entries[b]);
        assert(before(a, b, m.voicegroups.len() as int, 0));
    }
}

proof fn lemma_upto_next(u: Used, m: MusicModel, groups: Seq<bool>, g: int)
    requires
        0 <= g < m.voicegroups.len(),
        groups[g] ==> u.upto(m, groups, g, m.voicegroups[g].entries.len() as int),
        !groups[g] ==> u.upto(m, groups, g, 0),
    ensures
        u.upto(m, groups, g + 1, 0),
{
    assert forall|i: int| 0 <= i < m.samples.len() implies (#[trigger] u.samples@[i] == seen(
        m,
        groups,
        |v: Voice| plays_sample(v, i),
        g + 1,
        0,
    )) by {
        lemma_seen_next(m, groups, |v: Voice| plays_sample(v, i), g);
    }
    assert forall|i: int| 0 <= i < m.waves.len() implies (#[trigger] u.waves@[i] == seen(
        m,
        groups,
        |v: Voice| plays_wave(v, i),
        g + 1,
        0,
    )) by {
        lemma_seen_next(m, groups, |v: Voice| plays_wave(v, i), g);
    }
    assert forall|i: int| 0 <= i < m.keysplits.len() implies (#[trigger] u.tables@[i] == seen(
        m,
        groups,
        |v: Voice| looks_up(v, i),
        g + 1,
        0,
    )) by {
        lemma_seen_next(m, groups, |v: Voice| looks_up(v, i), g);
    }
}

/// One more voice, whose numbers have been flagged.
proof fn lemma_upto_step(u: Used, w: Used, m: MusicModel, groups: Seq<bool>, g: int, k: int)
    requires
        0 <= g < m.voicegroups.len(),
        groups[g],
        0 <= k < m.voicegroups[g].entries.len(),
        u.upto(m, groups, g, k),
        w.samples@.len() == m.samples.len(),
        w.waves@.len() == m.waves.len(),
        w.tables@.len() == m.keysplits.len(),
        forall|i: int|
            0 <= i < m.samples.len() ==> #[trigger] w.samples@[i] == (u.samples@[i]
                || plays_sample(m.voicegroups[g].entries[k], i)),
        forall|i: int|
            0 <= i < m.waves.len() ==> #[trigger] w.waves@[i] == (u.waves@[i] || plays_wave(
                m.voicegroups[g].entries[k],
                i,
            )),
        forall|i: int|
            0 <= i < m.keysplits.len() ==> #[trigger] w.tables@[i] == (u.tables@[i] || looks_up(
                m.voicegroups[g].entries[k],
                i,
            )),
    ensures
        w.upto(m, groups, g, k + 1),
{
    assert forall|i: int| 0 <= i < m.samples.len() implies (#[trigger] w.samples@[i] == seen(
        m,
        groups,
        |v: Voice| plays_sample(v, i),
        g,
        k + 1,
    )) by {
        assert(u.samples@[i] == seen(m, groups, |v: Voice| plays_sample(v, i), g, k));
        lemma_seen_step(m, groups, |v: Voice| plays_sample(v, i), g, k);
    }
    assert forall|i: int| 0 <= i < m.waves.len() implies (#[trigger] w.waves@[i] == seen(
        m,
        groups,
        |v: Voice| plays_wave(v, i),
        g,
        k + 1,
    )) by {
        assert(u.waves@[i] == seen(m, groups, |v: Voice| plays_wave(v, i), g, k));
        lemma_seen_step(m, groups, |v: Voice| plays_wave(v, i), g, k);
    }
    assert forall|i: int| 0 <= i < m.keysplits.len() implies (#[trigger] w.tables@[i] == seen(
        m,
        groups,
        |v: Voice| looks_up(v, i),
        g,
        k + 1,
    )) by {
        assert(u.tables@[i] == seen(m, groups, |v: Voice| looks_up(v, i), g, k));
        lemma_seen_step(m, groups, |v: Voice| looks_up(v, i), g, k);
    }
}

/// The flags of what the kept groups refer to.
fn used_by(p: &MusicPack, groups: &Vec<bool>, songs: &[usize]) -> (u: Used)
    requires
        sound(p.model(), songs@),
        groups@ == group_flags(p.model(), songs@),
    ensures
        u.samples@ == sample_flags(p.model(), groups@),
        u.waves@ == wave_flags(p.model(), groups@),
        u.tables@ == table_flags(p.model(), groups@),
{
    let ghost m = p.model();
    let mut u = Used {
        samples: vec![false; p.samples.len()],
        waves: vec![false; p.waves.len()],
        tables: vec![false; p.keysplits.len()],
    };
    let mut g: usize = 0;
    while g < p.voicegroups.len()
        invariant
            g <= p.voicegroups.len(),
            m == p.model(),
            sound(m, songs@),
            groups@ == group_flags(m, songs@),
            u.upto(m, groups@, g as int, 0),
        decreases p.voicegroups.len() - g,
    {
        assert(m.voicegroups[g as int] == p.voicegroups@[g as int].model());
        if groups[g] {
            let entries = &p.voicegroups[g].entries;
            assert(m.voicegroups[g as int].entries =~= entries@);
            let mut k: usize = 0;
            while k < entries.len()
                invariant
                    g < m.voicegroups.len(),
                    k <= entries.len(),
                    sound(m, songs@),
                    groups@ == group_flags(m, songs@),
                    groups@[g as int],
                    m.voicegroups[g as int].entries == entries@,
                    u.upto(m, groups@, g as int, k as int),
                decreases entries.len() - k,
            {
                let ghost w = u;
                assert(refers(m, m.voicegroups[g as int].entries[k as int]));
                match entries[k] {
                    Voice::DirectSound { base_key: _, pan: _, sample, adsr: _, fixed: _ } => {
                        u.samples[sample as usize] = true;
                    },
                    Voice::Wave { base_key: _, pan: _, wave, adsr: _ } => {
                        u.waves[wave as usize] = true;
                    },
                    Voice::Keysplit { group: _, table } => {
                        u.tables[table as usize] = true;
                    },
                    _ => {},
                }
                proof {
                    lemma_upto_step(w, u, m, groups@, g as int, k as int);
                }
                k += 1;
            }
        }
        proof {
            lemma_upto_next(u, m, groups@, g as int);
        }
        g += 1;
    }
    proof {
        assert forall|i: int| 0 <= i < m.samples.len() implies u.samples@[i] == sample_flags(
            m,
            groups@,
        )[i] by {
            lemma_seen_all(m, groups@, |v: Voice| plays_sample(v, i));
        }
        assert forall|i: int| 0 <= i < m.waves.len() implies u.waves@[i] == wave_flags(
            m,
            groups@,
        )[i] by {
            lemma_seen_all(m, groups@, |v: Voice| plays_wave(v, i));
        }
        assert forall|i: int| 0 <= i < m.keysplits.len() implies u.tables@[i] == table_flags(
            m,
            groups@,
        )[i] by {
            lemma_seen_all(m, groups@, |v: Voice| looks_up(v, i));
        }
        assert(u.samples@ =~= sample_flags(m, groups@));
        assert(u.waves@ =~= wave_flags(m, groups@));
        assert(u.tables@ =~= table_flags(m, groups@));
    }
    u
}

// ---- the pack that is left -----------------------------------------------

fn keep_samples(items: &Vec<SampleData>, used: &Vec<bool>) -> (out: Vec<SampleData>)
    requires
        used@.len() == items@.len(),
    ensures
        codec::models(out@) == kept(codec::models(items@), used@),
{
    let ghost ms = codec::models(items@);
    let mut out: Vec<SampleData> = Vec::new();
    let mut i: usize = 0;
    assert(codec::models(out@) =~= kept_first(ms, used@, 0));
    while i < items.len()
        invariant
            i <= items.len(),
            used@.len() == items@.len(),
            ms == codec::models(items@),
            codec::models(out@) == kept_first(ms, used@, i as int),
        decreases items.len() - i,
    {
        if used[i] {
            let ghost done = codec::models(out@);
            out.push(items[i].clone());
            assert(codec::models(out@) =~= done.push(ms[i as int]));
        }
        i += 1;
    }
    out
}

fn keep_waves(items: &Vec<[u8; 32]>, used: &Vec<bool>) -> (out: Vec<[u8; 32]>)
    requires
        used@.len() == items@.len(),
    ensures
        codec::models(out@) == kept(codec::models(items@), used@),
{
    let ghost ms = codec::models(items@);
    let mut out: Vec<[u8; 32]> = Vec::new();
    let mut i: usize = 0;
    assert(codec::models(out@) =~= kept_first(ms, used@, 0));
    while i < items.len()
        invariant
            i <= items.len(),
            used@.len() == items@.len(),
            ms == codec::models(items@),
            codec::models(out@) == kept_first(ms, used@, i as int),
        decreases items.len() - i,
    {
        if used[i] {
            let ghost done = codec::models(out@);
            out.push(items[i]);
            assert(codec::models(out@) =~= done.push(ms[i as int]));
        }
        i += 1;
    }
    out
}

fn keep_tables(items: &Vec<KeysplitTable>, used: &Vec<bool>) -> (out: Vec<KeysplitTable>)
    requires
        used@.len() == items@.len(),
    ensures
        codec::models(out@) == kept(codec::models(items@), used@),
{
    let ghost ms = codec::models(items@);
    let mut out: Vec<KeysplitTable> = Vec::new();
    let mut i: usize = 0;
    assert(codec::models(out@) =~= kept_first(ms, used@, 0));
    while i < items.len()
        invariant
            i <= items.len(),
            used@.len() == items@.len(),
            ms == codec::models(items@),
            codec::models(out@) == kept_first(ms, used@, i as int),
        decreases items.len() - i,
    {
        if used[i] {
            let ghost done = codec::models(out@);
            out.push(items[i].clone());
            assert(codec::models(out@) =~= done.push(ms[i as int]));
        }
        i += 1;
    }
    out
}

/// The old numbers' new ones, for everything that a voice may refer to.
struct Numbers {
    samples: Vec<u16>,
    waves: Vec<u16>,
    tables: Vec<u16>,
    groups: Vec<u16>,
}

/// Whether `new` gives each flagged item its new number.
spec fn numbers(new: Seq<u16>, used: Seq<bool>) -> bool {
    &&& new.len() == used.len()
    &&& forall|i: int|
        0 <= i < used.len() && used[i] ==> #[trigger] new[i] == rank(used, i) && rank(used, i)
            < u16::MAX
}

spec fn numbers_all(n: Numbers, m: MusicModel, songs: Seq<usize>) -> bool {
    let groups = group_flags(m, songs);
    &&& numbers(n.groups@, groups)
    &&& numbers(n.samples@, sample_flags(m, groups))
    &&& numbers(n.waves@, wave_flags(m, groups))
    &&& numbers(n.tables@, table_flags(m, groups))
}

/// What a voice of a kept group refers to is kept.
pub proof fn lemma_refers_to_kept(m: MusicModel, songs: Seq<usize>, g: int, k: int)
    requires
        sound(m, songs),
        0 <= g < m.voicegroups.len(),
        reaches(m, songs, g),
        0 <= k < m.voicegroups[g].entries.len(),
    ensures
        match m.voicegroups[g].entries[k] {
            Voice::DirectSound { sample, .. } => sample < m.samples.len() && sample_flags(
                m,
                group_flags(m, songs),
            )[sample as int],
            Voice::Wave { wave, .. } => wave < m.waves.len() && wave_flags(
                m,
                group_flags(m, songs),
            )[wave as int],
            Voice::Keysplit { group, table } => {
                &&& group < m.voicegroups.len()
                &&& group_flags(m, songs)[group as int]
                &&& table < m.keysplits.len()
                &&& table_flags(m, group_flags(m, songs))[table as int]
            },
            Voice::KeysplitAll { group } => group < m.voicegroups.len() && group_flags(
                m,
                songs,
            )[group as int],
            _ => true,
        },
{
    let groups = group_flags(m, songs);
    let v = m.voicegroups[g].entries[k];
    assert(groups[g]);
    assert(refers(m, v));
    match v {
        Voice::DirectSound { sample, .. } => {
            let f = |x: Voice| plays_sample(x, sample as int);
            assert(f(v));
            assert(some_voice(m, groups, f));
        },
        Voice::Wave { wave, .. } => {
            let f = |x: Voice| plays_wave(x, wave as int);
            assert(f(v));
            assert(some_voice(m, groups, f));
        },
        Voice::Keysplit { group, table } => {
            let f = |x: Voice| looks_up(x, table as int);
            assert(f(v));
            assert(some_voice(m, groups, f));
            assert(next_group(m.voicegroups[g].entries[k]) == Some(group as int));
            assert(leads(m, g, group as int));
            lemma_reach_next(m, songs, g, group as int);
        },
        Voice::KeysplitAll { group } => {
            assert(next_group(m.voicegroups[g].entries[k]) == Some(group as int));
            assert(leads(m, g, group as int));
            lemma_reach_next(m, songs, g, group as int);
        },
        _ => {},
    }
}

fn renumber_group(p: &MusicPack, songs: &[usize], n: &Numbers, g: usize) -> (r: VoiceGroup)
    requires
        sound(p.model(), songs@),
        g < p.voicegroups@.len(),
        reaches(p.model(), songs@, g as int),
        numbers_all(*n, p.model(), songs@),
    ensures
        r.model() == renumbered_group(
            p.model(),
            group_flags(p.model(), songs@),
            p.model().voicegroups[g as int],
        ),
{
    let ghost m = p.model();
    let ghost groups = group_flags(m, songs@);
    let ghost goal = renumbered_group(m, groups, m.voicegroups[g as int]);
    let old_group = &p.voicegroups[g];
    let voices = &old_group.entries;
    assert(m.voicegroups[g as int] == old_group.model());
    assert(m.voicegroups[g as int].entries =~= voices@);
    let mut entries: Vec<Voice> = Vec::new();
    let mut k: usize = 0;
    while k < voices.len()
        invariant
            k <= voices.len(),
            m == p.model(),
            groups == group_flags(m, songs@),
            sound(m, songs@),
            g < m.voicegroups.len(),
            reaches(m, songs@, g as int),
            numbers_all(*n, m, songs@),
            m.voicegroups[g as int].entries == voices@,
            goal == renumbered_group(m, groups, m.voicegroups[g as int]),
            entries@ == goal.entries.take(k as int),
        decreases voices.len() - k,
    {
        proof {
            lemma_refers_to_kept(m, songs@, g as int, k as int);
        }
        let v = match voices[k] {
            Voice::DirectSound { base_key, pan, sample, adsr, fixed } => Voice::DirectSound {
                base_key,
                pan,
                sample: n.samples[sample as usize],
                adsr,
                fixed,
            },
            Voice::Wave { base_key, pan, wave, adsr } => Voice::Wave {
                base_key,
                pan,
                wave: n.waves[wave as usize],
                adsr,
            },
            Voice::Keysplit { group, table } => Voice::Keysplit {
                group: n.groups[group as usize],
                table: n.tables[table as usize],
            },
            Voice::KeysplitAll { group } => Voice::KeysplitAll { group: n.groups[group as usize] },
            other => other,
        };
        entries.push(v);
        assert(v == goal.entries[k as int]);
        assert(goal.entries.take(k + 1) =~= goal.entries.take(k as int).push(v));
        k += 1;
    }
    let r = VoiceGroup { name: old_group.name.clone(), offset: old_group.offset, entries };
    assert(r.model().entries =~= goal.entries);
    r
}

impl MusicPack {
    /// A pack holding only `song_indices` and what they can reach, with the
    /// numbers of what is left.
    pub fn subset(&self, song_indices: &[usize]) -> (out: MusicPack)
        requires
            sound(self.model(), song_indices@),
            countable(self.model(), song_indices@),
        ensures
            out.model() == subset_of(self.model(), song_indices@),
    {
        let ghost m = self.model();
        let used_groups = reached_groups(self, song_indices);
        let ghost groups = used_groups@;
        let used = used_by(self, &used_groups, song_indices);
        let n = Numbers {
            samples: new_numbers(&used.samples),
            waves: new_numbers(&used.waves),
            tables: new_numbers(&used.tables),
            groups: new_numbers(&used_groups),
        };
        let samples = keep_samples(&self.samples, &used.samples);
        let waves = keep_waves(&self.waves, &used.waves);
        let keysplits = keep_tables(&self.keysplits, &used.tables);
        let ghost goal = subset_of(m, song_indices@);
        let mut voicegroups: Vec<VoiceGroup> = Vec::new();
        let mut g: usize = 0;
        while g < self.voicegroups.len()
            invariant
                g <= self.voicegroups.len(),
                m == self.model(),
                sound(m, song_indices@),
                numbers_all(n, m, song_indices@),
                used_groups@ == groups,
                groups == group_flags(m, song_indices@),
                voicegroups@.len() == kept_first(m.voicegroups, groups, g as int).len(),
                forall|i: int|
                    0 <= i < voicegroups@.len() ==> (#[trigger] voicegroups@[i]).model()
                        == renumbered_group(
                        m,
                        groups,
                        kept_first(m.voicegroups, groups, g as int)[i],
                    ),
            decreases self.voicegroups.len() - g,
        {
            if used_groups[g] {
                voicegroups.push(renumber_group(self, song_indices, &n, g));
            }
            g += 1;
        }
        let mut songs: Vec<SongData> = Vec::new();
        let mut i: usize = 0;
        while i < song_indices.len()
            invariant
                i <= song_indices.len(),
                m == self.model(),
                sound(m, song_indices@),
                numbers_all(n, m, song_indices@),
                groups == group_flags(m, song_indices@),
                songs@.len() == i,
                forall|k: int|
                    0 <= k < i ==> (#[trigger] songs@[k]).model() == renumbered_song(
                        groups,
                        m.songs[song_indices@[k] as int],
                    ),
            decreases song_indices.len() - i,
        {
            let s: usize = song_indices[i];
            assert(song_indices@[i as int] < m.songs.len());
            assert(m.songs[s as int] == self.songs@[s as int].model());
            assert(m.songs[song_indices@[i as int] as int].voicegroup < m.voicegroups.len());
            let mut song = self.songs[s].clone();
            proof {
                lemma_reach_start(m, song_indices@, i as int);
                assert(groups[song.voicegroup as int]);
            }
            song.voicegroup = n.groups[song.voicegroup as usize];
            songs.push(song);
            i += 1;
        }
        let out = MusicPack { samples, waves, keysplits, voicegroups, songs };
        assert(out.model().voicegroups =~= goal.voicegroups);
        assert(out.model().songs =~= goal.songs);
        out
    }
}

// ---- laws ----------------------------------------------------------------

/// Every number in the pack that is left names something in it.
pub proof fn subset_is_sound(m: MusicModel, songs: Seq<usize>)
    requires
        sound(m, songs),
        countable(m, songs),
    ensures
        forall|i: int|
            0 <= i < subset_of(m, songs).songs.len() ==> (#[trigger] subset_of(
                m,
                songs,
            ).songs[i]).voicegroup < subset_of(m, songs).voicegroups.len(),
        forall|g: int, k: int|
            #![trigger subset_of(m, songs).voicegroups[g].entries[k]]
            0 <= g < subset_of(m, songs).voicegroups.len() && 0 <= k < subset_of(
                m,
                songs,
            ).voicegroups[g].entries.len() ==> refers(
                subset_of(m, songs),
                subset_of(m, songs).voicegroups[g].entries[k],
            ),
{
    let r = subset_of(m, songs);
    let groups = group_flags(m, songs);
    lemma_kept(m.voicegroups, groups, m.voicegroups.len() as int);
    lemma_kept(m.samples, sample_flags(m, groups), m.samples.len() as int);
    lemma_kept(m.waves, wave_flags(m, groups), m.waves.len() as int);
    lemma_kept(m.keysplits, table_flags(m, groups), m.keysplits.len() as int);
    assert forall|i: int| 0 <= i < r.songs.len() implies (#[trigger] r.songs[i]).voicegroup
        < r.voicegroups.len() by {
        lemma_reach_start(m, songs, i);
        let g = m.songs[songs[i] as int].voicegroup as int;
        assert(g < m.voicegroups.len());
        lemma_rank_step(groups, g, m.voicegroups.len() as int);
    }
    assert forall|g: int, k: int|
        #![trigger r.voicegroups[g].entries[k]]
        0 <= g < r.voicegroups.len() && 0 <= k < r.voicegroups[g].entries.len() implies refers(
        r,
        r.voicegroups[g].entries[k],
    ) by {
        let a = lemma_kept_origin(m.voicegroups, groups, m.voicegroups.len() as int, g);
        lemma_refers_to_kept(m, songs, a, k);
        match m.voicegroups[a].entries[k] {
            Voice::DirectSound { sample, .. } => lemma_rank_step(
                sample_flags(m, groups),
                sample as int,
                m.samples.len() as int,
            ),
            Voice::Wave { wave, .. } => lemma_rank_step(
                wave_flags(m, groups),
                wave as int,
                m.waves.len() as int,
            ),
            Voice::Keysplit { group, table } => {
                lemma_rank_step(groups, group as int, m.voicegroups.len() as int);
                lemma_rank_step(table_flags(m, groups), table as int, m.keysplits.len() as int);
            },
            Voice::KeysplitAll { group } => lemma_rank_step(
                groups,
                group as int,
                m.voicegroups.len() as int,
            ),
            _ => {},
        }
    }
}

/// What a kept group, sample, wave or table holds is found again under its
/// new number.
pub proof fn subset_keeps_what_is_reached(m: MusicModel, songs: Seq<usize>)
    requires
        sound(m, songs),
        countable(m, songs),
    ensures
        forall|g: int|
            0 <= g < m.voicegroups.len() && #[trigger] group_flags(m, songs)[g] ==> {
                let i = rank(group_flags(m, songs), g);
                &&& i < subset_of(m, songs).voicegroups.len()
                &&& subset_of(m, songs).voicegroups[i as int] == renumbered_group(
                    m,
                    group_flags(m, songs),
                    m.voicegroups[g],
                )
            },
        forall|x: int|
            0 <= x < m.samples.len() && #[trigger] sample_flags(m, group_flags(m, songs))[x] ==> {
                let i = rank(sample_flags(m, group_flags(m, songs)), x);
                i < subset_of(m, songs).samples.len() && subset_of(m, songs).samples[i as int]
                    == m.samples[x]
            },
        forall|x: int|
            0 <= x < m.waves.len() && #[trigger] wave_flags(m, group_flags(m, songs))[x] ==> {
                let i = rank(wave_flags(m, group_flags(m, songs)), x);
                i < subset_of(m, songs).waves.len() && subset_of(m, songs).waves[i as int]
                    == m.waves[x]
            },
        forall|x: int|
            0 <= x < m.keysplits.len() && #[trigger] table_flags(m, group_flags(m, songs))[x] ==> {
                let i = rank(table_flags(m, group_flags(m, songs)), x);
                i < subset_of(m, songs).keysplits.len() && subset_of(m, songs).keysplits[i as int]
                    == m.keysplits[x]
            },
{
    let groups = group_flags(m, songs);
    let (sf, wf, tf) = (sample_flags(m, groups), wave_flags(m, groups), table_flags(m, groups));
    lemma_kept(m.voicegroups, groups, m.voicegroups.len() as int);
    lemma_kept(m.samples, sf, m.samples.len() as int);
    lemma_kept(m.waves, wf, m.waves.len() as int);
    lemma_kept(m.keysplits, tf, m.keysplits.len() as int);
    assert forall|g: int| 0 <= g < m.voicegroups.len() && #[trigger] groups[g] implies rank(
        groups,
        g,
    ) < subset_of(m, songs).voicegroups.len() by {
        lemma_rank_step(groups, g, m.voicegroups.len() as int);
    }
    assert forall|x: int| 0 <= x < m.samples.len() && #[trigger] sf[x] implies rank(sf, x)
        < subset_of(m, songs).samples.len() by {
        lemma_rank_step(sf, x, m.samples.len() as int);
    }
    assert forall|x: int| 0 <= x < m.waves.len() && #[trigger] wf[x] implies rank(wf, x)
        < subset_of(m, songs).waves.len() by {
        lemma_rank_step(wf, x, m.waves.len() as int);
    }
    assert forall|x: int| 0 <= x < m.keysplits.len() && #[trigger] tf[x] implies rank(tf, x)
        < subset_of(m, songs).keysplits.len() by {
        lemma_rank_step(tf, x, m.keysplits.len() as int);
    }
}

proof fn lemma_kept_fits<T: Wire>(s: Seq<T::M>, used: Seq<bool>)
    requires
        codec::fits_list::<T>(s),
    ensures
        codec::fits_list::<T>(kept(s, used)),
{
    lemma_kept(s, used, s.len() as int);
    lemma_rank_bound(used, s.len() as int);
    assert forall|j: int| 0 <= j < kept(s, used).len() implies T::fits(
        #[trigger] kept(s, used)[j],
    ) by {
        let i = lemma_kept_origin(s, used, s.len() as int, j);
        assert(T::fits(s[i]));
    }
}

pub proof fn lemma_rank_bound(used: Seq<bool>, n: int)
    requires
        0 <= n,
    ensures
        rank(used, n) <= n,
    decreases n,
{
    if n > 0 {
        lemma_rank_bound(used, n - 1);
    }
}

/// A subset of a pack that can be written without loss can itself be.
pub proof fn subset_fits(m: MusicModel, songs: Seq<usize>)
    requires
        sound(m, songs),
        data::fits_music(m),
        songs.len() < 0x1_0000_0000,
    ensures
        data::fits_music(subset_of(m, songs)),
{
    let r = subset_of(m, songs);
    let groups = group_flags(m, songs);
    lemma_kept_fits::<SampleData>(m.samples, sample_flags(m, groups));
    lemma_kept_fits::<[u8; 32]>(m.waves, wave_flags(m, groups));
    lemma_kept_fits::<KeysplitTable>(m.keysplits, table_flags(m, groups));
    lemma_kept_fits::<VoiceGroup>(m.voicegroups, groups);
    assert forall|i: int| 0 <= i < r.voicegroups.len() implies VoiceGroup::fits(
        #[trigger] r.voicegroups[i],
    ) by {
        let g = kept(m.voicegroups, groups)[i];
        assert(VoiceGroup::fits(g));
        assert(r.voicegroups[i] == renumbered_group(m, groups, g));
    }
    assert forall|i: int| 0 <= i < r.songs.len() implies SongData::fits(#[trigger] r.songs[i]) by {
        assert(songs[i] < m.songs.len());
        assert(SongData::fits(m.songs[songs[i] as int]));
    }
}

/// A subset that was written is read back as it was.
pub proof fn subset_reads_back(m: MusicModel, songs: Seq<usize>, post: Seq<u8>)
    requires
        sound(m, songs),
        data::fits_music(m),
        songs.len() < 0x1_0000_0000,
    ensures
        data::dec_music(data::enc_music(subset_of(m, songs)) + post) == Ok::<
            (MusicModel, Seq<u8>),
            Seq<char>,
        >((subset_of(m, songs), post)),
{
    subset_fits(m, songs);
    data::music_reads_back(subset_of(m, songs), post);
}

// ---- a subset of a subset ------------------------------------------------

/// Whether `all` names the first songs in their order.
pub open spec fn in_turn(all: Seq<usize>, n: nat) -> bool {
    all.len() == n && forall|i: int| 0 <= i < n ==> #[trigger] all[i] == i
}

/// Whether every flag is set.
spec fn all_set(used: Seq<bool>) -> bool {
    forall|i: int| 0 <= i < used.len() ==> #[trigger] used[i]
}

proof fn lemma_all_set<T>(s: Seq<T>, used: Seq<bool>, n: int)
    requires
        all_set(used),
        0 <= n <= s.len() == used.len(),
    ensures
        rank(used, n) == n,
        kept_first(s, used, n) == s.take(n),
    decreases n,
{
    if n > 0 {
        lemma_all_set(s, used, n - 1);
        assert(used[n - 1]);
        assert(s.take(n) =~= s.take(n - 1).push(s[n - 1]));
    } else {
        assert(s.take(0) =~= seq![]);
    }
}

/// A chain of the whole pack is a chain of the subset, by the new numbers.
proof fn lemma_chain_kept(m: MusicModel, songs: Seq<usize>, all: Seq<usize>, path: Seq<int>)
    requires
        sound(m, songs),
        countable(m, songs),
        in_turn(all, songs.len()),
        is_chain(m, songs, path),
    ensures
        0 <= path.last() < m.voicegroups.len(),
        reaches(m, songs, path.last()),
        reaches(subset_of(m, songs), all, rank(group_flags(m, songs), path.last()) as int),
    decreases path.len(),
{
    let groups = group_flags(m, songs);
    let r = subset_of(m, songs);
    let n = m.voicegroups.len() as int;
    let b = path.last();
    assert(reaches(m, songs, b));
    if path.len() == 1 {
        let k = choose|k: int|
            0 <= k < songs.len() && #[trigger] m.songs[songs[k] as int].voicegroup == path[0];
        assert(groups[b]);
        lemma_rank_step(groups, b, n);
        lemma_reach_start(r, all, k);
        assert(all[k] == k);
        assert(r.songs[k].voicegroup == rank(groups, b));
    } else {
        let front = path.drop_last();
        assert(front[0] == path[0]);
        assert forall|i: int| 0 <= i < front.len() - 1 implies leads(
            m,
            #[trigger] front[i],
            front[i + 1],
        ) by {
            assert(leads(m, path[i], path[i + 1]));
        }
        lemma_chain_kept(m, songs, all, front);
        let a = front.last();
        assert(a == path[path.len() - 2]);
        assert(leads(m, path[path.len() - 2], path[path.len() - 1]));
        let k = choose|k: int|
            0 <= k < m.voicegroups[a].entries.len() && #[trigger] next_group(
                m.voicegroups[a].entries[k],
            ) == Some(b);
        assert(refers(m, m.voicegroups[a].entries[k]));
        assert(groups[a] && groups[b]);
        lemma_rank_step(groups, b, n);
        subset_keeps_what_is_reached(m, songs);
        let x = rank(groups, a) as int;
        assert(r.voicegroups[x] == renumbered_group(m, groups, m.voicegroups[a]));
        assert(next_group(r.voicegroups[x].entries[k]) == Some(rank(groups, b) as int));
        assert(leads(r, x, rank(groups, b) as int));
        lemma_reach_next(r, all, x, rank(groups, b) as int);
    }
}

/// Every group of a subset is reached from its songs.
proof fn lemma_groups_reached(m: MusicModel, songs: Seq<usize>, all: Seq<usize>)
    requires
        sound(m, songs),
        countable(m, songs),
        in_turn(all, songs.len()),
    ensures
        all_set(group_flags(subset_of(m, songs), all)),
{
    let groups = group_flags(m, songs);
    let r = subset_of(m, songs);
    let flags = group_flags(r, all);
    assert forall|j: int| 0 <= j < flags.len() implies #[trigger] flags[j] by {
        let a = lemma_kept_origin(m.voicegroups, groups, m.voicegroups.len() as int, j);
        let path = choose|path: Seq<int>| #[trigger] is_chain(m, songs, path) && path.last() == a;
        lemma_chain_kept(m, songs, all, path);
    }
}

/// A voice that plays something of the whole pack plays it, by its new number,
/// in the subset.
proof fn lemma_voice_kept(
    m: MusicModel,
    songs: Seq<usize>,
    flags: Seq<bool>,
    f: spec_fn(Voice) -> bool,
    h: spec_fn(Voice) -> bool,
)
    requires
        sound(m, songs),
        countable(m, songs),
        flags.len() == subset_of(m, songs).voicegroups.len(),
        all_set(flags),
        some_voice(m, group_flags(m, songs), f),
        forall|g: int, k: int|
            #![trigger m.voicegroups[g].entries[k]]
            0 <= g < m.voicegroups.len() && group_flags(m, songs)[g] && 0 <= k
                < m.voicegroups[g].entries.len() && f(m.voicegroups[g].entries[k]) ==> h(
                renumbered_group(m, group_flags(m, songs), m.voicegroups[g]).entries[k],
            ),
    ensures
        some_voice(subset_of(m, songs), flags, h),
{
    let groups = group_flags(m, songs);
    let r = subset_of(m, songs);
    let (g, k) = choose|g: int, k: int|
        #![trigger m.voicegroups[g].entries[k]]
        0 <= g < m.voicegroups.len() && groups[g] && 0 <= k < m.voicegroups[g].entries.len() && f(
            m.voicegroups[g].entries[k],
        );
    subset_keeps_what_is_reached(m, songs);
    let x = rank(groups, g) as int;
    assert(r.voicegroups[x] == renumbered_group(m, groups, m.voicegroups[g]));
    assert(flags[x]);
    assert(h(r.voicegroups[x].entries[k]));
}

/// Every sample, wave and table of a subset is played by one of its voices.
proof fn lemma_all_played(m: MusicModel, songs: Seq<usize>, flags: Seq<bool>)
    requires
        sound(m, songs),
        countable(m, songs),
        flags.len() == subset_of(m, songs).voicegroups.len(),
        all_set(flags),
    ensures
        all_set(sample_flags(subset_of(m, songs), flags)),
        all_set(wave_flags(subset_of(m, songs), flags)),
        all_set(table_flags(subset_of(m, songs), flags)),
{
    let groups = group_flags(m, songs);
    let r = subset_of(m, songs);
    let (sf, wf, tf) = (sample_flags(m, groups), wave_flags(m, groups), table_flags(m, groups));
    let (rs, rw, rt) = (sample_flags(r, flags), wave_flags(r, flags), table_flags(r, flags));
    assert forall|j: int| 0 <= j < rs.len() implies #[trigger] rs[j] by {
        let x = lemma_kept_origin(m.samples, sf, m.samples.len() as int, j);
        lemma_rank_step(sf, x, m.samples.len() as int);
        let f = |v: Voice| plays_sample(v, x);
        let h = |v: Voice| plays_sample(v, j);
        assert(some_voice(m, groups, f));
        lemma_voice_kept(m, songs, flags, f, h);
    }
    assert forall|j: int| 0 <= j < rw.len() implies #[trigger] rw[j] by {
        let x = lemma_kept_origin(m.waves, wf, m.waves.len() as int, j);
        lemma_rank_step(wf, x, m.waves.len() as int);
        let f = |v: Voice| plays_wave(v, x);
        let h = |v: Voice| plays_wave(v, j);
        assert(some_voice(m, groups, f));
        lemma_voice_kept(m, songs, flags, f, h);
    }
    assert forall|j: int| 0 <= j < rt.len() implies #[trigger] rt[j] by {
        let x = lemma_kept_origin(m.keysplits, tf, m.keysplits.len() as int, j);
        lemma_rank_step(tf, x, m.keysplits.len() as int);
        let f = |v: Voice| looks_up(v, x);
        let h = |v: Voice| looks_up(v, j);
        assert(some_voice(m, groups, f));
        lemma_voice_kept(m, songs, flags, f, h);
    }
}

/// A subset holds nothing that its songs do not reach, so a subset of all its
/// songs, in their order, can be made and is that subset again.
pub proof fn a_subset_of_a_subset_is_itself(m: MusicModel, songs: Seq<usize>, all: Seq<usize>)
    requires
        sound(m, songs),
        countable(m, songs),
        in_turn(all, songs.len()),
    ensures
        sound(subset_of(m, songs), all),
        countable(subset_of(m, songs), all),
        subset_of(subset_of(m, songs), all) == subset_of(m, songs),
{
    let groups = group_flags(m, songs);
    let r = subset_of(m, songs);
    let flags = group_flags(r, all);
    let (rs, rw, rt) = (sample_flags(r, flags), wave_flags(r, flags), table_flags(r, flags));
    lemma_groups_reached(m, songs, all);
    lemma_all_played(m, songs, flags);
    subset_is_sound(m, songs);
    lemma_kept(m.voicegroups, groups, m.voicegroups.len() as int);
    lemma_kept(m.samples, sample_flags(m, groups), m.samples.len() as int);
    lemma_kept(m.waves, wave_flags(m, groups), m.waves.len() as int);
    lemma_kept(m.keysplits, table_flags(m, groups), m.keysplits.len() as int);
    lemma_all_set(r.voicegroups, flags, r.voicegroups.len() as int);
    lemma_all_set(r.samples, rs, r.samples.len() as int);
    lemma_all_set(r.waves, rw, r.waves.len() as int);
    lemma_all_set(r.keysplits, rt, r.keysplits.len() as int);
    assert(r.voicegroups.take(r.voicegroups.len() as int) =~= r.voicegroups);
    assert(r.samples.take(r.samples.len() as int) =~= r.samples);
    assert(r.waves.take(r.waves.len() as int) =~= r.waves);
    assert(r.keysplits.take(r.keysplits.len() as int) =~= r.keysplits);
    assert forall|k: int| 0 <= k < all.len() implies (#[trigger] r.songs[all[k] as int].voicegroup)
        < r.voicegroups.len() by {
        assert(all[k] == k);
        assert(r.songs[k].voicegroup < r.voicegroups.len());
    }
    assert forall|k: int| 0 <= k < all.len() implies (#[trigger] all[k]) < r.songs.len() by {}
    assert(sound(r, all));
    let again = subset_of(r, all);
    assert forall|g: int| 0 <= g < r.voicegroups.len() implies #[trigger] again.voicegroups[g]
        == r.voicegroups[g] by {
        let was = r.voicegroups[g];
        let now = renumbered_group(r, flags, was);
        assert forall|k: int| 0 <= k < was.entries.len() implies now.entries[k]
            == was.entries[k] by {
            assert(refers(r, r.voicegroups[g].entries[k]));
            match was.entries[k] {
                Voice::DirectSound { sample, .. } => lemma_all_set(r.samples, rs, sample as int),
                Voice::Wave { wave, .. } => lemma_all_set(r.waves, rw, wave as int),
                Voice::Keysplit { group, table } => {
                    lemma_all_set(r.voicegroups, flags, group as int);
                    lemma_all_set(r.keysplits, rt, table as int);
                },
                Voice::KeysplitAll { group } => {
                    lemma_all_set(r.voicegroups, flags, group as int);
                },
                _ => {},
            }
        }
        assert(now.entries =~= was.entries);
    }
    assert(again.voicegroups =~= r.voicegroups);
    assert forall|i: int| 0 <= i < r.songs.len() implies #[trigger] again.songs[i]
        == r.songs[i] by {
        assert(all[i] == i);
        assert(r.songs[i].voicegroup < r.voicegroups.len());
        lemma_all_set(r.voicegroups, flags, r.songs[i].voicegroup as int);
    }
    assert(again.songs =~= r.songs);
}

} // verus!
