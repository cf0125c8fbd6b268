//! Voices from their lines, the bank of samples and waves that they use, and
//! the songs: what makes up a music pack.

use vstd::prelude::*;
use crate::codec;
use crate::codec::Wire;
use crate::audio::data::{MusicModel, MusicPack, SampleData, SongData, Voice};
use crate::audio::subset;
use crate::musicgen::midi;
use crate::musicgen::midi::{scan_midi, Midi};
use crate::musicgen::source;
use crate::musicgen::source::{LabelMap, SongRow};
use crate::musicgen::wav;
use crate::musicgen::wav::{scan_wav, Wav};
use crate::text;
use crate::text::{
    contains, copy, find_last, parse_number, replace, starts_with, string_of, trim_start_matches,
    Text,
};

verus! {

/// The samples and waves so far, and the labels that they came under.
pub struct Bank {
    pub samples: Vec<SampleData>,
    pub sample_labels: Vec<Text>,
    pub waves: Vec<[u8; 32]>,
    pub wave_labels: Vec<Text>,
}

impl Bank {
    pub open spec fn wf(&self) -> bool {
        &&& self.samples@.len() == self.sample_labels@.len() <= u16::MAX
        &&& self.waves@.len() == self.wave_labels@.len() <= u16::MAX
    }

    pub fn new() -> (b: Bank)
        ensures
            b.wf(),
            b.samples@.len() == 0,
            b.waves@.len() == 0,
    {
        Bank {
            samples: Vec::new(),
            sample_labels: Vec::new(),
            waves: Vec::new(),
            wave_labels: Vec::new(),
        }
    }
}

// ---- voices --------------------------------------------------------------

/// The number of a name in an index: its last place, in 16 bits.
pub open spec fn number_of(names: Seq<Seq<char>>, name: Seq<char>) -> Option<u16> {
    match text::last_named(names, name, names.len() as int) {
        Some(i) => Some((i % 65536) as u16),
        None => None,
    }
}

/// An argument as a byte.
pub open spec fn byte_arg(args: Seq<Seq<char>>, i: int) -> Option<u8> {
    if 0 <= i < args.len() {
        match text::number(args[i], 10, 255) {
            Some(v) => Some(v as u8),
            None => None,
        }
    } else {
        None
    }
}

/// Four arguments as an envelope.
pub open spec fn envelope(args: Seq<Seq<char>>, i: int) -> Option<[u8; 4]> {
    match (byte_arg(args, i), byte_arg(args, i + 1), byte_arg(args, i + 2), byte_arg(args, i + 3)) {
        (Some(a), Some(d), Some(s), Some(r)) => Some([a, d, s, r]),
        _ => None,
    }
}

/// What a voice line may refer to.
#[verifier::ext_equal]
pub struct Names {
    pub groups: Seq<Seq<char>>,
    pub tables: Seq<Seq<char>>,
    pub samples: Seq<Seq<char>>,
    pub waves: Seq<Seq<char>>,
}

/// A drumset: every key a voice of the group.
pub open spec fn drumset(args: Seq<Seq<char>>, n: Names) -> Option<Voice> {
    if args.len() == 0 {
        None
    } else {
        match number_of(n.groups, text::without_prefixes(args[0], "voicegroup_"@)) {
            Some(group) => Some(Voice::KeysplitAll { group }),
            None => None,
        }
    }
}

pub open spec fn keysplit(args: Seq<Seq<char>>, n: Names) -> Option<Voice> {
    if args.len() < 2 {
        None
    } else {
        match (
            number_of(n.groups, text::without_prefixes(args[0], "voicegroup_"@)),
            number_of(n.tables, text::without_prefixes(args[1], "keysplit_"@)),
        ) {
            (Some(group), Some(table)) => Some(Voice::Keysplit { group, table }),
            _ => None,
        }
    }
}

pub open spec fn direct_sound(kind: Seq<char>, args: Seq<Seq<char>>, n: Names) -> Option<Voice> {
    if args.len() < 3 {
        None
    } else {
        match (
            number_of(n.samples, args[2]),
            byte_arg(args, 0),
            byte_arg(args, 1),
            envelope(args, 3),
        ) {
            (Some(sample), Some(base_key), Some(pan), Some(adsr)) => Some(
                Voice::DirectSound {
                    base_key,
                    pan,
                    sample,
                    adsr,
                    fixed: text::place(kind, "no_resample"@) is Some,
                },
            ),
            _ => None,
        }
    }
}

/// A square voice; the first channel has a sweep before its duty.
pub open spec fn square(args: Seq<Seq<char>>, swept: bool) -> Option<Voice> {
    let at: int = if swept {
        3
    } else {
        2
    };
    let sweep = if swept {
        byte_arg(args, 2)
    } else {
        Some(0u8)
    };
    match (
        byte_arg(args, 0),
        byte_arg(args, 1),
        sweep,
        byte_arg(args, at),
        envelope(args, at + 1),
    ) {
        (Some(base_key), Some(pan), Some(sweep), Some(duty), Some(adsr)) => Some(
            Voice::Square { base_key, pan, duty: (duty % 4) as u8, sweep, adsr },
        ),
        _ => None,
    }
}

pub open spec fn wave_voice(args: Seq<Seq<char>>, n: Names) -> Option<Voice> {
    if args.len() < 3 {
        None
    } else {
        match (
            number_of(n.waves, args[2]),
            byte_arg(args, 0),
            byte_arg(args, 1),
            envelope(args, 3),
        ) {
            (Some(wave), Some(base_key), Some(pan), Some(adsr)) => Some(
                Voice::Wave { base_key, pan, wave, adsr },
            ),
            _ => None,
        }
    }
}

pub open spec fn noise(args: Seq<Seq<char>>) -> Option<Voice> {
    match (byte_arg(args, 0), byte_arg(args, 1), byte_arg(args, 2), envelope(args, 3)) {
        (Some(base_key), Some(pan), Some(period), Some(adsr)) => Some(
            Voice::Noise { base_key, pan, period: (period % 2) as u8, adsr },
        ),
        _ => None,
    }
}

/// The voice of a line, by its kind; unsupported where the line names
/// something unknown, lacks a number, or is of another kind.
pub open spec fn voice_of(kind: Seq<char>, args: Seq<Seq<char>>, n: Names) -> Voice {
    let v = if text::has_prefix(kind, "voice_keysplit_all"@) {
        drumset(args, n)
    } else if text::has_prefix(kind, "voice_keysplit"@) {
        keysplit(args, n)
    } else if text::has_prefix(kind, "voice_directsound"@) {
        direct_sound(kind, args, n)
    } else if text::has_prefix(kind, "voice_square_1"@) {
        square(args, true)
    } else if text::has_prefix(kind, "voice_square_2"@) {
        square(args, false)
    } else if text::has_prefix(kind, "voice_programmable_wave"@) {
        wave_voice(args, n)
    } else if text::has_prefix(kind, "voice_noise"@) {
        noise(args)
    } else {
        None
    };
    match v {
        Some(x) => x,
        None => Voice::Unsupported,
    }
}

fn find_number(names: &Vec<Text>, name: &Text) -> (r: Option<u16>)
    ensures
        r == number_of(text::texts(names@), name@),
{
    assert(text::texts(names@).len() == names@.len());
    match find_last(names, name) {
        Some(i) => Some((i % 65536) as u16),
        None => None,
    }
}

fn byte_at(args: &Vec<Text>, i: usize) -> (r: Option<u8>)
    ensures
        r == byte_arg(text::texts(args@), i as int),
{
    if i < args.len() {
        match parse_number(&args[i], 10, 255) {
            Some(v) => Some(v as u8),
            None => None,
        }
    } else {
        None
    }
}

fn envelope_at(args: &Vec<Text>, i: usize) -> (r: Option<[u8; 4]>)
    requires
        i < 16,
    ensures
        r == envelope(text::texts(args@), i as int),
{
    let a = match byte_at(args, i) {
        Some(v) => v,
        None => return None,
    };
    let d = match byte_at(args, i + 1) {
        Some(v) => v,
        None => return None,
    };
    let s = match byte_at(args, i + 2) {
        Some(v) => v,
        None => return None,
    };
    let r = match byte_at(args, i + 3) {
        Some(v) => v,
        None => return None,
    };
    Some([a, d, s, r])
}

fn read_drumset(args: &Vec<Text>, groups: &Vec<Text>, Ghost(n): Ghost<Names>) -> (r: Option<Voice>)
    requires
        n.groups == text::texts(groups@),
    ensures
        r == drumset(text::texts(args@), n),
{
    if args.len() == 0 {
        return None;
    }
    proof {
        reveal_strlit("voicegroup_");
    }
    match find_number(groups, &trim_start_matches(&args[0], "voicegroup_")) {
        Some(group) => Some(Voice::KeysplitAll { group }),
        None => None,
    }
}

fn read_keysplit(
    args: &Vec<Text>,
    groups: &Vec<Text>,
    tables: &Vec<Text>,
    Ghost(n): Ghost<Names>,
) -> (r: Option<Voice>)
    requires
        n.groups == text::texts(groups@),
        n.tables == text::texts(tables@),
    ensures
        r == keysplit(text::texts(args@), n),
{
    if args.len() < 2 {
        return None;
    }
    proof {
        reveal_strlit("voicegroup_");
        reveal_strlit("keysplit_");
    }
    let group: u16 = match find_number(groups, &trim_start_matches(&args[0], "voicegroup_")) {
        Some(v) => v,
        None => return None,
    };
    match find_number(tables, &trim_start_matches(&args[1], "keysplit_")) {
        Some(table) => Some(Voice::Keysplit { group, table }),
        None => None,
    }
}

fn read_direct_sound(
    kind: &Text,
    args: &Vec<Text>,
    bank: &Bank,
    Ghost(n): Ghost<Names>,
) -> (r: Option<Voice>)
    requires
        n.samples == text::texts(bank.sample_labels@),
    ensures
        r == direct_sound(kind@, text::texts(args@), n),
{
    if args.len() < 3 {
        return None;
    }
    let fixed = contains(kind, "no_resample");
    match (
        find_number(&bank.sample_labels, &args[2]),
        byte_at(args, 0),
        byte_at(args, 1),
        envelope_at(args, 3),
    ) {
        (Some(sample), Some(base_key), Some(pan), Some(adsr)) => Some(
            Voice::DirectSound { base_key, pan, sample, adsr, fixed },
        ),
        _ => None,
    }
}

fn read_square(args: &Vec<Text>, swept: bool) -> (r: Option<Voice>)
    ensures
        r == square(text::texts(args@), swept),
{
    let at: usize = if swept { 3 } else { 2 };
    let sweep: Option<u8> = if swept { byte_at(args, 2) } else { Some(0) };
    match (
        byte_at(args, 0),
        byte_at(args, 1),
        sweep,
        byte_at(args, at),
        envelope_at(args, at + 1),
    ) {
        (Some(base_key), Some(pan), Some(sweep), Some(duty), Some(adsr)) => Some(
            Voice::Square { base_key, pan, duty: duty % 4, sweep, adsr },
        ),
        _ => None,
    }
}

fn read_wave(args: &Vec<Text>, bank: &Bank, Ghost(n): Ghost<Names>) -> (r: Option<Voice>)
    requires
        n.waves == text::texts(bank.wave_labels@),
    ensures
        r == wave_voice(text::texts(args@), n),
{
    if args.len() < 3 {
        return None;
    }
    match (
        find_number(&bank.wave_labels, &args[2]),
        byte_at(args, 0),
        byte_at(args, 1),
        envelope_at(args, 3),
    ) {
        (Some(wave), Some(base_key), Some(pan), Some(adsr)) => Some(
            Voice::Wave { base_key, pan, wave, adsr },
        ),
        _ => None,
    }
}

fn read_noise(args: &Vec<Text>) -> (r: Option<Voice>)
    ensures
        r == noise(text::texts(args@)),
{
    match (byte_at(args, 0), byte_at(args, 1), byte_at(args, 2), envelope_at(args, 3)) {
        (Some(base_key), Some(pan), Some(period), Some(adsr)) => Some(
            Voice::Noise { base_key, pan, period: period % 2, adsr },
        ),
        _ => None,
    }
}

pub open spec fn names(groups: Seq<Text>, tables: Seq<Text>, bank: Bank) -> Names {
    Names {
        groups: text::texts(groups),
        tables: text::texts(tables),
        samples: text::texts(bank.sample_labels@),
        waves: text::texts(bank.wave_labels@),
    }
}

/// The voice of a line. The samples and waves that it plays must be in the
/// bank by now (see `wanted`).
pub fn parse_voice(
    kind: &Text,
    args: &Vec<Text>,
    groups: &Vec<Text>,
    tables: &Vec<Text>,
    bank: &Bank,
) -> (v: Voice)
    ensures
        v == voice_of(kind@, text::texts(args@), names(groups@, tables@, *bank)),
{
    let ghost n = names(groups@, tables@, *bank);
    let v = if starts_with(kind, "voice_keysplit_all") {
        read_drumset(args, groups, Ghost(n))
    } else if starts_with(kind, "voice_keysplit") {
        read_keysplit(args, groups, tables, Ghost(n))
    } else if starts_with(kind, "voice_directsound") {
        read_direct_sound(kind, args, bank, Ghost(n))
    } else if starts_with(kind, "voice_square_1") {
        read_square(args, true)
    } else if starts_with(kind, "voice_square_2") {
        read_square(args, false)
    } else if starts_with(kind, "voice_programmable_wave") {
        read_wave(args, bank, Ghost(n))
    } else if starts_with(kind, "voice_noise") {
        read_noise(args)
    } else {
        None
    };
    match v {
        Some(x) => x,
        None => Voice::Unsupported,
    }
}

// ---- files that voices want ----------------------------------------------

/// A file that a voice needs in the bank first.
pub enum Want {
    Nothing,
    Sample { label: Text, path: Text },
    Wave { label: Text, path: Text },
}

/// Whether a line plays a sample (or a wave), whose label is its third
/// argument.
pub open spec fn sample_line(kind: Seq<char>) -> bool {
    !text::has_prefix(kind, "voice_keysplit"@) && text::has_prefix(kind, "voice_directsound"@)
}

pub open spec fn wave_line(kind: Seq<char>) -> bool {
    &&& !text::has_prefix(kind, "voice_keysplit"@)
    &&& !text::has_prefix(kind, "voice_directsound"@)
    &&& !text::has_prefix(kind, "voice_square_1"@)
    &&& !text::has_prefix(kind, "voice_square_2"@)
    &&& text::has_prefix(kind, "voice_programmable_wave"@)
}

/// The file to read before a line's voice is made: that of its label, unless
/// the bank has it or no file is known.
pub fn wanted(
    kind: &Text,
    args: &Vec<Text>,
    samples: &LabelMap,
    waves: &LabelMap,
    bank: &Bank,
) -> (w: Want)
    requires
        samples.wf(),
        waves.wf(),
    ensures
        ({
            let label = args@[2]@;
            let s = sample_line(kind@) && args@.len() > 2 && number_of(
                text::texts(bank.sample_labels@),
                label,
            ) is None && samples.path_of(label) is Some;
            let v = wave_line(kind@) && args@.len() > 2 && number_of(
                text::texts(bank.wave_labels@),
                label,
            ) is None && waves.path_of(label) is Some;
            match w {
                Want::Sample { label: l, path } => s && l@ == label && path@ == text::replaced(
                    samples.path_of(label)->0,
                    ".bin"@,
                    ".wav"@,
                ),
                Want::Wave { label: l, path } => v && l@ == label && path@ == waves.path_of(
                    label,
                )->0,
                Want::Nothing => !s && !v,
            }
        }),
{
    if starts_with(kind, "voice_keysplit") {
        return Want::Nothing;
    }
    if starts_with(kind, "voice_directsound") {
        if args.len() > 2 {
            let label = copy(&args[2]);
            if find_number(&bank.sample_labels, &label).is_none() {
                if let Some(rel) = samples.get(&label) {
                    proof {
                        reveal_strlit(".bin");
                    }
                    return Want::Sample { label, path: replace(&rel, ".bin", ".wav") };
                }
            }
        }
        return Want::Nothing;
    }
    if starts_with(kind, "voice_square_1") || starts_with(kind, "voice_square_2") {
        return Want::Nothing;
    }
    if starts_with(kind, "voice_programmable_wave") {
        if args.len() > 2 {
            let label = copy(&args[2]);
            if find_number(&bank.wave_labels, &label).is_none() {
                if let Some(path) = waves.get(&label) {
                    return Want::Wave { label, path };
                }
            }
        }
    }
    Want::Nothing
}

/// What came of a file that was put in the bank.
pub enum Added {
    Yes,
    /// The file holds no sample that plays.
    No,
    /// A chunk of the file is too short.
    Broken,
}

/// A wave pattern: the nibbles of the first sixteen bytes, the high one
/// first; zero where there are fewer.
pub open spec fn pattern(raw: Seq<u8>, i: int) -> u8 {
    if i / 2 < raw.len() {
        if i % 2 == 0 {
            (raw[i / 2] / 16) as u8
        } else {
            (raw[i / 2] % 16) as u8
        }
    } else {
        0
    }
}

impl Bank {
    /// Put the sample of a file in the bank under its label.
    pub fn add_sample(&mut self, label: &Text, d: &[u8]) -> (r: Added)
        requires
            old(self).wf(),
            old(self).samples@.len() < u16::MAX,
            d@.len() <= i64::MAX,
        ensures
            final(self).wf(),
            final(self).waves@ == old(self).waves@,
            final(self).wave_labels@ == old(self).wave_labels@,
            match wav::sample_of(d@) {
                wav::SampleResult::Sample { rate, loop_start, pcm } => {
                    &&& r is Yes
                    &&& final(self).samples@.len() == old(self).samples@.len() + 1
                    &&& final(self).samples@.drop_last() == old(self).samples@
                    &&& text::texts(final(self).sample_labels@) == text::texts(
                        old(self).sample_labels@,
                    ).push(label@)
                    &&& final(self).samples@.last().name@ == label@
                    &&& final(self).samples@.last().rate == rate
                    &&& final(self).samples@.last().loop_start == loop_start
                    &&& final(self).samples@.last().pcm@ == pcm
                },
                wav::SampleResult::Refused => r is No && *final(self) == *old(self),
                wav::SampleResult::Broken => r is Broken && *final(self) == *old(self),
            },
    {
        let name = string_of(label);
        match scan_wav(d, name.as_str()) {
            Wav::Sample(s) => {
                self.samples.push(s);
                let l = copy(label);
                self.sample_labels.push(l);
                assert(self.samples@.drop_last() =~= old(self).samples@);
                assert(text::texts(self.sample_labels@) =~= text::texts(
                    old(self).sample_labels@,
                ).push(label@));
                Added::Yes
            },
            Wav::Refused => Added::No,
            Wav::Broken => Added::Broken,
        }
    }

    /// Put the pattern of a file in the bank under its label.
    pub fn add_wave(&mut self, label: &Text, raw: &[u8])
        requires
            old(self).wf(),
            old(self).waves@.len() < u16::MAX,
        ensures
            final(self).wf(),
            final(self).samples@ == old(self).samples@,
            final(self).sample_labels@ == old(self).sample_labels@,
            final(self).waves@.len() == old(self).waves@.len() + 1,
            final(self).waves@.drop_last() == old(self).waves@,
            forall|i: int|
                0 <= i < 32 ==> #[trigger] final(self).waves@.last()@[i] == pattern(raw@, i),
            text::texts(final(self).wave_labels@) == text::texts(old(self).wave_labels@).push(
                label@,
            ),
    {
        let mut pat = [0u8; 32];
        let mut i: usize = 0;
        while i < 32
            invariant
                i <= 32,
                forall|k: int| 0 <= k < i ==> #[trigger] pat@[k] == pattern(raw@, k),
            decreases 32 - i,
        {
            let b: u8 = if i / 2 < raw.len() { raw[i / 2] } else { 0 };
            pat[i] = if i % 2 == 0 { b / 16 } else { b % 16 };
            i += 1;
        }
        self.waves.push(pat);
        let l = copy(label);
        self.wave_labels.push(l);
        assert(self.waves@.drop_last() =~= old(self).waves@);
        assert(text::texts(self.wave_labels@) =~= text::texts(old(self).wave_labels@).push(
            label@,
        ));
    }
}

// ---- songs ---------------------------------------------------------------

/// Music and sound effects: the songs that are kept.
pub open spec fn is_kept(name: Seq<char>) -> bool {
    text::has_prefix(name, "mus_"@) || text::has_prefix(name, "se_"@)
}

/// What became of a row of the song list.
pub enum Made {
    Song(SongData),
    Skipped,
    /// A number of the file is out of place.
    Broken,
}

/// The voicegroup of a row that is kept, if it is known.
pub fn row_group(row: &SongRow, groups: &Vec<Text>) -> (r: Option<u16>)
    ensures
        r == if is_kept(row.name@) {
            number_of(text::texts(groups@), row.group@)
        } else {
            None
        },
{
    if starts_with(&row.name, "mus_") || starts_with(&row.name, "se_") {
        find_number(groups, &row.group)
    } else {
        None
    }
}

/// Whether a row is kept at all; those that are not are not counted as
/// skipped.
pub fn row_kept(row: &SongRow) -> (b: bool)
    ensures
        b == is_kept(row.name@),
{
    starts_with(&row.name, "mus_") || starts_with(&row.name, "se_")
}

/// The song of a row, its voicegroup and the bytes of its file: skipped
/// where the file does not parse or no track of it sounds.
pub fn make_song(row: &SongRow, voicegroup: u16, d: &[u8]) -> (r: Made)
    requires
        d@.len() <= i64::MAX,
    ensures
        match midi::score_of(d@, row.volume) {
            midi::ScoreResult::Broken => r is Broken,
            midi::ScoreResult::Refused => r is Skipped,
            midi::ScoreResult::Parsed(s) => if s.tracks.len() == 0 {
                r is Skipped
            } else {
                &&& r matches Made::Song(x)
                &&& x.name@ == row.name@
                &&& x.voicegroup == voicegroup
                &&& x.master_volume == row.volume
                &&& x.reverb == row.reverb
                &&& x.division == s.division
                &&& x.tempos@ == s.tempos
                &&& x.loop_start == s.loop_start
                &&& x.loop_end == s.loop_end
                &&& midi::tracks_model(x.tracks@) == s.tracks
            },
        },
{
    match scan_midi(d, row.volume) {
        Midi::Broken => Made::Broken,
        Midi::Refused => Made::Skipped,
        Midi::Parsed((division, tempos, loop_start, loop_end, tracks)) => {
            if tracks.len() == 0 {
                return Made::Skipped;
            }
            Made::Song(
                SongData {
                    name: string_of(&row.name),
                    voicegroup,
                    master_volume: row.volume,
                    reverb: row.reverb,
                    division,
                    tempos,
                    loop_start,
                    loop_end,
                    tracks,
                },
            )
        },
    }
}

/// The songs whose names begin with a prefix, in order.
pub fn songs_named(pack: &MusicPack, prefix: &str) -> (out: Vec<usize>)
    ensures
        forall|i: int, j: int|
            0 <= i < j < out@.len() ==> (#[trigger] out@[i]) < (#[trigger] out@[j]),
        forall|k: usize|
            out@.contains(k) <==> k < pack.songs@.len() && text::has_prefix(
                pack.songs@[k as int].name@,
                prefix@,
            ),
{
    let mut out: Vec<usize> = Vec::new();
    let mut n: usize = 0;
    while n < pack.songs.len()
        invariant
            n <= pack.songs@.len(),
            forall|i: int, j: int|
                0 <= i < j < out@.len() ==> (#[trigger] out@[i]) < (#[trigger] out@[j]),
            forall|i: int| 0 <= i < out@.len() ==> (#[trigger] out@[i]) < n,
            forall|k: usize|
                out@.contains(k) <==> k < n && text::has_prefix(
                    pack.songs@[k as int].name@,
                    prefix@,
                ),
        decreases pack.songs.len() - n,
    {
        let ghost had = out@;
        if starts_with(&text::chars_of(pack.songs[n].name.as_str()), prefix) {
            out.push(n);
            assert forall|k: usize|
                out@.contains(k) <==> k < n + 1 && text::has_prefix(
                    pack.songs@[k as int].name@,
                    prefix@,
                ) by {
                if had.contains(k) {
                    let j = choose|j: int| 0 <= j < had.len() && had[j] == k;
                    assert(out@[j] == k);
                }
                assert(out@[had.len() as int] == n);
                if out@.contains(k) && k != n {
                    let j = choose|j: int| 0 <= j < out@.len() && out@[j] == k;
                    assert(had[j] == k);
                }
            }
        }
        n += 1;
    }
    out
}

// ---- laws ----------------------------------------------------------------

proof fn lemma_last_named(names: Seq<Seq<char>>, name: Seq<char>, n: int)
    requires
        0 <= n,
    ensures
        text::last_named(names, name, n) matches Some(i) ==> 0 <= i < n && names[i] == name,
    decreases n,
{
    if n > 0 {
        lemma_last_named(names, name, n - 1);
    }
}

/// The number of a name leads back to it.
pub proof fn lemma_number_of(names: Seq<Seq<char>>, name: Seq<char>)
    requires
        names.len() <= 65536,
    ensures
        number_of(names, name) matches Some(i) ==> i < names.len() && names[i as int] == name,
{
    lemma_last_named(names, name, names.len() as int);
}

/// Whether a voice names what there is.
pub open spec fn names_something(v: Voice, n: Names) -> bool {
    match v {
        Voice::DirectSound { sample, .. } => sample < n.samples.len(),
        Voice::Wave { wave, .. } => wave < n.waves.len(),
        Voice::Keysplit { group, table } => group < n.groups.len() && table < n.tables.len(),
        Voice::KeysplitAll { group } => group < n.groups.len(),
        _ => true,
    }
}

/// A voice that was made names a group, a table, a sample and a wave that
/// there is, wherever their numbers fit in 16 bits; and the sample or wave is
/// that of its label.
pub proof fn a_voice_names_what_there_is(kind: Seq<char>, args: Seq<Seq<char>>, n: Names)
    requires
        n.groups.len() <= 65536,
        n.tables.len() <= 65536,
        n.samples.len() <= 65536,
        n.waves.len() <= 65536,
    ensures
        names_something(voice_of(kind, args, n), n),
        direct_sound(kind, args, n) matches Some(Voice::DirectSound { sample, .. })
            ==> n.samples[sample as int] == args[2],
        wave_voice(args, n) matches Some(Voice::Wave { wave, .. }) ==> n.waves[wave as int]
            == args[2],
{
    assert(drumset(args, n) matches Some(v) ==> names_something(v, n)) by {
        if args.len() > 0 {
            lemma_number_of(n.groups, text::without_prefixes(args[0], "voicegroup_"@));
        }
    }
    assert(keysplit(args, n) matches Some(v) ==> names_something(v, n)) by {
        if args.len() >= 2 {
            lemma_number_of(n.groups, text::without_prefixes(args[0], "voicegroup_"@));
            lemma_number_of(n.tables, text::without_prefixes(args[1], "keysplit_"@));
        }
    }
    lemma_number_of(n.samples, args[2]);
    lemma_number_of(n.waves, args[2]);
    assert(direct_sound(kind, args, n) matches Some(v) ==> names_something(v, n));
    assert(wave_voice(args, n) matches Some(v) ==> names_something(v, n));
    assert(square(args, true) matches Some(v) ==> names_something(v, n));
    assert(square(args, false) matches Some(v) ==> names_something(v, n));
    assert(noise(args) matches Some(v) ==> names_something(v, n));
}

/// Whether every number anywhere in a pack names something in it, and the
/// lists can be numbered in 16 bits.
pub open spec fn all_in_range(m: MusicModel) -> bool {
    &&& m.samples.len() <= u16::MAX
    &&& m.waves.len() <= u16::MAX
    &&& m.keysplits.len() <= u16::MAX
    &&& m.voicegroups.len() <= u16::MAX
    &&& forall|s: int|
        0 <= s < m.songs.len() ==> (#[trigger] m.songs[s]).voicegroup < m.voicegroups.len()
    &&& forall|g: int, k: int|
        #![trigger m.voicegroups[g].entries[k]]
        0 <= g < m.voicegroups.len() && 0 <= k < m.voicegroups[g].entries.len()
            ==> subset::refers(m, m.voicegroups[g].entries[k])
}

/// A pack whose numbers are all in range can be cut down to any of its songs.
pub proof fn any_songs_can_be_kept(m: MusicModel, songs: Seq<usize>)
    requires
        all_in_range(m),
        forall|k: int| 0 <= k < songs.len() ==> (#[trigger] songs[k]) < m.songs.len(),
    ensures
        subset::sound(m, songs),
        subset::countable(m, songs),
{
    let groups = subset::group_flags(m, songs);
    subset::lemma_rank_bound(groups, groups.len() as int);
    subset::lemma_rank_bound(subset::sample_flags(m, groups), m.samples.len() as int);
    subset::lemma_rank_bound(subset::wave_flags(m, groups), m.waves.len() as int);
    subset::lemma_rank_bound(subset::table_flags(m, groups), m.keysplits.len() as int);
    assert forall|k: int| 0 <= k < songs.len() implies (
    #[trigger] m.songs[songs[k] as int].voicegroup) < m.voicegroups.len() by {
        assert(songs[k] < m.songs.len());
    }
}

/// Whether every number in a pack names something in it.
pub fn in_range(pack: &MusicPack) -> (b: bool)
    ensures
        b == all_in_range(pack.model()),
{
    let ghost m = pack.model();
    let top: usize = u16::MAX as usize;
    if pack.samples.len() > top || pack.waves.len() > top || pack.keysplits.len() > top
        || pack.voicegroups.len() > top {
        return false;
    }
    let mut s: usize = 0;
    while s < pack.songs.len()
        invariant
            s <= pack.songs@.len(),
            m == pack.model(),
            forall|k: int|
                0 <= k < s ==> (#[trigger] m.songs[k]).voicegroup < m.voicegroups.len(),
        decreases pack.songs.len() - s,
    {
        assert(m.songs[s as int] == pack.songs@[s as int].model());
        if pack.songs[s].voicegroup as usize >= pack.voicegroups.len() {
            return false;
        }
        s += 1;
    }
    let mut g: usize = 0;
    while g < pack.voicegroups.len()
        invariant
            g <= pack.voicegroups@.len(),
            m == pack.model(),
            forall|a: int, k: int|
                #![trigger m.voicegroups[a].entries[k]]
                0 <= a < g && 0 <= k < m.voicegroups[a].entries.len() ==> subset::refers(
                    m,
                    m.voicegroups[a].entries[k],
                ),
        decreases pack.voicegroups.len() - g,
    {
        let entries = &pack.voicegroups[g].entries;
        assert(m.voicegroups[g as int] == pack.voicegroups@[g as int].model());
        assert(m.voicegroups[g as int].entries =~= entries@);
        let mut k: usize = 0;
        while k < entries.len()
            invariant
                k <= entries@.len(),
                g < m.voicegroups.len(),
                m == pack.model(),
                m.voicegroups[g as int].entries == entries@,
                forall|j: int|
                    0 <= j < k ==> subset::refers(m, #[trigger] m.voicegroups[g as int].entries[j]),
            decreases entries.len() - k,
        {
            let ok = match entries[k] {
                Voice::DirectSound { base_key: _, pan: _, sample, adsr: _, fixed: _ } => (
                sample as usize) < pack.samples.len(),
                Voice::Wave { base_key: _, pan: _, wave, adsr: _ } => (wave as usize)
                    < pack.waves.len(),
                Voice::Keysplit { group, table } => (group as usize) < pack.voicegroups.len() && (
                table as usize) < pack.keysplits.len(),
                Voice::KeysplitAll { group } => (group as usize) < pack.voicegroups.len(),
                _ => true,
            };
            assert(ok == subset::refers(m, m.voicegroups[g as int].entries[k as int]));
            if !ok {
                return false;
            }
            k += 1;
        }
        g += 1;
    }
    true
}

} // verus!
