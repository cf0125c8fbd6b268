//! The whole extraction: from the sources of the sound to the music pack.

use vstd::prelude::*;
use crate::audio::data::{
    GroupModel, KeysplitModel, KeysplitTable, MusicModel, MusicPack, SampleModel, SongData,
    SongModel, Voice, VoiceGroup,
};
use crate::audio::subset;
use crate::codec;
use crate::codec::Wire;
use crate::files::Files;
use crate::musicgen::bank;
use crate::musicgen::bank::{
    make_song, parse_voice, row_group, row_kept, wanted, Added, Bank, Made, Names, Want,
};
use crate::musicgen::midi;
use crate::musicgen::source;
use crate::musicgen::source::{
    parse_incbin_labels, parse_keysplits, parse_midi_cfg, parse_voicegroup, LabelMap, Labels, Line,
    RawGroup, RawModel, Row, SongRow,
};
use crate::musicgen::wav;
use crate::musicgen::wav::{scan_wav, Wav};
use crate::text;
use crate::text::{append, chars_of, copy, string_of, Text};

verus! {

/// The text files of the sound sources. The voicegroup files come in the order
/// in which their groups are numbered.
pub struct Sources {
    pub keysplits: String,
    pub samples: String,
    pub waves: String,
    pub groups: Vec<String>,
    pub songs: String,
}

/// What the voice lines refer to.
pub struct Context {
    pub groups: Seq<Seq<char>>,
    pub tables: Seq<Seq<char>>,
    pub samples: Labels,
    pub waves: Labels,
    pub files: Files,
}

/// A bank as a value.
#[verifier::ext_equal]
pub struct BankModel {
    pub samples: Seq<SampleModel>,
    pub sample_labels: Seq<Seq<char>>,
    pub waves: Seq<Seq<u8>>,
    pub wave_labels: Seq<Seq<char>>,
}

pub open spec fn bank_model(b: Bank) -> BankModel {
    BankModel {
        samples: codec::models(b.samples@),
        sample_labels: text::texts(b.sample_labels@),
        waves: codec::models(b.waves@),
        wave_labels: text::texts(b.wave_labels@),
    }
}

pub open spec fn empty_bank() -> BankModel {
    BankModel { samples: seq![], sample_labels: seq![], waves: seq![], wave_labels: seq![] }
}

/// The labels of a text.
pub open spec fn labels_of(s: Seq<char>) -> Labels {
    source::after_label_lines(text::lines(s), text::lines(s).len() as int)
}

/// The file of a label.
pub open spec fn path_in(l: Labels, name: Seq<char>) -> Option<Seq<char>> {
    match text::last_named(l.names, name, l.names.len() as int) {
        Some(i) => Some(l.paths[i]),
        None => None,
    }
}

// ---- voices --------------------------------------------------------------

/// The file of the sample that a line plays, unless the bank has it.
pub open spec fn sample_path(b: BankModel, l: Line, c: Context) -> Option<Seq<char>> {
    if bank::sample_line(l.kind) && l.args.len() > 2 && bank::number_of(b.sample_labels, l.args[2])
        is None {
        match path_in(c.samples, l.args[2]) {
            Some(p) => Some(text::replaced(p, ".bin"@, ".wav"@)),
            None => None,
        }
    } else {
        None
    }
}

/// The file of the wave that a line plays, unless the bank has it.
pub open spec fn wave_path(b: BankModel, l: Line, c: Context) -> Option<Seq<char>> {
    if bank::wave_line(l.kind) && l.args.len() > 2 && bank::number_of(b.wave_labels, l.args[2])
        is None {
        path_in(c.waves, l.args[2])
    } else {
        None
    }
}

/// A bank with the sample of a file: as before where the file is missing or
/// holds none; nothing where the file is broken or the bank is full.
pub open spec fn with_sample(b: BankModel, label: Seq<char>, file: Option<Seq<u8>>) -> Option<
    BankModel,
> {
    match file {
        None => Some(b),
        Some(d) => match wav::sample_of(d) {
            wav::SampleResult::Sample { rate, loop_start, pcm } => if b.samples.len() < u16::MAX {
                Some(
                    BankModel {
                        samples: b.samples.push(SampleModel { name: label, rate, loop_start, pcm }),
                        sample_labels: b.sample_labels.push(label),
                        ..b
                    },
                )
            } else {
                None
            },
            wav::SampleResult::Refused => Some(b),
            wav::SampleResult::Broken => None,
        },
    }
}

/// A bank with the wave of a file, if there is one and the bank is not full.
pub open spec fn with_wave(b: BankModel, label: Seq<char>, file: Option<Seq<u8>>) -> Option<
    BankModel,
> {
    match file {
        None => Some(b),
        Some(raw) => if b.waves.len() < u16::MAX {
            Some(
                BankModel {
                    waves: b.waves.push(Seq::new(32, |i: int| bank::pattern(raw, i))),
                    wave_labels: b.wave_labels.push(label),
                    ..b
                },
            )
        } else {
            None
        },
    }
}

/// The bank once it has what a line plays.
pub open spec fn after_line(b: BankModel, l: Line, c: Context) -> Option<BankModel> {
    match (sample_path(b, l, c), wave_path(b, l, c)) {
        (Some(p), _) => with_sample(b, l.args[2], c.files.file(p)),
        (None, Some(p)) => with_wave(b, l.args[2], c.files.file(p)),
        (None, None) => Some(b),
    }
}

pub open spec fn names_in(b: BankModel, c: Context) -> Names {
    Names { groups: c.groups, tables: c.tables, samples: b.sample_labels, waves: b.wave_labels }
}

/// The bank and the voices after the first `n` lines of a group.
pub open spec fn after_lines(b: BankModel, ls: Seq<Line>, n: int, c: Context) -> Option<
    (BankModel, Seq<Voice>),
>
    decreases n,
{
    if n <= 0 {
        Some((b, seq![]))
    } else {
        match after_lines(b, ls, n - 1, c) {
            None => None,
            Some((had, voices)) => match after_line(had, ls[n - 1], c) {
                None => None,
                Some(now) => Some(
                    (
                        now,
                        voices.push(
                            bank::voice_of(ls[n - 1].kind, ls[n - 1].args, names_in(now, c)),
                        ),
                    ),
                ),
            },
        }
    }
}

/// The bank and the voicegroups after the first `n` files.
pub open spec fn after_groups(gs: Seq<RawModel>, n: int, c: Context) -> Option<
    (BankModel, Seq<GroupModel>),
>
    decreases n,
{
    if n <= 0 {
        Some((empty_bank(), seq![]))
    } else {
        match after_groups(gs, n - 1, c) {
            None => None,
            Some((had, groups)) => {
                let g = gs[n - 1];
                match after_lines(had, g.entries, g.entries.len() as int, c) {
                    None => None,
                    Some((now, entries)) => Some(
                        (
                            now,
                            groups.push(
                                GroupModel { name: g.name->0, offset: g.offset as u16, entries },
                            ),
                        ),
                    ),
                }
            },
        }
    }
}

/// The groups among the first `n` files: those that give themselves a name.
pub open spec fn named_groups(texts: Seq<String>, n: int) -> Seq<RawModel>
    decreases n,
{
    if n <= 0 {
        seq![]
    } else {
        let ls = text::lines(texts[n - 1]@);
        let g = source::after_group_lines(ls, ls.len() as int);
        if g.name is Some {
            named_groups(texts, n - 1).push(g)
        } else {
            named_groups(texts, n - 1)
        }
    }
}

pub open spec fn group_names(gs: Seq<RawModel>) -> Seq<Seq<char>> {
    Seq::new(gs.len(), |i: int| gs[i].name->0)
}

// ---- songs ---------------------------------------------------------------

/// Where the file of a song lies.
pub open spec fn midi_path(name: Seq<char>) -> Seq<char> {
    "sound/songs/midi/"@ + name + ".mid"@
}

/// What a row of the song list comes to.
pub enum Outcome {
    /// Neither music nor an effect.
    Ignored,
    /// No such voicegroup, no such file, or nothing in it that sounds.
    Skipped,
    Broken,
    Song(SongModel),
}

pub open spec fn outcome(r: Row, groups: Seq<Seq<char>>, f: Files) -> Outcome {
    if !bank::is_kept(r.name) {
        Outcome::Ignored
    } else {
        match (bank::number_of(groups, r.group), f.file(midi_path(r.name))) {
            (Some(voicegroup), Some(d)) => match midi::score_of(d, r.volume as u8) {
                midi::ScoreResult::Broken => Outcome::Broken,
                midi::ScoreResult::Refused => Outcome::Skipped,
                midi::ScoreResult::Parsed(s) => if s.tracks.len() == 0 {
                    Outcome::Skipped
                } else {
                    Outcome::Song(
                        SongModel {
                            name: r.name,
                            voicegroup,
                            master_volume: r.volume as u8,
                            reverb: r.reverb as u8,
                            division: s.division,
                            tempos: s.tempos,
                            loop_start: s.loop_start,
                            loop_end: s.loop_end,
                            tracks: s.tracks,
                        },
                    )
                },
            },
            _ => Outcome::Skipped,
        }
    }
}

/// The songs of the first `n` rows and how many were skipped; nothing where a
/// file is broken.
pub open spec fn after_rows(rows: Seq<Row>, n: int, groups: Seq<Seq<char>>, f: Files) -> Option<
    (Seq<SongModel>, int),
>
    decreases n,
{
    if n <= 0 {
        Some((seq![], 0))
    } else {
        match after_rows(rows, n - 1, groups, f) {
            None => None,
            Some((songs, skipped)) => match outcome(rows[n - 1], groups, f) {
                Outcome::Ignored => Some((songs, skipped)),
                Outcome::Skipped => Some((songs, skipped + 1)),
                Outcome::Broken => None,
                Outcome::Song(s) => Some((songs.push(s), skipped)),
            },
        }
    }
}

// ---- the pack ------------------------------------------------------------

/// The keysplit tables of a text.
pub open spec fn tables_of(s: source::Splits) -> Seq<KeysplitModel> {
    Seq::new(
        s.heads.len(),
        |i: int|
            KeysplitModel {
                name: s.heads[i].name,
                map: Seq::new(128, |k: int| source::split_at(s, s.heads[i], k)),
            },
    )
}

pub open spec fn table_names(s: source::Splits) -> Seq<Seq<char>> {
    Seq::new(s.heads.len(), |i: int| s.heads[i].name)
}

/// The pack that the sources stand for and how many songs were skipped;
/// nothing where a table, a sample or a song is broken.
pub open spec fn extracted(src: Sources, f: Files) -> Option<(MusicModel, int)> {
    let ls = text::lines(src.keysplits@);
    match source::after_split_lines(ls, ls.len() as int) {
        None => None,
        Some(splits) => {
            let gs = named_groups(src.groups@, src.groups@.len() as int);
            let c = Context {
                groups: group_names(gs),
                tables: table_names(splits),
                samples: labels_of(src.samples@),
                waves: labels_of(src.waves@),
                files: f,
            };
            let rows = source::rows_of(
                text::lines(src.songs@),
                text::lines(src.songs@).len() as int,
            );
            match (
                after_groups(gs, gs.len() as int, c),
                after_rows(rows, rows.len() as int, c.groups, f),
            ) {
                (Some((b, voicegroups)), Some((songs, skipped))) => Some(
                    (
                        MusicModel {
                            samples: b.samples,
                            waves: b.waves,
                            keysplits: tables_of(splits),
                            voicegroups,
                            songs,
                        },
                        skipped,
                    ),
                ),
                _ => None,
            }
        },
    }
}

/// What an extraction gives.
pub struct Extracted {
    pub pack: MusicPack,
    pub skipped: u64,
}

/// What the lines of voices are read with.
struct Reader<'a> {
    groups: Vec<Text>,
    tables: Vec<Text>,
    samples: LabelMap,
    waves: LabelMap,
    files: &'a Files,
}

impl<'a> Reader<'a> {
    spec fn holds(&self, c: Context) -> bool {
        &&& self.samples.wf()
        &&& self.waves.wf()
        &&& self.files.wf()
        &&& c.groups == text::texts(self.groups@)
        &&& c.tables == text::texts(self.tables@)
        &&& c.samples.names == text::texts(self.samples.names@)
        &&& c.samples.paths == text::texts(self.samples.paths@)
        &&& c.waves.names == text::texts(self.waves.names@)
        &&& c.waves.paths == text::texts(self.waves.paths@)
        &&& c.files == *self.files
    }

    proof fn lemma_paths(&self, c: Context, name: Seq<char>)
        requires
            self.holds(c),
        ensures
            self.samples.path_of(name) == path_in(c.samples, name),
            self.waves.path_of(name) == path_in(c.waves, name),
    {
        lemma_place(c.samples.names, name, c.samples.names.len() as int);
        lemma_place(c.waves.names, name, c.waves.names.len() as int);
    }

    /// Put into the bank what a line plays.
    fn fill(&self, b: &mut Bank, kind: &Text, args: &Vec<Text>, Ghost(c): Ghost<Context>) -> (ok:
        bool)
        requires
            self.holds(c),
            old(b).wf(),
        ensures
            final(b).wf(),
            match after_line(
                bank_model(*old(b)),
                Line { kind: kind@, args: text::texts(args@) },
                c,
            ) {
                None => !ok,
                Some(m) => ok && bank_model(*final(b)) == m,
            },
    {
        let ghost was = bank_model(*b);
        let ghost l = Line { kind: kind@, args: text::texts(args@) };
        proof {
            if l.args.len() > 2 {
                self.lemma_paths(c, l.args[2]);
            }
            assert(bank::sample_line(kind@) ==> !bank::wave_line(kind@));
        }
        match wanted(kind, args, &self.samples, &self.waves, b) {
            Want::Nothing => true,
            Want::Sample { label, path } => match self.files.get(&path) {
                None => true,
                Some(d) => {
                    if b.samples.len() >= u16::MAX as usize {
                        let name = string_of(&label);
                        return match scan_wav(d.as_slice(), name.as_str()) {
                            Wav::Refused => true,
                            _ => false,
                        };
                    }
                    match b.add_sample(&label, d.as_slice()) {
                        Added::Yes => {
                            assert(bank_model(*b).samples =~= was.samples.push(
                                b.samples@.last().model(),
                            ));
                            assert(bank_model(*b) =~= with_sample(was, label@, Some(d@))->0);
                            true
                        },
                        Added::No => true,
                        Added::Broken => false,
                    }
                },
            },
            Want::Wave { label, path } => match self.files.get(&path) {
                None => true,
                Some(raw) => {
                    if b.waves.len() >= u16::MAX as usize {
                        return false;
                    }
                    b.add_wave(&label, raw.as_slice());
                    proof {
                        let p = Seq::new(32, |i: int| bank::pattern(raw@, i));
                        assert(b.waves@.last()@ =~= p);
                        assert(bank_model(*b).waves =~= was.waves.push(p));
                        assert(bank_model(*b) =~= with_wave(was, label@, Some(raw@))->0);
                    }
                    true
                },
            },
        }
    }

    /// The voices of a group.
    fn voices(&self, b: &mut Bank, g: &RawGroup, Ghost(c): Ghost<Context>) -> (r: Option<Vec<Voice>>)
        requires
            self.holds(c),
            old(b).wf(),
        ensures
            final(b).wf(),
            match after_lines(
                bank_model(*old(b)),
                source::raw_voices(g.entries@),
                g.entries@.len() as int,
                c,
            ) {
                None => r is None,
                Some((m, vs)) => r is Some && r->0@ == vs && bank_model(*final(b)) == m,
            },
    {
        let ghost start = bank_model(*b);
        let ghost ls = source::raw_voices(g.entries@);
        let mut out: Vec<Voice> = Vec::new();
        let mut n: usize = 0;
        while n < g.entries.len()
            invariant
                n <= g.entries@.len(),
                self.holds(c),
                b.wf(),
                start == bank_model(*old(b)),
                ls == source::raw_voices(g.entries@),
                after_lines(start, ls, n as int, c) == Some((bank_model(*b), out@)),
            decreases g.entries.len() - n,
        {
            let e = &g.entries[n];
            assert(ls[n as int] == e.model());
            if !self.fill(b, &e.kind, &e.args, Ghost(c)) {
                proof {
                    lemma_lines_stop(start, ls, n + 1, g.entries@.len() as int, c);
                }
                return None;
            }
            assert(bank::names(self.groups@, self.tables@, *b) =~= names_in(bank_model(*b), c));
            out.push(parse_voice(&e.kind, &e.args, &self.groups, &self.tables, b));
            n += 1;
        }
        Some(out)
    }
}

proof fn lemma_place(names: Seq<Seq<char>>, name: Seq<char>, n: int)
    ensures
        text::last_named(names, name, n) matches Some(i) ==> 0 <= i < n,
    decreases n,
{
    if n > 0 {
        lemma_place(names, name, n - 1);
    }
}

proof fn lemma_lines_stop(b: BankModel, ls: Seq<Line>, m: int, n: int, c: Context)
    requires
        0 <= m <= n,
        after_lines(b, ls, m, c) is None,
    ensures
        after_lines(b, ls, n, c) is None,
    decreases n,
{
    if m < n {
        lemma_lines_stop(b, ls, m, n - 1, c);
    }
}

proof fn lemma_groups_stop(gs: Seq<RawModel>, m: int, n: int, c: Context)
    requires
        0 <= m <= n,
        after_groups(gs, m, c) is None,
    ensures
        after_groups(gs, n, c) is None,
    decreases n,
{
    if m < n {
        lemma_groups_stop(gs, m, n - 1, c);
    }
}

proof fn lemma_rows_stop(rows: Seq<Row>, m: int, n: int, groups: Seq<Seq<char>>, f: Files)
    requires
        0 <= m <= n,
        after_rows(rows, m, groups, f) is None,
    ensures
        after_rows(rows, n, groups, f) is None,
    decreases n,
{
    if m < n {
        lemma_rows_stop(rows, m, n - 1, groups, f);
    }
}

/// A group as a value.
pub open spec fn group_model(g: RawGroup) -> RawModel {
    RawModel {
        name: Some(g.name@),
        offset: g.offset as int,
        entries: source::raw_voices(g.entries@),
    }
}

pub open spec fn group_models(gs: Seq<RawGroup>) -> Seq<RawModel> {
    Seq::new(gs.len(), |i: int| group_model(gs[i]))
}

fn read_groups(texts: &Vec<String>) -> (gs: Vec<RawGroup>)
    ensures
        group_models(gs@) == named_groups(texts@, texts@.len() as int),
{
    let mut gs: Vec<RawGroup> = Vec::new();
    let mut n: usize = 0;
    assert(group_models(gs@) =~= seq![]);
    while n < texts.len()
        invariant
            n <= texts@.len(),
            group_models(gs@) == named_groups(texts@, n as int),
        decreases texts.len() - n,
    {
        let ghost ls = text::lines(texts@[n as int]@);
        let ghost m = source::after_group_lines(ls, ls.len() as int);
        if let Some(g) = parse_voicegroup(texts[n].as_str()) {
            let ghost was = group_models(gs@);
            assert(group_model(g) =~= m);
            gs.push(g);
            assert(group_models(gs@) =~= was.push(m));
        }
        n += 1;
    }
    gs
}

fn names_of_groups(gs: &Vec<RawGroup>) -> (names: Vec<Text>)
    ensures
        text::texts(names@) == group_names(group_models(gs@)),
{
    let mut names: Vec<Text> = Vec::new();
    let mut n: usize = 0;
    while n < gs.len()
        invariant
            n <= gs@.len(),
            names@.len() == n,
            forall|i: int| 0 <= i < n ==> (#[trigger] names@[i])@ == gs@[i].name@,
        decreases gs.len() - n,
    {
        names.push(copy(&gs[n].name));
        n += 1;
    }
    assert(text::texts(names@) =~= group_names(group_models(gs@)));
    names
}

fn names_of_tables(ts: &Vec<KeysplitTable>) -> (names: Vec<Text>)
    ensures
        text::texts(names@) == Seq::new(ts@.len(), |i: int| ts@[i].name@),
{
    let mut names: Vec<Text> = Vec::new();
    let mut n: usize = 0;
    while n < ts.len()
        invariant
            n <= ts@.len(),
            names@.len() == n,
            forall|i: int| 0 <= i < n ==> (#[trigger] names@[i])@ == ts@[i].name@,
        decreases ts.len() - n,
    {
        names.push(chars_of(ts[n].name.as_str()));
        n += 1;
    }
    assert(text::texts(names@) =~= Seq::new(ts@.len(), |i: int| ts@[i].name@));
    names
}

fn path_of_song(name: &Text) -> (p: Text)
    ensures
        p@ == midi_path(name@),
{
    let mut p = chars_of("sound/songs/midi/");
    append(&mut p, name);
    append(&mut p, &chars_of(".mid"));
    p
}

fn read_songs(rows: &Vec<SongRow>, groups: &Vec<Text>, f: &Files, Ghost(all): Ghost<Seq<Row>>) -> (r:
    Option<(Vec<SongData>, u64)>)
    requires
        f.wf(),
        all.len() == rows@.len(),
        forall|i: int| 0 <= i < rows@.len() ==> (#[trigger] rows@[i]).model() == all[i],
    ensures
        match after_rows(all, all.len() as int, text::texts(groups@), *f) {
            None => r is None,
            Some((songs, skipped)) => r is Some && codec::models((r->0).0@) == songs && (r->0).1
                == skipped,
        },
{
    let ghost gs = text::texts(groups@);
    let mut out: Vec<SongData> = Vec::new();
    let mut skipped: u64 = 0;
    let mut n: usize = 0;
    assert(codec::models(out@) =~= seq![]);
    while n < rows.len()
        invariant
            n <= rows@.len(),
            skipped <= n,
            f.wf(),
            gs == text::texts(groups@),
            all.len() == rows@.len(),
            forall|i: int| 0 <= i < rows@.len() ==> (#[trigger] rows@[i]).model() == all[i],
            after_rows(all, n as int, gs, *f) == Some((codec::models(out@), skipped as int)),
        decreases rows.len() - n,
    {
        let row = &rows[n];
        assert(row.model() == all[n as int]);
        if row_kept(row) {
            let path = path_of_song(&row.name);
            match (row_group(row, groups), f.get(&path)) {
                (Some(voicegroup), Some(d)) => match make_song(row, voicegroup, d.as_slice()) {
                    Made::Song(s) => {
                        let ghost was = codec::models(out@);
                        let ghost m = s.model();
                        proof {
                            assert forall|i: int| 0 <= i < m.tracks.len() implies m.tracks[i]
                                == midi::tracks_model(s.tracks@)[i] by {
                                assert(m.tracks[i] =~= s.tracks@[i]@);
                            }
                            assert(m.tracks =~= midi::tracks_model(s.tracks@));
                            assert(outcome(all[n as int], gs, *f) == Outcome::Song(m)) by {
                                let o = outcome(all[n as int], gs, *f);
                                assert(o is Song);
                                assert(o->Song_0 =~= m);
                            }
                        }
                        out.push(s);
                        assert(codec::models(out@) =~= was.push(m));
                    },
                    Made::Skipped => {
                        skipped += 1;
                    },
                    Made::Broken => {
                        proof {
                            lemma_rows_stop(all, n + 1, all.len() as int, gs, *f);
                        }
                        return None;
                    },
                },
                _ => {
                    skipped += 1;
                },
            }
        }
        n += 1;
    }
    Some((out, skipped))
}

fn read_voices(r: &Reader<'_>, gs: &Vec<RawGroup>, Ghost(c): Ghost<Context>) -> (out: Option<
    (Bank, Vec<VoiceGroup>),
>)
    requires
        r.holds(c),
    ensures
        match after_groups(group_models(gs@), gs@.len() as int, c) {
            None => out is None,
            Some((b, vgs)) => out is Some && bank_model((out->0).0) == b && codec::models(
                (out->0).1@,
            ) == vgs,
        },
{
    let ghost all = group_models(gs@);
    let mut b = Bank::new();
    let mut vgs: Vec<VoiceGroup> = Vec::new();
    let mut n: usize = 0;
    proof {
        assert(b.sample_labels@.len() == 0);
        assert(bank_model(b) =~= empty_bank());
        assert(codec::models(vgs@) =~= seq![]);
    }
    while n < gs.len()
        invariant
            n <= gs@.len(),
            r.holds(c),
            b.wf(),
            all == group_models(gs@),
            after_groups(all, n as int, c) == Some((bank_model(b), codec::models(vgs@))),
        decreases gs.len() - n,
    {
        let g = &gs[n];
        assert(all[n as int] == group_model(*g));
        match r.voices(&mut b, g, Ghost(c)) {
            None => {
                proof {
                    lemma_groups_stop(all, n + 1, gs@.len() as int, c);
                }
                return None;
            },
            Some(entries) => {
                let ghost was = codec::models(vgs@);
                let v = VoiceGroup { name: string_of(&g.name), offset: g.offset, entries };
                let ghost m = v.model();
                assert(m.entries =~= entries@);
                vgs.push(v);
                assert(codec::models(vgs@) =~= was.push(m));
            },
        }
        n += 1;
    }
    Some((b, vgs))
}

/// The music pack of the sources, whose samples, waves and songs are among the
/// files.
pub fn extract(src: &Sources, files: &Files) -> (r: Option<Extracted>)
    requires
        files.wf(),
    ensures
        match extracted(*src, *files) {
            None => r is None,
            Some((m, skipped)) => r is Some && r->0.pack.model() == m && r->0.skipped == skipped,
        },
{
    let keysplits = match parse_keysplits(src.keysplits.as_str()) {
        Some(k) => k,
        None => return None,
    };
    let ghost ls = text::lines(src.keysplits@);
    let ghost splits = source::after_split_lines(ls, ls.len() as int)->0;
    let gs = read_groups(&src.groups);
    let reader = Reader {
        groups: names_of_groups(&gs),
        tables: names_of_tables(&keysplits),
        samples: parse_incbin_labels(src.samples.as_str()),
        waves: parse_incbin_labels(src.waves.as_str()),
        files,
    };
    let ghost c = Context {
        groups: group_names(group_models(gs@)),
        tables: table_names(splits),
        samples: labels_of(src.samples@),
        waves: labels_of(src.waves@),
        files: *files,
    };
    proof {
        assert(c.tables =~= text::texts(reader.tables@));
        assert(group_models(gs@).len() == gs@.len());
    }
    let made = read_voices(&reader, &gs, Ghost(c));
    let rows = parse_midi_cfg(src.songs.as_str());
    let ghost all = source::rows_of(text::lines(src.songs@), text::lines(src.songs@).len() as int);
    let songs = read_songs(&rows, &reader.groups, files, Ghost(all));
    match (made, songs) {
        (Some((b, voicegroups)), Some((songs, skipped))) => {
            let pack = MusicPack {
                samples: b.samples,
                waves: b.waves,
                keysplits,
                voicegroups,
                songs,
            };
            proof {
                assert forall|i: int| 0 <= i < keysplits@.len() implies codec::models(
                    keysplits@,
                )[i] == tables_of(splits)[i] by {
                    assert(keysplits@[i].map@ =~= tables_of(splits)[i].map);
                }
                assert(pack.model().keysplits =~= tables_of(splits));
                assert(pack.model() =~= (extracted(*src, *files)->0).0);
            }
            Some(Extracted { pack, skipped })
        },
        _ => None,
    }
}

// ---- laws ----------------------------------------------------------------

/// Whether a bank has a label for each of its items, and a number.
pub open spec fn is_numbered(b: BankModel) -> bool {
    &&& b.samples.len() == b.sample_labels.len() <= u16::MAX
    &&& b.waves.len() == b.wave_labels.len() <= u16::MAX
}

/// Whether a bank holds at least as much as another.
pub open spec fn covers(b: BankModel, a: BankModel) -> bool {
    a.samples.len() <= b.samples.len() && a.waves.len() <= b.waves.len()
}

proof fn lemma_lines_in_range(b: BankModel, ls: Seq<Line>, n: int, c: Context)
    requires
        is_numbered(b),
        c.groups.len() <= u16::MAX,
        c.tables.len() <= u16::MAX,
    ensures
        after_lines(b, ls, n, c) matches Some((m, vs)) ==> {
            &&& is_numbered(m)
            &&& covers(m, b)
            &&& forall|k: int| 0 <= k < vs.len() ==> bank::names_something(#[trigger] vs[k], names_in(m, c))
        },
    decreases n,
{
    if n > 0 {
        lemma_lines_in_range(b, ls, n - 1, c);
        if let Some((had, vs)) = after_lines(b, ls, n - 1, c) {
            if let Some(now) = after_line(had, ls[n - 1], c) {
                bank::a_voice_names_what_there_is(
                    ls[n - 1].kind,
                    ls[n - 1].args,
                    names_in(now, c),
                );
            }
        }
    }
}

/// Whether every voice of the groups names what a bank has.
pub open spec fn all_named(gs: Seq<GroupModel>, b: BankModel, c: Context) -> bool {
    forall|g: int, k: int|
        #![trigger gs[g].entries[k]]
        0 <= g < gs.len() && 0 <= k < gs[g].entries.len() ==> bank::names_something(
            gs[g].entries[k],
            names_in(b, c),
        )
}

proof fn lemma_groups_in_range(gs: Seq<RawModel>, n: int, c: Context)
    requires
        0 <= n,
        c.groups.len() <= u16::MAX,
        c.tables.len() <= u16::MAX,
    ensures
        after_groups(gs, n, c) matches Some((m, vgs)) ==> {
            &&& is_numbered(m)
            &&& vgs.len() == n
            &&& all_named(vgs, m, c)
        },
    decreases n,
{
    if n > 0 {
        lemma_groups_in_range(gs, n - 1, c);
        if let Some((had, vgs)) = after_groups(gs, n - 1, c) {
            let g = gs[n - 1];
            lemma_lines_in_range(had, g.entries, g.entries.len() as int, c);
            if let Some((m, all)) = after_groups(gs, n, c) {
                let vs = all.last().entries;
                assert forall|x: int, k: int|
                    #![trigger all[x].entries[k]]
                    0 <= x < all.len() && 0 <= k < all[x].entries.len() implies bank::names_something(
                    all[x].entries[k],
                    names_in(m, c),
                ) by {
                    if x < vgs.len() {
                        assert(all[x] == vgs[x]);
                        assert(bank::names_something(vgs[x].entries[k], names_in(had, c)));
                    } else {
                        assert(all[x].entries[k] == vs[k]);
                    }
                }
            }
        }
    }
}

proof fn lemma_songs_in_range(rows: Seq<Row>, n: int, groups: Seq<Seq<char>>, f: Files)
    requires
        groups.len() <= u16::MAX,
    ensures
        after_rows(rows, n, groups, f) matches Some((songs, _)) ==> forall|s: int|
            0 <= s < songs.len() ==> (#[trigger] songs[s]).voicegroup < groups.len(),
    decreases n,
{
    if n > 0 {
        lemma_songs_in_range(rows, n - 1, groups, f);
        bank::lemma_number_of(groups, rows[n - 1].group);
    }
}

/// No number in an extracted pack leads nowhere: every song names a
/// voicegroup of the pack, every voice a group, a table, a sample or a wave of
/// it. So it can be cut down to any of its songs.
pub proof fn an_extracted_pack_names_what_there_is(src: Sources, f: Files)
    requires
        named_groups(src.groups@, src.groups@.len() as int).len() <= u16::MAX,
        extracted(src, f) matches Some((m, _)) ==> m.keysplits.len() <= u16::MAX,
    ensures
        extracted(src, f) matches Some((m, _)) ==> bank::all_in_range(m),
{
    if let Some((m, _)) = extracted(src, f) {
        let ls = text::lines(src.keysplits@);
        let splits = source::after_split_lines(ls, ls.len() as int)->0;
        let gs = named_groups(src.groups@, src.groups@.len() as int);
        let c = Context {
            groups: group_names(gs),
            tables: table_names(splits),
            samples: labels_of(src.samples@),
            waves: labels_of(src.waves@),
            files: f,
        };
        let rows = source::rows_of(text::lines(src.songs@), text::lines(src.songs@).len() as int);
        lemma_groups_in_range(gs, gs.len() as int, c);
        lemma_songs_in_range(rows, rows.len() as int, c.groups, f);
        let (b, _) = after_groups(gs, gs.len() as int, c)->0;
        assert forall|g: int, k: int|
            #![trigger m.voicegroups[g].entries[k]]
            0 <= g < m.voicegroups.len() && 0 <= k < m.voicegroups[g].entries.len() implies subset::refers(
            m,
            m.voicegroups[g].entries[k],
        ) by {
            assert(bank::names_something(m.voicegroups[g].entries[k], names_in(b, c)));
        }
    }
}

} // verus!
