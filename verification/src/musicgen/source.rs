//! The text files of the sound sources: keysplit tables, labelled binaries,
//! the song list and the voicegroups.

use vstd::prelude::*;
use crate::audio::data::KeysplitTable;
use crate::text;
use crate::text::{
    copy, parse_number, split, split_lines, split_once, split_whitespace, starts_with, string_of,
    strip_prefix, strip_suffix, trim, trim_start_matches, Text,
};

verus! {

/// A line without its comment and the white space round it.
pub open spec fn bare(line: Seq<char>) -> Seq<char> {
    text::trimmed(text::cut(line, "@"@)[0])
}

/// The piece at a place of a comma-separated list, without the white space
/// round it.
pub open spec fn item(s: Seq<char>, i: int) -> Option<Seq<char>> {
    let parts = text::cut(s, ","@);
    if 0 <= i < parts.len() {
        Some(text::trimmed(parts[i]))
    } else {
        None
    }
}

pub open spec fn decimal(s: Option<Seq<char>>, top: int) -> Option<int> {
    match s {
        Some(t) => text::number(t, 10, top),
        None => None,
    }
}

fn bare_line(line: &Text) -> (t: Text)
    ensures
        t@ == bare(line@),
{
    proof {
        reveal_strlit("@");
    }
    let parts = split(line, "@");
    assert(parts@[0]@ == text::texts(parts@)[0]);
    trim(&parts[0])
}

fn item_of(parts: &Vec<Text>, i: usize) -> (r: Option<Text>)
    ensures
        match r {
            Some(t) => i < parts@.len() && t@ == text::trimmed(text::texts(parts@)[i as int]),
            None => i >= parts@.len(),
        },
{
    if i < parts.len() {
        Some(trim(&parts[i]))
    } else {
        None
    }
}

fn decimal_of(t: &Option<Text>, top: u64) -> (r: Option<u64>)
    ensures
        match t {
            Some(x) => match text::number(x@, 10, top as int) {
                Some(v) => r matches Some(y) && y == v,
                None => r is None,
            },
            None => r is None,
        },
{
    match t {
        Some(x) => parse_number(x, 10, top),
        None => None,
    }
}

fn commas(s: &Text) -> (parts: Vec<Text>)
    ensures
        text::texts(parts@) == text::cut(s@, ","@),
        parts@.len() > 0,
        parts@.len() == text::cut(s@, ","@).len(),
{
    proof {
        reveal_strlit(",");
    }
    let parts = split(s, ",");
    assert(text::texts(parts@).len() == parts@.len());
    parts
}

// ---- keysplit tables -----------------------------------------------------

/// A table's head: its name, the key it begins at, and where its bytes begin
/// in the run that all tables share.
#[verifier::ext_equal]
pub struct Head {
    pub name: Seq<char>,
    pub base: int,
    pub start: int,
}

/// The tables so far and the run of bytes that they share.
#[verifier::ext_equal]
pub struct Splits {
    pub heads: Seq<Head>,
    pub bytes: Seq<u8>,
}

/// One line: the head of a table, or the voice for the keys up to one. A
/// `split` must stand in a table, hold both its numbers, and not end before
/// the key it begins at.
pub open spec fn after_split_line(s: Splits, line: Seq<char>) -> Option<Splits> {
    let l = bare(line);
    match text::without_prefix(l, "keysplit "@) {
        Some(rest) => Some(
            Splits {
                heads: s.heads.push(
                    Head {
                        name: item(rest, 0)->0,
                        base: match decimal(item(rest, 1), usize::MAX as int) {
                            Some(v) => v,
                            None => 0,
                        },
                        start: s.bytes.len() as int,
                    },
                ),
                bytes: s.bytes,
            },
        ),
        None => match text::without_prefix(l, "split "@) {
            None => Some(s),
            Some(rest) => match (
                decimal(item(rest, 0), 255),
                decimal(item(rest, 1), usize::MAX as int),
            ) {
                (Some(idx), Some(end)) => if s.heads.len() == 0 {
                    None
                } else {
                    let h = s.heads.last();
                    let next = h.base + (s.bytes.len() - h.start);
                    if next > end + 1 || end == usize::MAX || next > usize::MAX {
                        None
                    } else {
                        Some(
                            Splits {
                                heads: s.heads,
                                bytes: s.bytes + Seq::new(
                                    (end + 1 - next) as nat,
                                    |i: int| idx as u8,
                                ),
                            },
                        )
                    }
                },
                _ => None,
            },
        },
    }
}

/// The first `n` lines.
pub open spec fn after_split_lines(ls: Seq<Seq<char>>, n: int) -> Option<Splits>
    decreases n,
{
    if n <= 0 {
        Some(Splits { heads: seq![], bytes: seq![] })
    } else {
        match after_split_lines(ls, n - 1) {
            Some(s) => after_split_line(s, ls[n - 1]),
            None => None,
        }
    }
}

/// What a table holds for a key: a key outside its range reads the bytes of
/// its neighbours; 0xFF past all of them.
pub open spec fn split_at(s: Splits, h: Head, key: int) -> u8 {
    let pos = h.start + key - h.base;
    if 0 <= pos < s.bytes.len() {
        s.bytes[pos]
    } else {
        0xFF
    }
}

struct TableHead {
    name: Text,
    base: u64,
    start: usize,
}

spec fn heads_model(hs: Seq<TableHead>) -> Seq<Head> {
    Seq::new(
        hs.len(),
        |i: int|
            Head { name: hs[i].name@, base: hs[i].base as int, start: hs[i].start as int },
    )
}

struct Tables {
    heads: Vec<TableHead>,
    bytes: Vec<u8>,
}

impl Tables {
    spec fn model(&self) -> Splits {
        Splits { heads: heads_model(self.heads@), bytes: self.bytes@ }
    }

    spec fn wf(&self) -> bool {
        forall|i: int|
            0 <= i < self.heads@.len() ==> (#[trigger] self.heads@[i]).start <= self.bytes@.len()
                && self.heads@[i].base <= usize::MAX
    }
}

fn split_line(t: &mut Tables, line: &Text) -> (ok: bool)
    requires
        old(t).wf(),
    ensures
        match after_split_line(old(t).model(), line@) {
            Some(s) => ok && final(t).model() == s && final(t).wf(),
            None => !ok,
        },
{
    let ghost before = t.model();
    let l = bare_line(line);
    match strip_prefix(&l, "keysplit ") {
        Some(rest) => {
            let parts = commas(&rest);
            let name = trim(&parts[0]);
            assert(name@ == item(rest@, 0)->0);
            let second = item_of(&parts, 1);
            let base: u64 = match decimal_of(&second, usize::MAX as u64) {
                Some(v) => v,
                None => 0,
            };
            let start: usize = t.bytes.len();
            let ghost h = Head { name: name@, base: base as int, start: start as int };
            t.heads.push(TableHead { name, base, start });
            assert(t.model().heads =~= before.heads.push(h));
            true
        },
        None => match strip_prefix(&l, "split ") {
            None => true,
            Some(rest) => {
                let parts = commas(&rest);
                let first = item_of(&parts, 0);
                let second = item_of(&parts, 1);
                let idx: u8 = match decimal_of(&first, 255) {
                    Some(v) => v as u8,
                    None => return false,
                };
                let end: u64 = match decimal_of(&second, usize::MAX as u64) {
                    Some(v) => v,
                    None => return false,
                };
                if t.heads.len() == 0 {
                    return false;
                }
                let last: usize = t.heads.len() - 1;
                let (base, start): (u64, usize) = (t.heads[last].base, t.heads[last].start);
                assert(before.heads.last() == heads_model(t.heads@)[last as int]);
                let gap: usize = t.bytes.len() - start;
                if end == usize::MAX as u64 || base > usize::MAX as u64 - gap as u64 {
                    return false;
                }
                let next: u64 = base + gap as u64;
                if next > end + 1 {
                    return false;
                }
                let n: u64 = end + 1 - next;
                let mut i: u64 = 0;
                let ghost was = t.bytes@;
                let ghost hs = t.heads@;
                assert(was =~= was + Seq::new(0, |k: int| idx));
                while i < n
                    invariant
                        i <= n,
                        t.heads@ == hs,
                        t.bytes@ == was + Seq::new(i as nat, |k: int| idx),
                    decreases n - i,
                {
                    t.bytes.push(idx);
                    assert(t.bytes@ =~= was + Seq::new((i + 1) as nat, |k: int| idx));
                    i += 1;
                }
                assert(t.model().bytes =~= before.bytes + Seq::new(
                    (end + 1 - next) as nat,
                    |k: int| idx as int as u8,
                ));
                true
            },
        },
    }
}

/// The keysplit tables of a text; nothing where a line of it is out of place.
pub fn parse_keysplits(source: &str) -> (r: Option<Vec<KeysplitTable>>)
    ensures
        match after_split_lines(text::lines(source@), text::lines(source@).len() as int) {
            None => r is None,
            Some(s) => {
                &&& r is Some
                &&& r->0@.len() == s.heads.len()
                &&& forall|i: int|
                    0 <= i < s.heads.len() ==> (#[trigger] r->0@[i]).name@ == s.heads[i].name
                &&& forall|i: int, k: int|
                    0 <= i < s.heads.len() && 0 <= k < 128 ==> #[trigger] r->0@[i].map@[k]
                        == split_at(s, s.heads[i], k)
            },
        },
{
    let ls = split_lines(&text::chars_of(source));
    let ghost all = text::lines(source@);
    let mut t = Tables { heads: Vec::new(), bytes: Vec::new() };
    assert(t.model() =~= Splits { heads: seq![], bytes: seq![] });
    let mut n: usize = 0;
    while n < ls.len()
        invariant
            n <= ls@.len(),
            text::texts(ls@) == all,
            all == text::lines(source@),
            t.wf(),
            after_split_lines(all, n as int) == Some(t.model()),
        decreases ls.len() - n,
    {
        assert(all[n as int] == ls@[n as int]@);
        if !split_line(&mut t, &ls[n]) {
            proof {
                lemma_splits_stop(all, n + 1, all.len() as int);
            }
            return None;
        }
        n += 1;
    }
    assert(all.len() == ls@.len());
    let ghost s = t.model();
    let mut out: Vec<KeysplitTable> = Vec::new();
    let mut i: usize = 0;
    while i < t.heads.len()
        invariant
            i <= t.heads@.len(),
            t.wf(),
            s == t.model(),
            out@.len() == i,
            forall|j: int| 0 <= j < i ==> (#[trigger] out@[j]).name@ == s.heads[j].name,
            forall|j: int, k: int|
                0 <= j < i && 0 <= k < 128 ==> #[trigger] out@[j].map@[k] == split_at(
                    s,
                    s.heads[j],
                    k,
                ),
        decreases t.heads.len() - i,
    {
        let h = &t.heads[i];
        let ghost head = s.heads[i as int];
        let len: usize = t.bytes.len();
        let mut map = [0xFFu8; 128];
        let mut k: usize = 0;
        while k < 128
            invariant
                k <= 128,
                t.wf(),
                s == t.model(),
                len == t.bytes@.len(),
                head.base == h.base,
                head.start == h.start,
                h.start <= len,
                forall|j: int| 0 <= j < k ==> #[trigger] map@[j] == split_at(s, head, j),
                forall|j: int| k <= j < 128 ==> #[trigger] map@[j] == 0xFF,
            decreases 128 - k,
        {
            let from: u128 = h.start as u128 + k as u128;
            if from >= h.base as u128 && from - (h.base as u128) < len as u128 {
                map[k] = t.bytes[(from - h.base as u128) as usize];
            }
            k += 1;
        }
        out.push(KeysplitTable { name: string_of(&h.name), map });
        i += 1;
    }
    Some(out)
}

proof fn lemma_splits_stop(ls: Seq<Seq<char>>, a: int, b: int)
    requires
        a <= b,
        after_split_lines(ls, a) is None,
    ensures
        after_split_lines(ls, b) is None,
    decreases b,
{
    if a < b && b > 0 {
        lemma_splits_stop(ls, a, b - 1);
    }
}

// ---- labelled binaries ---------------------------------------------------

/// The label that waits for its file, and the pairs so far.
#[verifier::ext_equal]
pub struct Labels {
    pub label: Option<Seq<char>>,
    pub names: Seq<Seq<char>>,
    pub paths: Seq<Seq<char>>,
}

/// One line: a label, or the file of the label before it.
pub open spec fn after_label_line(s: Labels, line: Seq<char>) -> Labels {
    let l = bare(line);
    match text::without_suffix(l, "::"@) {
        Some(name) => Labels { label: Some(name), ..s },
        None => match text::without_prefix(l, ".incbin "@) {
            None => s,
            Some(rest) => {
                let parts = text::cut(rest, "\""@);
                if s.label is Some && parts.len() > 1 {
                    Labels {
                        label: None,
                        names: s.names.push(s.label->0),
                        paths: s.paths.push(parts[1]),
                    }
                } else {
                    Labels { label: None, ..s }
                }
            },
        },
    }
}

pub open spec fn after_label_lines(ls: Seq<Seq<char>>, n: int) -> Labels
    decreases n,
{
    if n <= 0 {
        Labels { label: None, names: seq![], paths: seq![] }
    } else {
        after_label_line(after_label_lines(ls, n - 1), ls[n - 1])
    }
}

/// Labels and the files that they stand for. The last file of a label counts.
pub struct LabelMap {
    pub names: Vec<Text>,
    pub paths: Vec<Text>,
}

impl LabelMap {
    pub open spec fn wf(&self) -> bool {
        self.names@.len() == self.paths@.len()
    }

    /// The file of a label.
    pub open spec fn path_of(&self, name: Seq<char>) -> Option<Seq<char>> {
        match text::last_named(text::texts(self.names@), name, self.names@.len() as int) {
            Some(i) => Some(self.paths@[i]@),
            None => None,
        }
    }

    pub fn get(&self, name: &Text) -> (r: Option<Text>)
        requires
            self.wf(),
        ensures
            match self.path_of(name@) {
                Some(p) => r matches Some(x) && x@ == p,
                None => r is None,
            },
    {
        match text::find_last(&self.names, name) {
            Some(i) => Some(copy(&self.paths[i])),
            None => None,
        }
    }
}

/// `Label::` and `.incbin "path"` pairs (either may carry a comment).
pub fn parse_incbin_labels(source: &str) -> (m: LabelMap)
    ensures
        m.wf(),
        ({
            let s = after_label_lines(text::lines(source@), text::lines(source@).len() as int);
            text::texts(m.names@) == s.names && text::texts(m.paths@) == s.paths
        }),
{
    let ls = split_lines(&text::chars_of(source));
    let ghost all = text::lines(source@);
    let mut label: Option<Text> = None;
    let mut m = LabelMap { names: Vec::new(), paths: Vec::new() };
    let mut n: usize = 0;
    assert(text::texts(m.names@) =~= seq![]);
    assert(text::texts(m.paths@) =~= seq![]);
    while n < ls.len()
        invariant
            n <= ls@.len(),
            text::texts(ls@) == all,
            m.wf(),
            ({
                let s = after_label_lines(all, n as int);
                &&& text::texts(m.names@) == s.names
                &&& text::texts(m.paths@) == s.paths
                &&& match label {
                    Some(x) => s.label == Some(x@),
                    None => s.label is None,
                }
            }),
        decreases ls.len() - n,
    {
        let ghost s = after_label_lines(all, n as int);
        assert(all[n as int] == ls@[n as int]@);
        let l = bare_line(&ls[n]);
        match strip_suffix(&l, "::") {
            Some(name) => {
                label = Some(name);
            },
            None => {
                if let Some(rest) = strip_prefix(&l, ".incbin ") {
                    proof {
                        reveal_strlit("\"");
                    }
                    let parts = split(&rest, "\"");
                    assert(text::texts(parts@).len() == parts@.len());
                    let taken = label;
                    label = None;
                    if let Some(name) = taken {
                        if parts.len() > 1 {
                            let ghost (a, b) = (text::texts(m.names@), text::texts(m.paths@));
                            let path = copy(&parts[1]);
                            assert(path@ == text::texts(parts@)[1]);
                            let ghost (x, y) = (name@, path@);
                            m.names.push(name);
                            m.paths.push(path);
                            assert(text::texts(m.names@) =~= a.push(x));
                            assert(text::texts(m.paths@) =~= b.push(y));
                        }
                    }
                }
            },
        }
        n += 1;
    }
    assert(all.len() == ls@.len());
    m
}

// ---- the song list -------------------------------------------------------

/// A song of the list: its name, its voicegroup, its master volume and its
/// reverb.
#[verifier::ext_equal]
pub struct Row {
    pub name: Seq<char>,
    pub group: Seq<char>,
    pub volume: int,
    pub reverb: int,
}

#[verifier::ext_equal]
pub struct Options {
    pub group: Option<Seq<char>>,
    pub volume: int,
    pub reverb: int,
}

/// The first `n` options of a line; each overrides those of its kind before.
pub open spec fn after_options(ws: Seq<Seq<char>>, n: int) -> Options
    decreases n,
{
    if n <= 0 {
        Options { group: None, volume: 127, reverb: 0 }
    } else {
        let o = after_options(ws, n - 1);
        let w = ws[n - 1];
        match text::without_prefix(w, "-G"@) {
            Some(g) => Options { group: Some(text::without_prefixes(g, "_"@)), ..o },
            None => match text::without_prefix(w, "-V"@) {
                Some(v) => Options {
                    volume: match text::number(v, 10, 255) {
                        Some(x) => x,
                        None => 127,
                    },
                    ..o
                },
                None => match text::without_prefix(w, "-R"@) {
                    Some(v) => Options {
                        reverb: match text::number(v, 10, 255) {
                            Some(x) => x,
                            None => 0,
                        },
                        ..o
                    },
                    None => o,
                },
            },
        }
    }
}

/// The song of a line `name.mid: options`, if it names a voicegroup.
pub open spec fn row_of(line: Seq<char>) -> Option<Row> {
    match text::cut_once(line, ":"@) {
        None => None,
        Some((file, opts)) => match text::without_suffix(text::trimmed(file), ".mid"@) {
            None => None,
            Some(name) => {
                let ws = text::words(opts);
                let o = after_options(ws, ws.len() as int);
                match o.group {
                    None => None,
                    Some(group) => Some(
                        Row { name, group, volume: o.volume, reverb: o.reverb },
                    ),
                }
            },
        },
    }
}

/// The songs of the first `n` lines.
pub open spec fn rows_of(ls: Seq<Seq<char>>, n: int) -> Seq<Row>
    decreases n,
{
    if n <= 0 {
        seq![]
    } else {
        match row_of(ls[n - 1]) {
            Some(r) => rows_of(ls, n - 1).push(r),
            None => rows_of(ls, n - 1),
        }
    }
}

/// A song of the list.
pub struct SongRow {
    pub name: Text,
    pub group: Text,
    pub volume: u8,
    pub reverb: u8,
}

impl SongRow {
    pub open spec fn model(&self) -> Row {
        Row {
            name: self.name@,
            group: self.group@,
            volume: self.volume as int,
            reverb: self.reverb as int,
        }
    }
}

fn read_row(line: &Text) -> (r: Option<SongRow>)
    ensures
        match row_of(line@) {
            Some(m) => r matches Some(x) && x.model() == m,
            None => r is None,
        },
{
    let (file, opts): (Text, Text) = match split_once(line, ":") {
        Some(x) => x,
        None => return None,
    };
    let name = match strip_suffix(&trim(&file), ".mid") {
        Some(x) => x,
        None => return None,
    };
    let ws = split_whitespace(&opts);
    let ghost all = text::words(opts@);
    let mut group: Option<Text> = None;
    let mut volume: u8 = 127;
    let mut reverb: u8 = 0;
    let mut n: usize = 0;
    while n < ws.len()
        invariant
            n <= ws@.len(),
            text::texts(ws@) == all,
            ({
                let o = after_options(all, n as int);
                &&& o.volume == volume
                &&& o.reverb == reverb
                &&& match group {
                    Some(g) => o.group == Some(g@),
                    None => o.group is None,
                }
            }),
        decreases ws.len() - n,
    {
        let ghost o = after_options(all, n as int);
        assert(all[n as int] == ws@[n as int]@);
        let w = &ws[n];
        if let Some(g) = strip_prefix(w, "-G") {
            proof {
                reveal_strlit("_");
            }
            group = Some(trim_start_matches(&g, "_"));
        } else if let Some(v) = strip_prefix(w, "-V") {
            volume = match parse_number(&v, 10, 255) {
                Some(x) => x as u8,
                None => 127,
            };
        } else if let Some(v) = strip_prefix(w, "-R") {
            reverb = match parse_number(&v, 10, 255) {
                Some(x) => x as u8,
                None => 0,
            };
        }
        n += 1;
    }
    assert(all.len() == ws@.len());
    match group {
        Some(group) => Some(SongRow { name, group, volume, reverb }),
        None => None,
    }
}

/// Lines `name.mid:  -E -R50 -G_cycling -V083`.
pub fn parse_midi_cfg(source: &str) -> (out: Vec<SongRow>)
    ensures
        ({
            let rows = rows_of(text::lines(source@), text::lines(source@).len() as int);
            &&& out@.len() == rows.len()
            &&& forall|i: int| 0 <= i < rows.len() ==> (#[trigger] out@[i]).model() == rows[i]
        }),
{
    let ls = split_lines(&text::chars_of(source));
    let ghost all = text::lines(source@);
    let mut out: Vec<SongRow> = Vec::new();
    let mut n: usize = 0;
    while n < ls.len()
        invariant
            n <= ls@.len(),
            text::texts(ls@) == all,
            out@.len() == rows_of(all, n as int).len(),
            forall|i: int|
                0 <= i < out@.len() ==> (#[trigger] out@[i]).model() == rows_of(all, n as int)[i],
        decreases ls.len() - n,
    {
        assert(all[n as int] == ls@[n as int]@);
        if let Some(r) = read_row(&ls[n]) {
            out.push(r);
        }
        n += 1;
    }
    assert(all.len() == ls@.len());
    out
}

// ---- voicegroups ---------------------------------------------------------

/// A voice line: its kind and its arguments.
#[verifier::ext_equal]
pub struct Line {
    pub kind: Seq<char>,
    pub args: Seq<Seq<char>>,
}

/// A voicegroup file.
#[verifier::ext_equal]
pub struct RawModel {
    pub name: Option<Seq<char>>,
    pub offset: int,
    pub entries: Seq<Line>,
}

/// The pieces of a comma-separated list, without the white space round them.
pub open spec fn items(s: Seq<char>) -> Seq<Seq<char>> {
    let parts = text::cut(s, ","@);
    Seq::new(parts.len(), |i: int| text::trimmed(parts[i]))
}

/// A voice line split at its first blank.
pub open spec fn voice_line(l: Seq<char>) -> Line {
    match text::cut_once(l, " "@) {
        Some((kind, rest)) => Line { kind, args: items(rest) },
        None => Line { kind: l, args: items(seq![]) },
    }
}

/// One line: the head of the group, or a voice of it.
pub open spec fn after_group_line(g: RawModel, line: Seq<char>) -> RawModel {
    let l = bare(line);
    match text::without_prefix(l, "voice_group "@) {
        Some(rest) => RawModel {
            name: item(rest, 0),
            offset: match decimal(item(rest, 1), 65535) {
                Some(v) => v,
                None => 0,
            },
            entries: g.entries,
        },
        None => if text::has_prefix(l, "voice_"@) || text::has_prefix(l, "cry"@) {
            RawModel { entries: g.entries.push(voice_line(l)), ..g }
        } else {
            g
        },
    }
}

pub open spec fn after_group_lines(ls: Seq<Seq<char>>, n: int) -> RawModel
    decreases n,
{
    if n <= 0 {
        RawModel { name: None, offset: 0, entries: seq![] }
    } else {
        after_group_line(after_group_lines(ls, n - 1), ls[n - 1])
    }
}

/// A voice line.
pub struct RawVoice {
    pub kind: Text,
    pub args: Vec<Text>,
}

impl RawVoice {
    pub open spec fn model(&self) -> Line {
        Line { kind: self.kind@, args: text::texts(self.args@) }
    }
}

/// A voicegroup file.
pub struct RawGroup {
    pub name: Text,
    pub offset: u16,
    pub entries: Vec<RawVoice>,
}

pub open spec fn raw_voices(v: Seq<RawVoice>) -> Seq<Line> {
    Seq::new(v.len(), |i: int| v[i].model())
}

fn items_of(s: &Text) -> (out: Vec<Text>)
    ensures
        text::texts(out@) == items(s@),
{
    let parts = commas(s);
    let ghost all = text::cut(s@, ","@);
    let mut out: Vec<Text> = Vec::new();
    let mut i: usize = 0;
    while i < parts.len()
        invariant
            i <= parts@.len(),
            text::texts(parts@) == all,
            out@.len() == i,
            forall|k: int| 0 <= k < i ==> (#[trigger] out@[k])@ == text::trimmed(all[k]),
        decreases parts.len() - i,
    {
        assert(all[i as int] == parts@[i as int]@);
        out.push(trim(&parts[i]));
        i += 1;
    }
    assert(text::texts(out@) =~= items(s@));
    out
}

fn read_voice_line(l: &Text) -> (v: RawVoice)
    ensures
        v.model() == voice_line(l@),
{
    match split_once(l, " ") {
        Some((kind, rest)) => RawVoice { kind, args: items_of(&rest) },
        None => {
            let none: Text = Vec::new();
            assert(none@ =~= seq![]);
            RawVoice { kind: copy(l), args: items_of(&none) }
        },
    }
}

/// The voicegroup of a file, if it names one.
pub fn parse_voicegroup(source: &str) -> (r: Option<RawGroup>)
    ensures
        ({
            let m = after_group_lines(text::lines(source@), text::lines(source@).len() as int);
            match m.name {
                None => r is None,
                Some(name) => r matches Some(g) && g.name@ == name && g.offset == m.offset
                    && raw_voices(g.entries@) == m.entries,
            }
        }),
{
    let ls = split_lines(&text::chars_of(source));
    let ghost all = text::lines(source@);
    let mut name: Option<Text> = None;
    let mut offset: u16 = 0;
    let mut entries: Vec<RawVoice> = Vec::new();
    let mut n: usize = 0;
    assert(raw_voices(entries@) =~= seq![]);
    while n < ls.len()
        invariant
            n <= ls@.len(),
            text::texts(ls@) == all,
            ({
                let m = after_group_lines(all, n as int);
                &&& m.offset == offset
                &&& m.entries == raw_voices(entries@)
                &&& match name {
                    Some(x) => m.name == Some(x@),
                    None => m.name is None,
                }
            }),
        decreases ls.len() - n,
    {
        let ghost m = after_group_lines(all, n as int);
        assert(all[n as int] == ls@[n as int]@);
        let l = bare_line(&ls[n]);
        match strip_prefix(&l, "voice_group ") {
            Some(rest) => {
                let parts = commas(&rest);
                let first = trim(&parts[0]);
                assert(item(rest@, 0) == Some(first@));
                name = Some(first);
                let second = item_of(&parts, 1);
                offset = match decimal_of(&second, 65535) {
                    Some(v) => v as u16,
                    None => 0,
                };
            },
            None => {
                if starts_with(&l, "voice_") || starts_with(&l, "cry") {
                    let v = read_voice_line(&l);
                    let ghost (was, new) = (raw_voices(entries@), v.model());
                    entries.push(v);
                    assert(raw_voices(entries@) =~= was.push(new));
                }
            },
        }
        n += 1;
    }
    assert(all.len() == ls@.len());
    match name {
        Some(name) => Some(RawGroup { name, offset, entries }),
        None => None,
    }
}

} // verus!
