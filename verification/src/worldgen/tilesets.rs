//! The tileset headers, and the files that their symbols are bound to.

use vstd::prelude::*;
use crate::text;
use crate::text::{
    chars_of, find, is_text, part, split, split_once, split_whitespace, starts_with, string_of,
    trim, Text,
};

verus! {

/// A tileset as its header names it.
pub struct TilesetDef {
    pub name: String,
    pub is_secondary: bool,
    pub tiles: String,
    pub palettes: String,
    pub metatiles: String,
    pub attributes: String,
}

/// A header as a value.
#[verifier::ext_equal]
pub struct Def {
    pub name: Seq<char>,
    pub is_secondary: bool,
    pub tiles: Seq<char>,
    pub palettes: Seq<char>,
    pub metatiles: Seq<char>,
    pub attributes: Seq<char>,
}

impl TilesetDef {
    pub open spec fn model(&self) -> Def {
        Def {
            name: self.name@,
            is_secondary: self.is_secondary,
            tiles: self.tiles@,
            palettes: self.palettes@,
            metatiles: self.metatiles@,
            attributes: self.attributes@,
        }
    }
}

pub open spec fn models(v: Seq<TilesetDef>) -> Seq<Def> {
    Seq::new(v.len(), |i: int| v[i].model())
}

/// What a field is set to: up to the comma or the end of its line.
pub open spec fn field(body: Seq<char>, head: Seq<char>) -> Option<Seq<char>> {
    match text::cut_once(body, head) {
        None => None,
        Some((_, after)) => Some(
            text::trimmed(text::cut(text::cut(after, ","@)[0], "\n"@)[0]),
        ),
    }
}

/// The header that a piece of the file holds behind the words that begin one.
pub open spec fn def_of(chunk: Seq<char>) -> Option<Def> {
    let w = text::words(chunk);
    if w.len() == 0 || !text::has_prefix(w[0], "gTileset_"@) {
        None
    } else {
        let body = match text::cut_once(chunk, "};"@) {
            Some((b, _)) => b,
            None => chunk,
        };
        match (
            field(body, ".tiles = "@),
            field(body, ".palettes = "@),
            field(body, ".metatiles = "@),
            field(body, ".metatileAttributes = "@),
        ) {
            (Some(tiles), Some(palettes), Some(metatiles), Some(attributes)) => Some(
                Def {
                    name: w[0],
                    is_secondary: field(body, ".isSecondary = "@) == Some("TRUE"@),
                    tiles,
                    palettes,
                    metatiles,
                    attributes,
                },
            ),
            _ => None,
        }
    }
}

/// The headers among the first `n` pieces, the first of which holds none.
pub open spec fn defs_among(chunks: Seq<Seq<char>>, n: int) -> Seq<Def>
    decreases n,
{
    if n <= 1 {
        seq![]
    } else {
        match def_of(chunks[n - 1]) {
            Some(d) => defs_among(chunks, n - 1).push(d),
            None => defs_among(chunks, n - 1),
        }
    }
}

/// The last of the first `n` headers that has a name.
pub open spec fn last_def(ds: Seq<Def>, name: Seq<char>, n: int) -> Def
    decreases n,
{
    if n <= 0 {
        ds[0]
    } else if ds[n - 1].name == name {
        ds[n - 1]
    } else {
        last_def(ds, name, n - 1)
    }
}

/// The tilesets of a header file, in order; where a name occurs again, the last
/// header holds for all of them.
pub open spec fn tileset_defs(headers: Seq<char>) -> Seq<Def> {
    let chunks = text::cut(headers, "const struct Tileset "@);
    let ds = defs_among(chunks, chunks.len() as int);
    Seq::new(ds.len(), |i: int| last_def(ds, ds[i].name, ds.len() as int))
}

fn first_piece(s: &Text, p: &str) -> (t: Text)
    requires
        p@.len() > 0,
    ensures
        t@ == text::cut(s@, p@)[0],
{
    let parts = split(s, p);
    assert(parts@[0]@ == text::texts(parts@)[0]);
    text::copy(&parts[0])
}

fn find_field(body: &Text, head: &str) -> (r: Option<Text>)
    ensures
        match field(body@, head@) {
            Some(t) => r is Some && r->0@ == t,
            None => r is None,
        },
{
    proof {
        reveal_strlit(",");
        reveal_strlit("\n");
    }
    match split_once(body, head) {
        None => None,
        Some((_, after)) => {
            let line = first_piece(&after, ",");
            Some(trim(&first_piece(&line, "\n")))
        },
    }
}

fn parse_def(chunk: &Text) -> (r: Option<TilesetDef>)
    ensures
        match def_of(chunk@) {
            Some(d) => r is Some && r->0.model() == d,
            None => r is None,
        },
{
    let w = split_whitespace(chunk);
    let ghost ws = text::words(chunk@);
    assert(ws.len() == w@.len());
    if w.len() == 0 {
        return None;
    }
    assert(ws[0] == w@[0]@);
    if !starts_with(&w[0], "gTileset_") {
        return None;
    }
    let body = match split_once(chunk, "};") {
        Some((b, _)) => b,
        None => text::copy(chunk),
    };
    let second = find_field(&body, ".isSecondary = ");
    let is_secondary = match &second {
        Some(t) => is_text(t, "TRUE"),
        None => false,
    };
    match (
        find_field(&body, ".tiles = "),
        find_field(&body, ".palettes = "),
        find_field(&body, ".metatiles = "),
        find_field(&body, ".metatileAttributes = "),
    ) {
        (Some(tiles), Some(palettes), Some(metatiles), Some(attributes)) => Some(
            TilesetDef {
                name: string_of(&w[0]),
                is_secondary,
                tiles: string_of(&tiles),
                palettes: string_of(&palettes),
                metatiles: string_of(&metatiles),
                attributes: string_of(&attributes),
            },
        ),
        _ => None,
    }
}

fn copy_def(d: &TilesetDef) -> (r: TilesetDef)
    ensures
        r.model() == d.model(),
{
    TilesetDef {
        name: d.name.clone(),
        is_secondary: d.is_secondary,
        tiles: d.tiles.clone(),
        palettes: d.palettes.clone(),
        metatiles: d.metatiles.clone(),
        attributes: d.attributes.clone(),
    }
}

/// The tilesets of a header file.
pub fn parse_tilesets(headers: &str) -> (out: Vec<TilesetDef>)
    ensures
        models(out@) == tileset_defs(headers@),
{
    proof {
        reveal_strlit("const struct Tileset ");
    }
    let chunks = split(&chars_of(headers), "const struct Tileset ");
    let ghost all = text::cut(headers@, "const struct Tileset "@);
    let mut defs: Vec<TilesetDef> = Vec::new();
    assert(models(defs@) =~= seq![]);
    let mut i: usize = 1;
    while i < chunks.len()
        invariant
            1 <= i <= chunks@.len(),
            text::texts(chunks@) == all,
            models(defs@) == defs_among(all, i as int),
        decreases chunks.len() - i,
    {
        assert(all[i as int] == chunks@[i as int]@);
        if let Some(d) = parse_def(&chunks[i]) {
            let ghost before = models(defs@);
            let ghost m = d.model();
            defs.push(d);
            assert(models(defs@) =~= before.push(m));
        }
        i += 1;
    }
    assert(all.len() == chunks@.len());
    let ghost ds = models(defs@);
    let mut out: Vec<TilesetDef> = Vec::new();
    let mut k: usize = 0;
    while k < defs.len()
        invariant
            k <= defs@.len(),
            ds == models(defs@),
            out@.len() == k,
            forall|j: int|
                0 <= j < k ==> (#[trigger] out@[j]).model() == last_def(
                    ds,
                    ds[j].name,
                    ds.len() as int,
                ),
        decreases defs.len() - k,
    {
        let ghost name = ds[k as int].name;
        let mut n: usize = defs.len();
        while !text::same_text(defs[n - 1].name.as_str(), defs[k].name.as_str())
            invariant
                k < n <= defs@.len(),
                ds == models(defs@),
                name == ds[k as int].name,
                last_def(ds, name, ds.len() as int) == last_def(ds, name, n as int),
            decreases n,
        {
            assert(ds[n - 1].name == defs@[n - 1].name@);
            assert(ds[k as int].name == defs@[k as int].name@);
            n -= 1;
        }
        assert(ds[n - 1] == defs@[n - 1].model());
        out.push(copy_def(&defs[n - 1]));
        k += 1;
    }
    assert(models(out@) =~= tileset_defs(headers@));
    out
}

/// The path that a symbol is bound to: behind the symbol and the bracket that
/// opens after it, the first text in quotes.
pub open spec fn path_of(source: Seq<char>, sym: Seq<char>) -> Option<Seq<char>> {
    match text::place(source, " "@ + sym + "["@) {
        None => None,
        Some(at) => {
            let rest = source.skip(at);
            match text::place(rest, "("@) {
                None => None,
                Some(q) => {
                    let parts = text::cut(rest.skip(q), "\""@);
                    if parts.len() > 1 {
                        Some(parts[1])
                    } else {
                        None
                    }
                },
            }
        },
    }
}

/// The path that a symbol is bound to, where it is bound.
pub fn bound_path(source: &Text, sym: &str) -> (r: Option<String>)
    ensures
        match path_of(source@, sym@) {
            Some(p) => r is Some && r->0@ == p,
            None => r is None,
        },
{
    let mut head = chars_of(" ");
    text::append(&mut head, &chars_of(sym));
    text::append(&mut head, &chars_of("["));
    let at: usize = match find(source, &head) {
        Some(i) => i,
        None => return None,
    };
    let rest = part(source, at, source.len());
    assert(rest@ =~= source@.skip(at as int));
    let q: usize = match find(&rest, &chars_of("(")) {
        Some(i) => i,
        None => return None,
    };
    let open = part(&rest, q, rest.len());
    assert(open@ =~= rest@.skip(q as int));
    proof {
        reveal_strlit("\"");
    }
    let parts = split(&open, "\"");
    assert(text::texts(parts@).len() == parts@.len());
    if parts.len() > 1 {
        assert(parts@[1]@ == text::texts(parts@)[1]);
        Some(string_of(&parts[1]))
    } else {
        None
    }
}

} // verus!
