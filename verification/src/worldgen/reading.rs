//! What the readers of lists keep of them: the order, and every item that
//! counts.

use vstd::prelude::*;
use crate::files::Files;
use crate::game::data::LayoutData;
use crate::text;
use crate::worldgen::font;
use crate::worldgen::json;
use crate::worldgen::land;
use crate::worldgen::land::Kept;
use crate::worldgen::layouts;
use crate::worldgen::layouts::{RowModel, Wanted};
use crate::worldgen::maps;
use crate::worldgen::maps::Entry;
use crate::worldgen::stitch;
use crate::worldgen::tilesets;

verus! {

/// The warps of a map are numbered in their order, without those that are left
/// out: one that counts has the number of those that count before it.
pub proof fn warps_are_numbered_in_order(items: Seq<Seq<char>>, n: int, i: int)
    requires
        0 <= i < n <= items.len(),
        maps::warp_of(items[i]) is Some,
    ensures
        ({
            let k = maps::warps_among(items, i).len() as int;
            &&& k <= i
            &&& k < maps::warps_among(items, n).len()
            &&& Some(maps::warps_among(items, n)[k]) == maps::warp_of(items[i])
        }),
    decreases n,
{
    lemma_warps_bound(items, i);
    if i < n - 1 {
        warps_are_numbered_in_order(items, n - 1, i);
    }
}

proof fn lemma_warps_bound(items: Seq<Seq<char>>, n: int)
    requires
        0 <= n,
    ensures
        maps::warps_among(items, n).len() <= n,
    decreases n,
{
    if n > 0 {
        lemma_warps_bound(items, n - 1);
    }
}

/// A warp that is left out takes no number.
pub proof fn what_is_left_out_takes_no_number(items: Seq<Seq<char>>, n: int)
    requires
        0 < n <= items.len(),
        maps::warp_of(items[n - 1]) is None,
    ensures
        maps::warps_among(items, n) == maps::warps_among(items, n - 1),
{
}

/// The connections of a map that count stand in their order; one that is faulty
/// spoils the map.
pub proof fn connections_stand_in_order(items: Seq<Seq<char>>, n: int, i: int)
    requires
        0 <= i < n <= items.len(),
    ensures
        maps::connection_of(items[i]) is Faulty ==> maps::connections_among(items, n) is None,
        maps::connections_among(items, n) matches Some(v) ==> (maps::connection_of(
            items[i],
        ) matches Entry::Taken(c) ==> maps::connections_among(items, i) is Some && ({
            let k = maps::connections_among(items, i)->0.len() as int;
            k < v.len() && v[k] == c
        })),
    decreases n,
{
    if i < n - 1 {
        connections_stand_in_order(items, n - 1, i);
    }
}

/// An array of strings is read item by item.
pub proof fn strings_stand_in_order(items: Seq<Seq<char>>, n: int, i: int)
    requires
        0 <= i < n <= items.len(),
    ensures
        maps::strings_among(items, n) matches Some(v) ==> v.len() == n && json::text_at(
            items[i],
            ""@,
        ) == Some(v[i]),
        json::text_at(items[i], ""@) is None ==> maps::strings_among(items, n) is None,
    decreases n,
{
    if i < n - 1 {
        strings_stand_in_order(items, n - 1, i);
    } else {
        lemma_strings_len(items, n - 1);
    }
}

proof fn lemma_strings_len(items: Seq<Seq<char>>, n: int)
    requires
        0 <= n,
    ensures
        maps::strings_among(items, n) matches Some(v) ==> v.len() == n,
    decreases n,
{
    if n > 0 {
        lemma_strings_len(items, n - 1);
    }
}

/// The maps stand group by group, in the order of the groups, and all maps of a
/// group one behind the other.
pub proof fn maps_stand_group_by_group(
    doc: Seq<char>,
    groups: Seq<Seq<char>>,
    n: int,
    g: int,
    i: int,
)
    requires
        0 <= g < n <= groups.len(),
        maps::maps_in(doc, groups, n) is Some,
    ensures
        ({
            let before = maps::maps_in(doc, groups, g);
            let own = maps::string_array(doc, json::member(groups[g]));
            let all = maps::maps_in(doc, groups, n)->0;
            &&& before is Some && own is Some
            &&& 0 <= i < own->0.len() ==> before->0.len() + i < all.len() && all[before->0.len()
                + i] == own->0[i]
        }),
    decreases n,
{
    if g < n - 1 {
        maps_stand_group_by_group(doc, groups, n - 1, g, i);
    }
}

proof fn lemma_nothing_to_replace(s: Seq<char>, p: Seq<char>, r: Seq<char>)
    requires
        p.len() == 1,
        forall|i: int| 0 <= i < s.len() ==> #[trigger] s[i] != p[0],
    ensures
        text::replaced(s, p, r) == s,
{
    text::the_first_place_is_found(s, p);
    if let Some(i) = text::place(s, p) {
        assert(s.subrange(i, i + 1)[0] == s[i]);
    }
}

/// A member is pointed to by its name behind a slash.
pub proof fn a_member_is_pointed_to_by_name(name: Seq<char>)
    requires
        forall|i: int| 0 <= i < name.len() ==> #[trigger] name[i] != '~' && name[i] != '/',
    ensures
        json::member(name) == "/"@ + name,
{
    reveal_strlit("~");
    reveal_strlit("/");
    lemma_nothing_to_replace(name, "~"@, "~0"@);
    lemma_nothing_to_replace(name, "/"@, "~1"@);
}

// ---- layouts --------------------------------------------------------------------

/// A row that is used names two tilesets that there are, the primary and the
/// secondary one; one without what it needs is a fault.
pub proof fn a_row_names_its_tilesets(r: RowModel, names: Seq<Seq<char>>)
    requires
        names.len() <= 65536,
    ensures
        layouts::wanted_by(r, names) matches Wanted::Blocks { primary, secondary } ==> {
            &&& !r.is_null
            &&& primary < names.len() && secondary < names.len()
            &&& r.primary == Some(names[primary as int])
            &&& r.secondary == Some(names[secondary as int])
            &&& r.id is Some && r.width is Some && r.height is Some && r.path is Some
        },
        r.is_null ==> layouts::wanted_by(r, names) is Nothing,
        !r.is_null && (r.id is None || r.primary is None || r.secondary is None)
            ==> layouts::wanted_by(r, names) is Fault,
        !r.is_null && r.id is Some && r.primary is Some && r.secondary is Some && names.contains(
            r.primary->0,
        ) && names.contains(r.secondary->0) ==> if r.width is Some && r.height is Some && r.path
            is Some {
            layouts::wanted_by(r, names) is Blocks
        } else {
            layouts::wanted_by(r, names) is Fault
        },
{
    if let Some(p) = r.primary {
        text::the_last_of_a_name_is_found(names, p, names.len() as int);
    }
    if let Some(s) = r.secondary {
        text::the_last_of_a_name_is_found(names, s, names.len() as int);
    }
}

proof fn lemma_pair_place(pairs: Seq<(u16, u16)>, key: (u16, u16), from: int)
    requires
        0 <= from <= pairs.len(),
    ensures
        ({
            let i = layouts::pair_place(pairs, key, from);
            &&& from <= i <= pairs.len()
            &&& i < pairs.len() ==> pairs[i] == key
            &&& forall|k: int| from <= k < i ==> #[trigger] pairs[k] != key
        }),
    decreases pairs.len() - from,
{
    if from < pairs.len() && pairs[from] != key {
        lemma_pair_place(pairs, key, from + 1);
    }
}

proof fn lemma_pairs_grow(ks: Seq<Kept>, n: int, k: int)
    requires
        0 <= n <= k <= ks.len(),
    ensures
        land::pairs_of(ks, n).len() <= land::pairs_of(ks, k).len(),
        forall|i: int|
            0 <= i < land::pairs_of(ks, n).len() ==> #[trigger] land::pairs_of(ks, k)[i]
                == land::pairs_of(ks, n)[i],
    decreases k - n,
{
    if n < k {
        lemma_pairs_grow(ks, n, k - 1);
    }
}

/// A layout is drawn with its own two tilesets: its pair in the pack is the
/// tilesets that its row names. No pair stands in the pack twice.
pub proof fn a_layout_has_the_pair_of_its_tilesets(ls: Seq<LayoutData>, ks: Seq<Kept>, i: int)
    requires
        land::are_layouts(ls, ks),
        0 <= i < ls.len(),
    ensures
        ({
            let pairs = land::pairs_of(ks, ks.len() as int);
            ls[i].pair < pairs.len() && pairs[ls[i].pair as int] == ks[i].key
        }),
{
    let had = land::pairs_of(ks, i);
    lemma_pair_place(had, ks[i].key, 0);
    lemma_pairs_grow(ks, i + 1, ks.len() as int);
    assert(layouts::is_layout(ls[i], ks[i].row, ks[i].blocks, had, ks[i].key));
    let with = land::pairs_of(ks, i + 1);
    assert(with == layouts::with_pair(had, ks[i].key));
    assert(with[ls[i].pair as int] == ks[i].key);
}

/// No pair of tilesets stands in a pack twice.
pub proof fn no_pair_stands_twice(ks: Seq<Kept>, n: int, a: int, b: int)
    requires
        0 <= n <= ks.len(),
        0 <= a < b < land::pairs_of(ks, n).len(),
    ensures
        land::pairs_of(ks, n)[a] != land::pairs_of(ks, n)[b],
    decreases n,
{
    if n > 0 {
        let had = land::pairs_of(ks, n - 1);
        lemma_pair_place(had, ks[n - 1].key, 0);
        if b < had.len() {
            no_pair_stands_twice(ks, n - 1, a, b);
        }
    }
}

/// The layouts that are used stand in the order of their rows, each with its own
/// tilesets and the blocks of its own file.
pub proof fn layouts_stand_in_the_order_of_their_rows(
    f: Files,
    rows: Seq<RowModel>,
    names: Seq<Seq<char>>,
    n: int,
    i: int,
)
    requires
        0 <= i < n <= rows.len(),
    ensures
        land::kept_among(f, rows, names, n) matches Some(ks) ==> {
            let w = layouts::wanted_by(rows[i], names);
            let before = land::kept_among(f, rows, names, i);
            &&& before is Some
            &&& !(w is Fault)
            &&& w matches Wanted::Blocks { primary, secondary } ==> {
                let k = before->0.len() as int;
                &&& k < ks.len()
                &&& ks[k].row == rows[i]
                &&& ks[k].key == (primary, secondary)
                &&& f.file(rows[i].path->0) == Some(ks[k].blocks)
            }
        },
    decreases n,
{
    if i < n - 1 {
        layouts_stand_in_the_order_of_their_rows(f, rows, names, n - 1, i);
    }
}

/// The maps that have a layout stand in the order of their names, each read from
/// its own file.
pub proof fn maps_stand_in_the_order_of_their_names(
    f: Files,
    names: Seq<Seq<char>>,
    ids: Seq<Seq<char>>,
    n: int,
    i: int,
)
    requires
        0 <= i < n <= names.len(),
    ensures
        land::maps_among(f, names, ids, n) matches Some(ms) ==> {
            let doc = f.text("data/maps/"@ + names[i] + "/map.json"@);
            let before = land::maps_among(f, names, ids, i);
            &&& before is Some
            &&& doc is Some
            &&& !(maps::map_of(doc->0, ids) is Faulty)
            &&& maps::map_of(doc->0, ids) matches Entry::Taken(m) ==> before->0.len() < ms.len()
                && ms[before->0.len() as int] == m
        },
    decreases n,
{
    if i < n - 1 {
        maps_stand_in_the_order_of_their_names(f, names, ids, n - 1, i);
    }
}

/// A world can be laid out only where its landmarks are part of the overworld
/// that is stitched from Littleroot Town on.
pub proof fn the_overworld_has_its_landmarks(
    raws: Seq<maps::RawMapModel>,
    ls: Seq<LayoutData>,
)
    requires
        land::can_be_laid(raws, ls),
    ensures
        ({
            let seed = stitch::map_number(raws, "MAP_LITTLEROOT_TOWN"@);
            let pos = stitch::overworld(raws, ls, seed->0)->0.pos;
            &&& seed is Some
            &&& stitch::overworld(raws, ls, seed->0) is Some
            &&& stitch::map_number(raws, "MAP_ROUTE115"@) matches Some(i) && pos[i] is Some
            &&& stitch::map_number(raws, "MAP_RUSTBORO_CITY"@) matches Some(j) && pos[j] is Some
        }),
{
}

// ---- fonts and sources ----------------------------------------------------------

/// A line of the character map is a character in quotes and its code in two
/// hexadecimal digits.
pub proof fn a_charmap_line_says_character_and_code(
    line: Seq<char>,
    l: Seq<char>,
    r: Seq<char>,
    ch: char,
    v: int,
)
    requires
        text::cut_once(text::trimmed(text::cut(line, "@"@)[0]), "="@) == Some((l, r)),
        text::trimmed(l) == seq!['\'', ch, '\''],
        text::trimmed(r).len() == 2,
        text::number(text::trimmed(r), 16, usize::MAX as int) == Some(v),
        0 <= v <= usize::MAX,
    ensures
        font::entry_of(line) matches Some(c) && c.ch == ch && c.code == v,
{
}

/// The entries of a character map stand in the order of their lines.
pub proof fn entries_stand_in_order(ls: Seq<Seq<char>>, n: int, i: int)
    requires
        0 <= i < n <= ls.len(),
        font::entry_of(ls[i]) is Some,
    ensures
        ({
            let k = font::entries_of(ls, i).len() as int;
            &&& k < font::entries_of(ls, n).len()
            &&& Some(font::entries_of(ls, n)[k]) == font::entry_of(ls[i])
        }),
    decreases n,
{
    if i < n - 1 {
        entries_stand_in_order(ls, n - 1, i);
    }
}

/// The widths of a table of numbers stand in their order.
pub proof fn widths_stand_in_order(parts: Seq<Seq<char>>, n: int, i: int)
    requires
        0 <= i < n <= parts.len(),
        forall|k: int|
            0 <= k < n ==> text::number(text::trimmed(#[trigger] parts[k]), 10, 255) is Some,
    ensures
        font::bytes_among(parts, n).len() == n,
        font::bytes_among(parts, n)[i] == text::number(text::trimmed(parts[i]), 10, 255)->0 as u8,
    decreases n,
{
    lemma_widths_len(parts, n);
    lemma_widths_len(parts, n - 1);
    assert(text::number(text::trimmed(parts[n - 1]), 10, 255) is Some);
    if i < n - 1 {
        widths_stand_in_order(parts, n - 1, i);
    }
}

proof fn lemma_widths_len(parts: Seq<Seq<char>>, n: int)
    requires
        0 <= n <= parts.len(),
        forall|k: int|
            0 <= k < n ==> text::number(text::trimmed(#[trigger] parts[k]), 10, 255) is Some,
    ensures
        font::bytes_among(parts, n).len() == n,
    decreases n,
{
    if n > 0 {
        lemma_widths_len(parts, n - 1);
        assert(text::number(text::trimmed(parts[n - 1]), 10, 255) is Some);
    }
}

/// A symbol is bound to the first text in quotes behind the parenthesis that
/// opens after its first mention.
pub proof fn a_symbol_is_bound_where_it_is_first_mentioned(
    source: Seq<char>,
    sym: Seq<char>,
    at: int,
    q: int,
)
    requires
        0 <= at,
        at + sym.len() + 2 <= source.len(),
        source.subrange(at, at + sym.len() + 2) == " "@ + sym + "["@,
        forall|k: int|
            0 <= k < at ==> #[trigger] source.subrange(k, k + sym.len() + 2) != " "@ + sym + "["@,
        at <= q < source.len(),
        source[q] == '(',
        forall|k: int| at <= k < q ==> #[trigger] source[k] != '(',
        text::cut(source.skip(q), "\""@).len() > 1,
    ensures
        tilesets::path_of(source, sym) == Some(text::cut(source.skip(q), "\""@)[1]),
{
    reveal_strlit(" ");
    reveal_strlit("[");
    reveal_strlit("(");
    let p = " "@ + sym + "["@;
    assert(p.len() == sym.len() + 2);
    text::the_first_place_is_found(source, p);
    match text::place(source, p) {
        Some(i) => {
            if i < at {
                assert(source.subrange(i, i + sym.len() + 2) == p);
            } else if at < i {
                assert(source.subrange(at, at + p.len()) == p);
            }
        },
        None => {
            assert(source.subrange(at, at + p.len()) == p);
        },
    }
    let rest = source.skip(at);
    text::the_first_place_is_found(rest, "("@);
    let w = q - at;
    assert(rest.subrange(w, w + 1) =~= "("@);
    match text::place(rest, "("@) {
        Some(i) => {
            assert(rest.subrange(i, i + 1)[0] == rest[i]);
            assert(rest[i] == source[at + i]);
        },
        None => {},
    }
    assert(rest.skip(w) =~= source.skip(q));
}

} // verus!
