//! The layouts: their rows in the layout list, the tileset pairs they use, and
//! their blocks.

use vstd::prelude::*;
use crate::codec;
use crate::codec::words;
use crate::game::data::LayoutData;
use crate::text;
use crate::text::{chars_of, same_text, Text};
use crate::worldgen::json;
use crate::worldgen::json::{json_items, json_text, json_whole};

verus! {

/// A row of the layout list.
pub struct Row {
    pub is_null: bool,
    pub id: Option<String>,
    pub primary: Option<String>,
    pub secondary: Option<String>,
    pub width: Option<u64>,
    pub height: Option<u64>,
    pub path: Option<String>,
}

/// A row as a value.
#[verifier::ext_equal]
pub struct RowModel {
    pub is_null: bool,
    pub id: Option<Seq<char>>,
    pub primary: Option<Seq<char>>,
    pub secondary: Option<Seq<char>>,
    pub width: Option<u64>,
    pub height: Option<u64>,
    pub path: Option<Seq<char>>,
}

pub open spec fn view_of(s: Option<String>) -> Option<Seq<char>> {
    match s {
        Some(t) => Some(t@),
        None => None,
    }
}

impl Row {
    pub open spec fn model(&self) -> RowModel {
        RowModel {
            is_null: self.is_null,
            id: view_of(self.id),
            primary: view_of(self.primary),
            secondary: view_of(self.secondary),
            width: self.width,
            height: self.height,
            path: view_of(self.path),
        }
    }
}

/// The row that an item of the list holds.
pub open spec fn row_of(item: Seq<char>) -> RowModel {
    RowModel {
        is_null: item == "null"@,
        id: json::text_at(item, "/id"@),
        primary: json::text_at(item, "/primary_tileset"@),
        secondary: json::text_at(item, "/secondary_tileset"@),
        width: json::whole_at(item, "/width"@),
        height: json::whole_at(item, "/height"@),
        path: json::text_at(item, "/blockdata_filepath"@),
    }
}

/// The rows of a layout list, where it is one.
pub fn layout_rows(doc: &str) -> (r: Option<Vec<Row>>)
    ensures
        match json::items_at(doc@, "/layouts"@) {
            None => r is None,
            Some(items) => r is Some && r->0@.len() == items.len() && forall|i: int|
                0 <= i < items.len() ==> (#[trigger] r->0@[i]).model() == row_of(items[i]),
        },
{
    let items = match json_items(doc, "/layouts") {
        Some(v) => v,
        None => return None,
    };
    let ghost all = json::strings(items@);
    let mut out: Vec<Row> = Vec::new();
    let mut i: usize = 0;
    while i < items.len()
        invariant
            i <= items@.len(),
            all == json::strings(items@),
            out@.len() == i,
            forall|k: int| 0 <= k < i ==> (#[trigger] out@[k]).model() == row_of(all[k]),
        decreases items.len() - i,
    {
        let item = items[i].as_str();
        assert(item@ == all[i as int]);
        out.push(
            Row {
                is_null: same_text(item, "null"),
                id: json_text(item, "/id"),
                primary: json_text(item, "/primary_tileset"),
                secondary: json_text(item, "/secondary_tileset"),
                width: json_whole(item, "/width"),
                height: json_whole(item, "/height"),
                path: json_text(item, "/blockdata_filepath"),
            },
        );
        i += 1;
    }
    Some(out)
}

/// What a row asks for.
pub enum Wanted {
    /// The row is empty, or names a tileset that there is not.
    Nothing,
    /// The row lacks something.
    Fault,
    /// The blocks of a file, for a layout of these tilesets.
    Blocks { primary: u16, secondary: u16 },
}

/// The number of a tileset, in 16 bits.
pub open spec fn tileset_number(names: Seq<Seq<char>>, name: Seq<char>) -> Option<u16> {
    match text::last_named(names, name, names.len() as int) {
        Some(i) => Some((i % 65536) as u16),
        None => None,
    }
}

pub open spec fn wanted_by(r: RowModel, names: Seq<Seq<char>>) -> Wanted {
    if r.is_null {
        Wanted::Nothing
    } else if r.id is None || r.primary is None || r.secondary is None {
        Wanted::Fault
    } else {
        match (tileset_number(names, r.primary->0), tileset_number(names, r.secondary->0)) {
            (Some(primary), Some(secondary)) => if r.width is None || r.height is None || r.path
                is None {
                Wanted::Fault
            } else {
                Wanted::Blocks { primary, secondary }
            },
            _ => Wanted::Nothing,
        }
    }
}

fn number_of(names: &Vec<Text>, name: &String) -> (r: Option<u16>)
    ensures
        r == tileset_number(text::texts(names@), name@),
{
    assert(text::texts(names@).len() == names@.len());
    match text::find_last(names, &chars_of(name.as_str())) {
        Some(i) => Some((i % 65536) as u16),
        None => None,
    }
}

/// What a row asks for, by the names of the tilesets.
pub fn wanted(row: &Row, names: &Vec<Text>) -> (w: Wanted)
    ensures
        w == wanted_by(row.model(), text::texts(names@)),
{
    if row.is_null {
        return Wanted::Nothing;
    }
    match (&row.id, &row.primary, &row.secondary) {
        (Some(_), Some(p), Some(s)) => match (number_of(names, p), number_of(names, s)) {
            (Some(primary), Some(secondary)) => if row.width.is_none() || row.height.is_none()
                || row.path.is_none() {
                Wanted::Fault
            } else {
                Wanted::Blocks { primary, secondary }
            },
            _ => Wanted::Nothing,
        },
        _ => Wanted::Fault,
    }
}

/// The layouts so far and the tileset pairs that they use.
pub struct Layouts {
    pub pairs: Vec<(u16, u16)>,
    pub layouts: Vec<LayoutData>,
}

/// The first place of a pair.
pub open spec fn pair_place(pairs: Seq<(u16, u16)>, key: (u16, u16), from: int) -> int
    decreases pairs.len() - from,
{
    if from >= pairs.len() || pairs[from] == key {
        from
    } else {
        pair_place(pairs, key, from + 1)
    }
}

/// The pairs with one more, if it is new.
pub open spec fn with_pair(pairs: Seq<(u16, u16)>, key: (u16, u16)) -> Seq<(u16, u16)> {
    if pair_place(pairs, key, 0) < pairs.len() {
        pairs
    } else {
        pairs.push(key)
    }
}

/// The low 32 bits of a number.
pub open spec fn low32(v: u64) -> u32 {
    (v % 0x1_0000_0000) as u32
}

/// Blocks cut to a length, or filled up with 0.
pub open spec fn resized(blocks: Seq<u16>, n: nat) -> Seq<u16> {
    Seq::new(
        n,
        |i: int|
            if i < blocks.len() {
                blocks[i]
            } else {
                0
            },
    )
}

/// Whether a layout can be added: its blocks and its pair can be numbered.
pub open spec fn addable(l: Layouts, row: RowModel, key: (u16, u16)) -> bool {
    &&& low32(row.width->0) * low32(row.height->0) <= u32::MAX
    &&& with_pair(l.pairs@, key).len() < 65536
}

/// Whether a layout is what its row and its blocks say.
pub open spec fn is_layout(
    l: LayoutData,
    row: RowModel,
    blocks: Seq<u8>,
    pairs: Seq<(u16, u16)>,
    key: (u16, u16),
) -> bool {
    &&& l.id@ == row.id->0
    &&& l.width == low32(row.width->0)
    &&& l.height == low32(row.height->0)
    &&& l.pair == pair_place(pairs, key, 0)
    &&& l.blockdata@ == resized(
        codec::words_of(blocks),
        (low32(row.width->0) * low32(row.height->0)) as nat,
    )
}

impl Layouts {
    pub fn new() -> (l: Layouts)
        ensures
            l.pairs@.len() == 0,
            l.layouts@.len() == 0,
    {
        Layouts { pairs: Vec::new(), layouts: Vec::new() }
    }

    fn pair(&mut self, primary: u16, secondary: u16) -> (n: usize)
        ensures
            n == pair_place(old(self).pairs@, (primary, secondary), 0),
            final(self).pairs@ == with_pair(old(self).pairs@, (primary, secondary)),
            final(self).layouts == old(self).layouts,
            n < final(self).pairs@.len(),
    {
        let ghost key = (primary, secondary);
        let mut i: usize = 0;
        while i < self.pairs.len()
            invariant
                i <= self.pairs@.len(),
                *self == *old(self),
                key == (primary, secondary),
                pair_place(self.pairs@, key, 0) == pair_place(self.pairs@, key, i as int),
            decreases self.pairs.len() - i,
        {
            let (a, b): (u16, u16) = self.pairs[i];
            if a == primary && b == secondary {
                return i;
            }
            i += 1;
        }
        self.pairs.push((primary, secondary));
        i
    }

    /// Add the layout of a row with the bytes of its blocks. The layout is left
    /// out where it cannot be numbered.
    pub fn add(&mut self, row: &Row, primary: u16, secondary: u16, bytes: &[u8]) -> (ok: bool)
        requires
            row.id is Some,
            row.width is Some,
            row.height is Some,
        ensures
            ok == addable(*old(self), row.model(), (primary, secondary)),
            ok ==> {
                &&& final(self).pairs@ == with_pair(old(self).pairs@, (primary, secondary))
                &&& final(self).layouts@.len() == old(self).layouts@.len() + 1
                &&& final(self).layouts@.drop_last() == old(self).layouts@
                &&& is_layout(
                    final(self).layouts@.last(),
                    row.model(),
                    bytes@,
                    old(self).pairs@,
                    (primary, secondary),
                )
            },
    {
        let (id, w, h): (String, u64, u64) = match (&row.id, row.width, row.height) {
            (Some(id), Some(w), Some(h)) => (id.clone(), w, h),
            _ => return false,
        };
        let width: u32 = (w % 0x1_0000_0000) as u32;
        let height: u32 = (h % 0x1_0000_0000) as u32;
        assert(0 <= width * height <= 0xffff_ffff * 0xffff_ffff) by (nonlinear_arith)
            requires
                0 <= width <= 0xffff_ffff,
                0 <= height <= 0xffff_ffff,
        ;
        let n: u64 = width as u64 * height as u64;
        if n > u32::MAX as u64 {
            return false;
        }
        let pair: usize = self.pair(primary, secondary);
        if self.pairs.len() >= 65536 {
            return false;
        }
        let blocks = words(bytes);
        let mut blockdata: Vec<u16> = Vec::new();
        let mut i: u64 = 0;
        while i < n
            invariant
                i <= n <= u32::MAX,
                blocks@ == codec::words_of(bytes@),
                blockdata@ == resized(blocks@, i as nat),
            decreases n - i,
        {
            let len: usize = blocks.len();
            blockdata.push(if i < len as u64 { blocks[i as usize] } else { 0 });
            assert(blockdata@ =~= resized(blocks@, (i + 1) as nat));
            i += 1;
        }
        self.layouts.push(LayoutData { id, width, height, pair: pair as u16, blockdata });
        assert(self.layouts@.drop_last() =~= old(self).layouts@);
        true
    }
}

} // verus!
