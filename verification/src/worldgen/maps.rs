//! The maps of the sources: their names in the groups, and what the file of
//! each says of its layout, music, connections and warps.

use vstd::prelude::*;
use crate::codec;
use crate::codec::signed_word;
use crate::text;
use crate::text::{chars_of, parse_number, same_text, Text};
use crate::worldgen::json;
use crate::worldgen::json::{json_items, json_signed, json_text, member_pointer};
use crate::worldgen::layouts;

verus! {

// ---- the names of the maps -----------------------------------------------

/// The strings that the first `n` items are, where all of them are.
pub open spec fn strings_among(items: Seq<Seq<char>>, n: int) -> Option<Seq<Seq<char>>>
    decreases n,
{
    if n <= 0 {
        Some(seq![])
    } else {
        match (strings_among(items, n - 1), json::text_at(items[n - 1], ""@)) {
            (Some(v), Some(s)) => Some(v.push(s)),
            _ => None,
        }
    }
}

/// The array of strings at a pointer.
pub open spec fn string_array(doc: Seq<char>, pointer: Seq<char>) -> Option<Seq<Seq<char>>> {
    match json::items_at(doc, pointer) {
        None => None,
        Some(items) => strings_among(items, items.len() as int),
    }
}

/// The maps of the first `n` groups.
pub open spec fn maps_in(doc: Seq<char>, groups: Seq<Seq<char>>, n: int) -> Option<Seq<Seq<char>>>
    decreases n,
{
    if n <= 0 {
        Some(seq![])
    } else {
        match (maps_in(doc, groups, n - 1), string_array(doc, json::member(groups[n - 1]))) {
            (Some(v), Some(more)) => Some(v + more),
            _ => None,
        }
    }
}

/// The names of all maps, group by group in their order.
pub open spec fn names_of(doc: Seq<char>) -> Option<Seq<Seq<char>>> {
    match string_array(doc, "/group_order"@) {
        None => None,
        Some(groups) => maps_in(doc, groups, groups.len() as int),
    }
}

proof fn lemma_strings_stop(items: Seq<Seq<char>>, a: int, b: int)
    requires
        a <= b,
        strings_among(items, a) is None,
    ensures
        strings_among(items, b) is None,
    decreases b,
{
    if a < b && b > 0 {
        lemma_strings_stop(items, a, b - 1);
    }
}

proof fn lemma_maps_stop(doc: Seq<char>, groups: Seq<Seq<char>>, a: int, b: int)
    requires
        a <= b,
        maps_in(doc, groups, a) is None,
    ensures
        maps_in(doc, groups, b) is None,
    decreases b,
{
    if a < b && b > 0 {
        lemma_maps_stop(doc, groups, a, b - 1);
    }
}

fn read_strings(doc: &str, pointer: &str) -> (r: Option<Vec<String>>)
    ensures
        match string_array(doc@, pointer@) {
            Some(v) => r is Some && json::strings(r->0@) == v,
            None => r is None,
        },
{
    let items = match json_items(doc, pointer) {
        Some(v) => v,
        None => return None,
    };
    let ghost all = json::strings(items@);
    let mut out: Vec<String> = Vec::new();
    assert(json::strings(out@) =~= seq![]);
    let mut i: usize = 0;
    while i < items.len()
        invariant
            i <= items@.len(),
            all == json::strings(items@),
            json::items_at(doc@, pointer@) == Some(all),
            strings_among(all, i as int) == Some(json::strings(out@)),
        decreases items.len() - i,
    {
        assert(all[i as int] == items@[i as int]@);
        match json_text(items[i].as_str(), "") {
            Some(s) => {
                let ghost before = json::strings(out@);
                let ghost t = s@;
                out.push(s);
                assert(json::strings(out@) =~= before.push(t));
            },
            None => {
                proof {
                    lemma_strings_stop(all, i + 1, all.len() as int);
                }
                return None;
            },
        }
        i += 1;
    }
    Some(out)
}

/// The names of all maps, group by group, where the groups are all there.
pub fn map_names(groups: &str) -> (r: Option<Vec<String>>)
    ensures
        match names_of(groups@) {
            Some(v) => r is Some && json::strings(r->0@) == v,
            None => r is None,
        },
{
    let order = match read_strings(groups, "/group_order") {
        Some(v) => v,
        None => return None,
    };
    let ghost all = json::strings(order@);
    let mut out: Vec<String> = Vec::new();
    assert(json::strings(out@) =~= seq![]);
    let mut i: usize = 0;
    while i < order.len()
        invariant
            i <= order@.len(),
            all == json::strings(order@),
            string_array(groups@, "/group_order"@) == Some(all),
            maps_in(groups@, all, i as int) == Some(json::strings(out@)),
        decreases order.len() - i,
    {
        assert(all[i as int] == order@[i as int]@);
        let pointer = member_pointer(order[i].as_str());
        let more = match read_strings(groups, pointer.as_str()) {
            Some(v) => v,
            None => {
                proof {
                    lemma_maps_stop(groups@, all, i + 1, all.len() as int);
                }
                return None;
            },
        };
        let ghost before = json::strings(out@);
        let ghost added = json::strings(more@);
        let mut k: usize = 0;
        assert(json::strings(out@) =~= before + added.take(0));
        while k < more.len()
            invariant
                k <= more@.len(),
                added == json::strings(more@),
                json::strings(out@) == before + added.take(k as int),
            decreases more.len() - k,
        {
            let ghost was = json::strings(out@);
            assert(added[k as int] == more@[k as int]@);
            out.push(more[k].clone());
            assert(json::strings(out@) =~= was.push(added[k as int]));
            assert(json::strings(out@) =~= before + added.take(k + 1));
            k += 1;
        }
        assert(added.take(k as int) =~= added);
        i += 1;
    }
    Some(out)
}

// ---- connections ---------------------------------------------------------

#[derive(Clone, Copy, Debug, PartialEq, Eq, Structural)]
pub enum Side {
    Up,
    Down,
    Left,
    Right,
}

/// A map joined to one side of another, so far along that side.
pub struct Connection {
    pub side: Side,
    pub offset: i64,
    pub map: String,
}

/// A connection as a value.
#[verifier::ext_equal]
pub struct ConnectionModel {
    pub side: Side,
    pub offset: i64,
    pub map: Seq<char>,
}

impl Connection {
    pub open spec fn model(&self) -> ConnectionModel {
        ConnectionModel { side: self.side, offset: self.offset, map: self.map@ }
    }
}

pub open spec fn connection_models(v: Seq<Connection>) -> Seq<ConnectionModel> {
    Seq::new(v.len(), |i: int| v[i].model())
}

pub open spec fn side_of(s: Seq<char>) -> Option<Side> {
    if s == "up"@ {
        Some(Side::Up)
    } else if s == "down"@ {
        Some(Side::Down)
    } else if s == "left"@ {
        Some(Side::Left)
    } else if s == "right"@ {
        Some(Side::Right)
    } else {
        None
    }
}

/// What an item of a list comes to: it is left out, it is faulty, or it is
/// taken.
pub enum Entry<T> {
    Left,
    Faulty,
    Taken(T),
}

/// A connection by its direction, offset and map: only the four sides count,
/// and those must have the rest.
pub open spec fn connection_from(
    direction: Option<Seq<char>>,
    offset: Option<i64>,
    map: Option<Seq<char>>,
) -> Entry<ConnectionModel> {
    match direction {
        None => Entry::Left,
        Some(d) => match side_of(d) {
            None => Entry::Left,
            Some(side) => match (offset, map) {
                (Some(offset), Some(map)) => Entry::Taken(ConnectionModel { side, offset, map }),
                _ => Entry::Faulty,
            },
        },
    }
}

pub open spec fn connection_of(item: Seq<char>) -> Entry<ConnectionModel> {
    connection_from(
        json::text_at(item, "/direction"@),
        json::signed_at(item, "/offset"@),
        json::text_at(item, "/map"@),
    )
}

/// The connections among the first `n` items; nothing where one is faulty.
pub open spec fn connections_among(items: Seq<Seq<char>>, n: int) -> Option<Seq<ConnectionModel>>
    decreases n,
{
    if n <= 0 {
        Some(seq![])
    } else {
        match (connections_among(items, n - 1), connection_of(items[n - 1])) {
            (Some(v), Entry::Left) => Some(v),
            (Some(v), Entry::Taken(c)) => Some(v.push(c)),
            _ => None,
        }
    }
}

/// A connection by its direction, offset and map.
pub fn make_connection(
    direction: Option<String>,
    offset: Option<i64>,
    map: Option<String>,
) -> (r: Entry<Connection>)
    ensures
        match connection_from(layouts::view_of(direction), offset, layouts::view_of(map)) {
            Entry::Left => r is Left,
            Entry::Faulty => r is Faulty,
            Entry::Taken(c) => r is Taken && r->Taken_0.model() == c,
        },
{
    let d = match direction {
        None => return Entry::Left,
        Some(d) => d,
    };
    let side = if same_text(d.as_str(), "up") {
        Side::Up
    } else if same_text(d.as_str(), "down") {
        Side::Down
    } else if same_text(d.as_str(), "left") {
        Side::Left
    } else if same_text(d.as_str(), "right") {
        Side::Right
    } else {
        return Entry::Left;
    };
    match (offset, map) {
        (Some(offset), Some(map)) => Entry::Taken(Connection { side, offset, map }),
        _ => Entry::Faulty,
    }
}

proof fn lemma_connections_stop(items: Seq<Seq<char>>, a: int, b: int)
    requires
        a <= b,
        connections_among(items, a) is None,
    ensures
        connections_among(items, b) is None,
    decreases b,
{
    if a < b && b > 0 {
        lemma_connections_stop(items, a, b - 1);
    }
}

fn read_connections(items: &Vec<String>) -> (r: Option<Vec<Connection>>)
    ensures
        match connections_among(json::strings(items@), items@.len() as int) {
            Some(v) => r is Some && connection_models(r->0@) == v,
            None => r is None,
        },
{
    let ghost all = json::strings(items@);
    let mut out: Vec<Connection> = Vec::new();
    assert(connection_models(out@) =~= seq![]);
    let mut i: usize = 0;
    while i < items.len()
        invariant
            i <= items@.len(),
            all == json::strings(items@),
            connections_among(all, i as int) == Some(connection_models(out@)),
        decreases items.len() - i,
    {
        let item = items[i].as_str();
        assert(item@ == all[i as int]);
        match make_connection(
            json_text(item, "/direction"),
            json_signed(item, "/offset"),
            json_text(item, "/map"),
        ) {
            Entry::Left => {},
            Entry::Faulty => {
                proof {
                    lemma_connections_stop(all, i + 1, all.len() as int);
                }
                return None;
            },
            Entry::Taken(c) => {
                let ghost before = connection_models(out@);
                let ghost m = c.model();
                out.push(c);
                assert(connection_models(out@) =~= before.push(m));
            },
        }
        i += 1;
    }
    Some(out)
}

// ---- warps ---------------------------------------------------------------

/// A warp of a map: it leads to a warp of another map.
pub struct RawWarp {
    pub x: i32,
    pub y: i32,
    pub dest: String,
    pub index: u64,
}

/// A warp as a value.
#[verifier::ext_equal]
pub struct RawWarpModel {
    pub x: i32,
    pub y: i32,
    pub dest: Seq<char>,
    pub index: u64,
}

impl RawWarp {
    pub open spec fn model(&self) -> RawWarpModel {
        RawWarpModel { x: self.x, y: self.y, dest: self.dest@, index: self.index }
    }
}

pub open spec fn warp_models(v: Seq<RawWarp>) -> Seq<RawWarpModel> {
    Seq::new(v.len(), |i: int| v[i].model())
}

/// The low 32 bits of a number, as a signed number.
pub open spec fn low_signed(v: i64) -> i32 {
    codec::signed32((v as int % 0x1_0000_0000) as u32)
}

/// A warp by its destination, the number of the warp there, and its place;
/// left out where any of them is not there.
pub open spec fn warp_from(
    dest: Option<Seq<char>>,
    index: Option<Seq<char>>,
    x: Option<i64>,
    y: Option<i64>,
) -> Option<RawWarpModel> {
    match (dest, index, x, y) {
        (Some(dest), Some(t), Some(x), Some(y)) => match text::number(t, 10, usize::MAX as int) {
            Some(i) => Some(
                RawWarpModel { x: low_signed(x), y: low_signed(y), dest, index: i as u64 },
            ),
            None => None,
        },
        _ => None,
    }
}

pub open spec fn warp_of(item: Seq<char>) -> Option<RawWarpModel> {
    warp_from(
        json::text_at(item, "/dest_map"@),
        json::text_at(item, "/dest_warp_id"@),
        json::signed_at(item, "/x"@),
        json::signed_at(item, "/y"@),
    )
}

/// The warps among the first `n` items.
pub open spec fn warps_among(items: Seq<Seq<char>>, n: int) -> Seq<RawWarpModel>
    decreases n,
{
    if n <= 0 {
        seq![]
    } else {
        match warp_of(items[n - 1]) {
            Some(w) => warps_among(items, n - 1).push(w),
            None => warps_among(items, n - 1),
        }
    }
}

/// The low 32 bits of a number, as a signed number.
pub fn low_signed_of(v: i64) -> (r: i32)
    ensures
        r == low_signed(v),
{
    let n: u128 = (v as i128 + 0x1_0000_0000_0000_0000) as u128;
    let low: u32 = (n % 0x1_0000_0000) as u32;
    assert(n as int % 0x1_0000_0000 == v as int % 0x1_0000_0000);
    signed_word(low)
}

/// A warp by its destination, the number of the warp there, and its place.
pub fn make_warp(
    dest: Option<String>,
    index: Option<String>,
    x: Option<i64>,
    y: Option<i64>,
) -> (r: Option<RawWarp>)
    ensures
        match warp_from(layouts::view_of(dest), layouts::view_of(index), x, y) {
            Some(w) => r is Some && r->0.model() == w,
            None => r is None,
        },
{
    match (dest, index, x, y) {
        (Some(dest), Some(t), Some(x), Some(y)) => {
            match parse_number(&chars_of(t.as_str()), 10, usize::MAX as u64) {
                Some(index) => Some(
                    RawWarp { x: low_signed_of(x), y: low_signed_of(y), dest, index },
                ),
                None => None,
            }
        },
        _ => None,
    }
}

fn read_warps(items: &Vec<String>) -> (out: Vec<RawWarp>)
    ensures
        warp_models(out@) == warps_among(json::strings(items@), items@.len() as int),
{
    let ghost all = json::strings(items@);
    let mut out: Vec<RawWarp> = Vec::new();
    assert(warp_models(out@) =~= seq![]);
    let mut i: usize = 0;
    while i < items.len()
        invariant
            i <= items@.len(),
            all == json::strings(items@),
            warp_models(out@) == warps_among(all, i as int),
        decreases items.len() - i,
    {
        let item = items[i].as_str();
        assert(item@ == all[i as int]);
        if let Some(w) = make_warp(
            json_text(item, "/dest_map"),
            json_text(item, "/dest_warp_id"),
            json_signed(item, "/x"),
            json_signed(item, "/y"),
        ) {
            let ghost before = warp_models(out@);
            let ghost m = w.model();
            out.push(w);
            assert(warp_models(out@) =~= before.push(m));
        }
        i += 1;
    }
    out
}

// ---- maps ----------------------------------------------------------------

/// A map as its file has it.
pub struct RawMap {
    pub id: String,
    pub music: String,
    pub layout: u16,
    pub connections: Vec<Connection>,
    pub warps: Vec<RawWarp>,
}

/// A map as a value.
#[verifier::ext_equal]
pub struct RawMapModel {
    pub id: Seq<char>,
    pub music: Seq<char>,
    pub layout: u16,
    pub connections: Seq<ConnectionModel>,
    pub warps: Seq<RawWarpModel>,
}

impl RawMap {
    pub open spec fn model(&self) -> RawMapModel {
        RawMapModel {
            id: self.id@,
            music: self.music@,
            layout: self.layout,
            connections: connection_models(self.connections@),
            warps: warp_models(self.warps@),
        }
    }
}

pub open spec fn map_models(v: Seq<RawMap>) -> Seq<RawMapModel> {
    Seq::new(v.len(), |i: int| v[i].model())
}

/// The items of the array at a pointer; none where there is no array.
pub open spec fn items_or_none(doc: Seq<char>, pointer: Seq<char>) -> Seq<Seq<char>> {
    match json::items_at(doc, pointer) {
        Some(items) => items,
        None => seq![],
    }
}

/// A map by what its file holds. A map whose layout is not in the list is left
/// out; one without an id, or with a faulty connection, is faulty.
pub open spec fn map_from(
    layout: Option<Seq<char>>,
    id: Option<Seq<char>>,
    music: Option<Seq<char>>,
    connections: Option<Seq<ConnectionModel>>,
    warps: Seq<RawWarpModel>,
    layout_ids: Seq<Seq<char>>,
) -> Entry<RawMapModel> {
    match layout {
        None => Entry::Faulty,
        Some(l) => match layouts::tileset_number(layout_ids, l) {
            None => Entry::Left,
            Some(layout) => match (id, connections) {
                (Some(id), Some(connections)) => Entry::Taken(
                    RawMapModel {
                        id,
                        music: match music {
                            Some(m) => m,
                            None => "MUS_NONE"@,
                        },
                        layout,
                        connections,
                        warps,
                    },
                ),
                _ => Entry::Faulty,
            },
        },
    }
}

/// The map that a file holds.
pub open spec fn map_of(doc: Seq<char>, layout_ids: Seq<Seq<char>>) -> Entry<RawMapModel> {
    let cs = items_or_none(doc, "/connections"@);
    let ws = items_or_none(doc, "/warp_events"@);
    map_from(
        json::text_at(doc, "/layout"@),
        json::text_at(doc, "/id"@),
        json::text_at(doc, "/music"@),
        connections_among(cs, cs.len() as int),
        warps_among(ws, ws.len() as int),
        layout_ids,
    )
}

/// A map by what its file holds.
pub fn make_map(
    layout: Option<String>,
    id: Option<String>,
    music: Option<String>,
    connections: Option<Vec<Connection>>,
    warps: Vec<RawWarp>,
    layout_ids: &Vec<Text>,
) -> (r: Entry<RawMap>)
    ensures
        match map_from(
            layouts::view_of(layout),
            layouts::view_of(id),
            layouts::view_of(music),
            match connections {
                Some(c) => Some(connection_models(c@)),
                None => None,
            },
            warp_models(warps@),
            text::texts(layout_ids@),
        ) {
            Entry::Left => r is Left,
            Entry::Faulty => r is Faulty,
            Entry::Taken(m) => r is Taken && r->Taken_0.model() == m,
        },
{
    let l = match layout {
        None => return Entry::Faulty,
        Some(l) => l,
    };
    assert(text::texts(layout_ids@).len() == layout_ids@.len());
    let number: u16 = match text::find_last(layout_ids, &chars_of(l.as_str())) {
        None => return Entry::Left,
        Some(i) => (i % 65536) as u16,
    };
    match (id, connections) {
        (Some(id), Some(connections)) => {
            let music = match music {
                Some(m) => m,
                None => text::string_of(&chars_of("MUS_NONE")),
            };
            Entry::Taken(RawMap { id, music, layout: number, connections, warps })
        },
        _ => Entry::Faulty,
    }
}

fn read_items(doc: &str, pointer: &str) -> (items: Vec<String>)
    ensures
        json::strings(items@) == items_or_none(doc@, pointer@),
{
    match json_items(doc, pointer) {
        Some(v) => v,
        None => {
            let none: Vec<String> = Vec::new();
            assert(json::strings(none@) =~= seq![]);
            none
        },
    }
}

/// The map that a file holds, by the ids of the layouts.
pub fn read_map(doc: &str, layout_ids: &Vec<Text>) -> (r: Entry<RawMap>)
    ensures
        match map_of(doc@, text::texts(layout_ids@)) {
            Entry::Left => r is Left,
            Entry::Faulty => r is Faulty,
            Entry::Taken(m) => r is Taken && r->Taken_0.model() == m,
        },
{
    let cs = read_items(doc, "/connections");
    let ws = read_items(doc, "/warp_events");
    assert(json::strings(cs@).len() == cs@.len());
    assert(json::strings(ws@).len() == ws@.len());
    let connections = read_connections(&cs);
    let warps = read_warps(&ws);
    make_map(
        json_text(doc, "/layout"),
        json_text(doc, "/id"),
        json_text(doc, "/music"),
        connections,
        warps,
        layout_ids,
    )
}

} // verus!
