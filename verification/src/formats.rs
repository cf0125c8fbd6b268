//! How the packs are laid out, byte by byte.

use vstd::prelude::*;
use vstd::utf8::encode_utf8;
use crate::audio::data;
use crate::audio::data::{Event, EventKind, KeysplitTable, MusicModel, MusicPack, SampleData, SongData, Voice, VoiceGroup};
use crate::codec;
use crate::codec::Wire;
use crate::game::data::{DoorData, LayoutData, MapData, RealmData, Start, TilesetData, WarpData, WorldModel};

verus! {

/// The number that two bytes spell, the lower first.
pub open spec fn pair_at(b: Seq<u8>, at: int) -> int {
    b[at] + 256 * b[at + 1]
}

/// The number that four bytes spell, the lowest first.
pub open spec fn word_at(b: Seq<u8>, at: int) -> int {
    b[at] + 256 * b[at + 1] + 65536 * b[at + 2] + 16777216 * b[at + 3]
}

/// A number below zero is spelled as if 2 to the 32nd were added to it.
pub open spec fn unsigned(v: int) -> int {
    if v < 0 {
        v + 0x1_0000_0000
    } else {
        v
    }
}

/// Numbers are written and read the lowest byte first.
pub proof fn numbers_stand_lowest_first(v: u16, w: u32, s: Seq<u8>)
    ensures
        codec::le16(v).len() == 2 && pair_at(codec::le16(v), 0) == v,
        codec::le32(w).len() == 4 && word_at(codec::le32(w), 0) == w,
        s.len() >= 2 ==> codec::from_le16(s) == pair_at(s, 0),
        s.len() >= 4 ==> codec::from_le32(s) == word_at(s, 0),
{
    reveal(codec::le16);
    reveal(codec::le32);
    reveal(codec::from_le16);
    reveal(codec::from_le32);
}

/// A number below zero is written as its complement, and read as it was.
pub proof fn negatives_are_complements(a: i32, b: i8)
    ensures
        codec::bits32(a) == unsigned(a as int),
        codec::signed32(codec::bits32(a)) == a,
        codec::bits8(b) == if b < 0 {
            b + 256
        } else {
            b as int
        },
        codec::signed8(codec::bits8(b)) == b,
        codec::flag_byte(true) == 1,
        codec::flag_byte(false) == 0,
{
}

/// Bytes, texts and words stand behind their count, which is four bytes long; a
/// number that may be missing is all ones where it is.
pub proof fn counts_stand_before_what_they_count(
    b: Seq<u8>,
    c: Seq<char>,
    w: Seq<u16>,
    o: Option<u32>,
)
    requires
        b.len() < 0x1_0000_0000,
        encode_utf8(c).len() < 0x1_0000_0000,
        w.len() < 0x1_0000_0000,
    ensures
        codec::enc_bytes(b).len() == 4 + b.len(),
        word_at(codec::enc_bytes(b), 0) == b.len(),
        codec::enc_bytes(b).skip(4) == b,
        codec::enc_str(c).len() == 4 + encode_utf8(c).len(),
        word_at(codec::enc_str(c), 0) == encode_utf8(c).len(),
        codec::enc_str(c).skip(4) == encode_utf8(c),
        codec::enc_u16s(w).len() == 4 + 2 * w.len(),
        word_at(codec::enc_u16s(w), 0) == w.len(),
        forall|i: int|
            0 <= i < w.len() ==> pair_at(codec::enc_u16s(w), 4 + 2 * i) == #[trigger] w[i],
        codec::enc_opt_u32(o).len() == 4,
        o is None ==> word_at(codec::enc_opt_u32(o), 0) == u32::MAX,
        o matches Some(v) ==> word_at(codec::enc_opt_u32(o), 0) == v,
{
    reveal(codec::enc_bytes);
    reveal(codec::enc_u16s);
    reveal(codec::enc_opt_u32);
    lemma_counted(b.len() as u32, b);
    lemma_counted(encode_utf8(c).len() as u32, encode_utf8(c));
    codec::lemma_word_bytes(w);
    lemma_counted(w.len() as u32, codec::word_bytes(w));
    numbers_stand_lowest_first(0, u32::MAX, seq![]);
    if let Some(v) = o {
        numbers_stand_lowest_first(0, v, seq![]);
    }
    assert forall|i: int| 0 <= i < w.len() implies pair_at(codec::enc_u16s(w), 4 + 2 * i)
        == #[trigger] w[i] by {
        let t = codec::word_bytes(w).skip(2 * i);
        numbers_stand_lowest_first(0, 0, t);
        assert(t[0] == codec::enc_u16s(w)[4 + 2 * i]);
        assert(t[1] == codec::enc_u16s(w)[4 + 2 * i + 1]);
    }
}

proof fn lemma_counted(n: u32, b: Seq<u8>)
    ensures
        (codec::le32(n) + b).len() == 4 + b.len(),
        word_at(codec::le32(n) + b, 0) == n,
        (codec::le32(n) + b).skip(4) == b,
{
    numbers_stand_lowest_first(0, n, seq![]);
    assert((codec::le32(n) + b).skip(4) =~= b);
}

/// A list is its count and its items, one behind the other.
pub proof fn items_stand_one_behind_the_other<T: Wire>(ms: Seq<T::M>, m: T::M)
    requires
        ms.len() < 0xFFFF_FFFF,
    ensures
        codec::enc_list::<T>(ms).len() >= 4,
        word_at(codec::enc_list::<T>(ms), 0) == ms.len(),
        codec::enc_list::<T>(ms.push(m)).skip(4) == codec::enc_list::<T>(ms).skip(4) + T::enc(m),
        codec::enc_list::<T>(seq![]).len() == 4,
{
    reveal(codec::enc_list);
    let more = ms.push(m);
    assert(more.drop_last() =~= ms);
    lemma_counted(ms.len() as u32, codec::enc_run::<T>(ms));
    lemma_counted(more.len() as u32, codec::enc_run::<T>(more));
    lemma_counted(0, codec::enc_run::<T>(seq![]));
}

/// What is read stands at the front, and the rest is left; a number, a count or
/// bytes that are cut short are refused, and so is a count of more than is left.
pub proof fn what_is_cut_short_is_refused(s: Seq<u8>, n: nat)
    ensures
        s.len() >= 1 ==> codec::dec_u8(s) == Ok::<(u8, Seq<u8>), Seq<char>>((s[0], s.skip(1))),
        s.len() < 1 ==> codec::dec_u8(s) is Err && codec::dec_flag(s) is Err,
        s.len() >= 1 ==> (codec::dec_flag(s) matches Ok((b, r)) && b == (s[0] != 0) && r == s.skip(
            1,
        )),
        s.len() >= 2 ==> (codec::dec_u16(s) matches Ok((v, r)) && v == pair_at(s, 0) && r == s.skip(
            2,
        )),
        s.len() < 2 ==> codec::dec_u16(s) is Err,
        s.len() >= 4 ==> (codec::dec_u32(s) matches Ok((v, r)) && v == word_at(s, 0) && r == s.skip(
            4,
        )),
        s.len() < 4 ==> codec::dec_u32(s) is Err,
        n <= s.len() ==> (codec::dec_take(n, s) matches Ok((b, r)) && b == s.take(n as int) && r
            == s.skip(n as int)),
        n > s.len() ==> codec::dec_take(n, s) is Err,
        s.len() >= 4 && word_at(s, 0) > s.len() - 4 ==> codec::dec_bytes(s) is Err
            && codec::dec_u16s(s) is Err,
        s.len() >= 4 && word_at(s, 0) <= s.len() - 4 ==> (codec::dec_bytes(s) matches Ok((b, r)) && b
            == s.subrange(4, 4 + word_at(s, 0)) && r == s.skip(4 + word_at(s, 0))),
{
    reveal(codec::dec_u8);
    reveal(codec::dec_flag);
    reveal(codec::dec_u16);
    reveal(codec::dec_u32);
    reveal(codec::dec_take);
    reveal(codec::dec_len);
    reveal(codec::dec_bytes);
    reveal(codec::dec_u16s);
    numbers_stand_lowest_first(0, 0, s);
    if s.len() >= 4 && word_at(s, 0) <= s.len() - 4 {
        let v = word_at(s, 0);
        assert(s.skip(4).take(v) =~= s.subrange(4, 4 + v));
        assert(s.skip(4).skip(v) =~= s.skip(4 + v));
    }
}

// ---- the world pack ----------------------------------------------------------------

/// A warp is where it stands, the realm that it leads to, and where there.
pub proof fn a_warp_is_written_from_here_to_there(w: WarpData)
    ensures
        ({
            let b = WarpData::enc(w);
            &&& b.len() == 18
            &&& word_at(b, 0) == unsigned(w.x as int)
            &&& word_at(b, 4) == unsigned(w.y as int)
            &&& pair_at(b, 8) == w.to_realm
            &&& word_at(b, 10) == unsigned(w.to_x as int)
            &&& word_at(b, 14) == unsigned(w.to_y as int)
        }),
{
    numbers_stand_lowest_first(w.to_realm, codec::bits32(w.x), seq![]);
    numbers_stand_lowest_first(0, codec::bits32(w.y), seq![]);
    numbers_stand_lowest_first(0, codec::bits32(w.to_x), seq![]);
    numbers_stand_lowest_first(0, codec::bits32(w.to_y), seq![]);
}

/// The start is its realm, its column and its row.
pub proof fn a_start_is_written_realm_first(s: Start)
    ensures
        ({
            let b = Start::enc(s);
            &&& b.len() == 10
            &&& pair_at(b, 0) == s.realm
            &&& word_at(b, 2) == unsigned(s.x as int)
            &&& word_at(b, 6) == unsigned(s.y as int)
        }),
{
    numbers_stand_lowest_first(s.realm, codec::bits32(s.x), seq![]);
    numbers_stand_lowest_first(0, codec::bits32(s.y), seq![]);
}

/// A pair is the primary tileset and the secondary one.
pub proof fn a_pair_is_written_primary_first(p: (u16, u16))
    ensures
        <(u16, u16)>::enc(p).len() == 4,
        pair_at(<(u16, u16)>::enc(p), 0) == p.0,
        pair_at(<(u16, u16)>::enc(p), 2) == p.1,
{
    numbers_stand_lowest_first(p.0, 0, seq![]);
    numbers_stand_lowest_first(p.1, 0, seq![]);
}

/// An image is its width, its height and its counted bytes.
pub proof fn an_image_is_written_size_first(m: crate::game::data::ImageModel)
    requires
        m.rgba.len() < 0x1_0000_0000,
    ensures
        ({
            let b = crate::game::data::enc_image(m);
            &&& b.len() == 12 + m.rgba.len()
            &&& word_at(b, 0) == m.w
            &&& word_at(b, 4) == m.h
            &&& word_at(b, 8) == m.rgba.len()
            &&& b.skip(12) == m.rgba
        }),
{
    numbers_stand_lowest_first(0, m.w, seq![]);
    numbers_stand_lowest_first(0, m.h, seq![]);
    counts_stand_before_what_they_count(m.rgba, seq![], seq![], None);
    let b = crate::game::data::enc_image(m);
    let c = codec::enc_bytes(m.rgba);
    assert(b[8] == c[0] && b[9] == c[1] && b[10] == c[2] && b[11] == c[3]);
    assert(b.skip(12) =~= c.skip(4));
}

/// The records of the world pack have their parts in this order.
pub proof fn world_records_have_their_order(
    t: crate::game::data::TilesetModel,
    l: crate::game::data::LayoutModel,
    m: crate::game::data::MapModel,
    r: crate::game::data::RealmModel,
    d: crate::game::data::DoorModel,
)
    ensures
        TilesetData::enc(t) == codec::enc_str(t.name) + seq![
            if t.is_secondary {
                1u8
            } else {
                0u8
            },
        ] + codec::enc_bytes(t.tiles_4bpp) + t.palettes + codec::enc_u16s(t.metatiles)
            + codec::enc_u16s(t.attributes),
        LayoutData::enc(l) == codec::enc_str(l.id) + codec::le32(l.width) + codec::le32(l.height)
            + codec::le16(l.pair) + codec::enc_u16s(l.blockdata),
        MapData::enc(m) == codec::enc_str(m.id) + codec::enc_str(m.music) + codec::le16(m.layout)
            + codec::le32(codec::bits32(m.x)) + codec::le32(codec::bits32(m.y)) + codec::enc_list::<
            WarpData,
        >(m.warps),
        RealmData::enc(r) == codec::le32(r.width) + codec::le32(r.height) + codec::enc_list::<
            MapData,
        >(r.maps),
        DoorData::enc(d) == codec::le16(d.tileset) + codec::le16(d.metatile)
            + crate::game::data::enc_image(d.frames),
{
    broadcast use codec::lemma_assoc;

}

/// The world pack begins with `EMWORLD4`; then come its tilesets, pairs, layouts
/// and realms, the player, the font and its widths, the surfing player, the blob
/// and the bike, the doors, the two tables of behaviors, and the start.
pub proof fn the_world_pack_has_its_order(m: WorldModel)
    ensures
        crate::game::data::enc_world(m) == seq![
            'E' as u8,
            'M' as u8,
            'W' as u8,
            'O' as u8,
            'R' as u8,
            'L' as u8,
            'D' as u8,
            '4' as u8,
        ] + codec::enc_list::<TilesetData>(m.tilesets) + codec::enc_list::<(u16, u16)>(m.pairs)
            + codec::enc_list::<LayoutData>(m.layouts) + codec::enc_list::<RealmData>(m.realms)
            + crate::game::data::enc_image(m.player) + crate::game::data::enc_image(m.font)
            + codec::enc_bytes(m.font_widths) + crate::game::data::enc_image(m.surf_player)
            + crate::game::data::enc_image(m.surf_blob) + crate::game::data::enc_image(m.bike)
            + codec::enc_list::<DoorData>(m.doors) + m.surfable + m.warp_dir + Start::enc(m.start),
{
    broadcast use codec::lemma_assoc;

    assert(crate::game::data::MAGIC@ =~= seq![
        'E' as u8,
        'M' as u8,
        'W' as u8,
        'O' as u8,
        'R' as u8,
        'L' as u8,
        'D' as u8,
        '4' as u8,
    ]);
}

// ---- the music pack ----------------------------------------------------------------

/// An event is its tick, the number of its kind and what the kind holds.
pub proof fn an_event_is_written_tick_first(e: Event)
    ensures
        ({
            let b = Event::enc(e);
            &&& b.len() >= 6
            &&& word_at(b, 0) == e.tick
            &&& e.kind matches EventKind::Note { key, vel, dur } ==> b.len() == 11 && b[4] == 0
                && b[5] == key && b[6] == vel && word_at(b, 7) == dur
            &&& e.kind matches EventKind::Program(v) ==> b.len() == 6 && b[4] == 1 && b[5] == v
            &&& e.kind matches EventKind::Bend(v) ==> b.len() == 6 && b[4] == 2 && b[5] == (
            v as int) % 256
            &&& e.kind matches EventKind::Volume(v) ==> b.len() == 6 && b[4] == 3 && b[5] == v
            &&& e.kind matches EventKind::Pan(v) ==> b.len() == 6 && b[4] == 4 && b[5] == (v as int)
                % 256
            &&& e.kind matches EventKind::Mod(v) ==> b.len() == 6 && b[4] == 5 && b[5] == v
            &&& e.kind matches EventKind::BendRange(v) ==> b.len() == 6 && b[4] == 6 && b[5] == v
            &&& e.kind matches EventKind::LfoSpeed(v) ==> b.len() == 6 && b[4] == 7 && b[5] == v
        }),
{
    numbers_stand_lowest_first(0, e.tick, seq![]);
    if let EventKind::Note { key, vel, dur } = e.kind {
        numbers_stand_lowest_first(0, dur, seq![]);
    }
}

/// A voice is the number of its kind and what the kind holds.
pub proof fn a_voice_is_written_kind_first(v: Voice)
    ensures
        ({
            let b = Voice::enc(v);
            &&& v matches Voice::DirectSound { base_key, pan, sample, adsr, fixed } ==> b.len() == 10
                && b[0] == 0 && b[1] == base_key && b[2] == pan && pair_at(b, 3) == sample && b[5]
                == adsr[0] && b[6] == adsr[1] && b[7] == adsr[2] && b[8] == adsr[3] && b[9]
                == if fixed {
                1int
            } else {
                0int
            }
            &&& v matches Voice::Square { base_key, pan, duty, sweep, adsr } ==> b.len() == 9 && b[0]
                == 1 && b[1] == base_key && b[2] == pan && b[3] == duty && b[4] == sweep && b[5]
                == adsr[0] && b[6] == adsr[1] && b[7] == adsr[2] && b[8] == adsr[3]
            &&& v matches Voice::Wave { base_key, pan, wave, adsr } ==> b.len() == 9 && b[0] == 2
                && b[1] == base_key && b[2] == pan && pair_at(b, 3) == wave && b[5] == adsr[0]
                && b[6] == adsr[1] && b[7] == adsr[2] && b[8] == adsr[3]
            &&& v matches Voice::Noise { base_key, pan, period, adsr } ==> b.len() == 8 && b[0] == 3
                && b[1] == base_key && b[2] == pan && b[3] == period && b[4] == adsr[0] && b[5]
                == adsr[1] && b[6] == adsr[2] && b[7] == adsr[3]
            &&& v matches Voice::Keysplit { group, table } ==> b.len() == 5 && b[0] == 4 && pair_at(
                b,
                1,
            ) == group && pair_at(b, 3) == table
            &&& v matches Voice::KeysplitAll { group } ==> b.len() == 3 && b[0] == 5 && pair_at(
                b,
                1,
            ) == group
            &&& v is Unsupported ==> b == seq![6u8]
        }),
{
    match v {
        Voice::DirectSound { sample, .. } => {
            numbers_stand_lowest_first(sample, 0, seq![]);
        },
        Voice::Wave { wave, .. } => {
            numbers_stand_lowest_first(wave, 0, seq![]);
        },
        Voice::Keysplit { group, table } => {
            numbers_stand_lowest_first(group, 0, seq![]);
            numbers_stand_lowest_first(table, 0, seq![]);
        },
        Voice::KeysplitAll { group } => {
            numbers_stand_lowest_first(group, 0, seq![]);
        },
        _ => {},
    }
}

/// The records of the music pack have their parts in this order, and the pack
/// begins with its own eight letters.
pub proof fn music_records_have_their_order(
    s: data::SampleModel,
    k: data::KeysplitModel,
    g: data::GroupModel,
    n: data::SongModel,
    m: MusicModel,
)
    ensures
        SampleData::enc(s) == codec::enc_str(s.name) + codec::le32(s.rate) + codec::enc_opt_u32(
            s.loop_start,
        ) + codec::enc_bytes(Seq::new(s.pcm.len(), |i: int| codec::bits8(s.pcm[i]))),
        KeysplitTable::enc(k) == codec::enc_str(k.name) + k.map,
        VoiceGroup::enc(g) == codec::enc_str(g.name) + codec::le16(g.offset) + codec::enc_list::<
            Voice,
        >(g.entries),
        SongData::enc(n) == codec::enc_str(n.name) + codec::le16(n.voicegroup) + seq![
            n.master_volume,
        ] + seq![n.reverb] + codec::le16(n.division) + codec::enc_list::<(u32, u32)>(n.tempos)
            + codec::enc_opt_u32(n.loop_start) + codec::enc_opt_u32(n.loop_end) + codec::enc_list::<
            Vec<Event>,
        >(n.tracks),
        data::enc_music(m).skip(8) == codec::enc_list::<SampleData>(m.samples) + codec::enc_list::<
            [u8; 32],
        >(m.waves) + codec::enc_list::<KeysplitTable>(m.keysplits) + codec::enc_list::<VoiceGroup>(
            m.voicegroups,
        ) + codec::enc_list::<SongData>(m.songs),
{
    broadcast use codec::lemma_assoc;

    assert(data::pcm_bytes(s.pcm) =~= Seq::new(s.pcm.len(), |i: int| codec::bits8(s.pcm[i])));
    assert(data::MAGIC@.len() == 8);
    assert(data::enc_music(m).skip(8) =~= MusicPack::enc(m));
}

} // verus!
