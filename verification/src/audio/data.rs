//! The music pack: the one data format between the extractor and the m4a
//! engine.
//!
//! The pack carries the raw structures the runtime needs (voicegroups with
//! their keysplit and drumset entries intact, keysplit tables, the sample
//! bank), never a flattened (program, key) to voice map. Resolution against
//! these tables happens at note-on.
//!
//! Layout: the magic `EMMUSIC1`, little-endian integers, length-prefixed.

use vstd::prelude::*;
use vstd::utf8::*;
use crate::codec;
use crate::codec::{
    array128, array32, array4, read_list, same_bytes, signed_byte, write_list, Dec, PackError, Wire,
    R, W,
};

verus! {

/// The bytes `EMMUSIC1`.
pub const MAGIC: [u8; 8] = [0x45, 0x4D, 0x4D, 0x55, 0x53, 0x49, 0x43, 0x31];

#[derive(Debug, PartialEq)]
pub struct MusicPack {
    /// DirectSound samples: 8-bit signed PCM.
    pub samples: Vec<SampleData>,
    /// PSG programmable wave patterns: 32 x 4-bit samples.
    pub waves: Vec<[u8; 32]>,
    /// Keysplit tables: MIDI key to voice index into the sub-voicegroup.
    pub keysplits: Vec<KeysplitTable>,
    pub voicegroups: Vec<VoiceGroup>,
    pub songs: Vec<SongData>,
}

#[derive(Debug, PartialEq)]
pub struct SampleData {
    pub name: String,
    /// Sample rate in Hz: the bits of a single-precision number.
    pub rate: u32,
    /// Loop start frame; None = one-shot.
    pub loop_start: Option<u32>,
    pub pcm: Vec<i8>,
}

#[derive(Debug, PartialEq)]
pub struct KeysplitTable {
    pub name: String,
    pub map: [u8; 128],
}

#[derive(Debug, PartialEq)]
pub struct VoiceGroup {
    pub name: String,
    /// First program number the entries cover.
    pub offset: u16,
    pub entries: Vec<Voice>,
}

/// One voicegroup entry, raw (DirectSound: 0-255 envelope math; PSG: 0-15
/// envelope registers).
#[derive(Debug, Clone, Copy, PartialEq, Eq)]
pub enum Voice {
    DirectSound {
        base_key: u8,
        pan: u8,
        sample: u16,
        adsr: [u8; 4],
        /// Plays at the sample's own rate.
        fixed: bool,
    },
    Square {
        base_key: u8,
        pan: u8,
        /// Duty 0-3: 12.5 / 25 / 50 / 75 %.
        duty: u8,
        /// Square 1 sweep register (unused by the hi-fi stage, kept raw).
        sweep: u8,
        adsr: [u8; 4],
    },
    Wave { base_key: u8, pan: u8, wave: u16, adsr: [u8; 4] },
    Noise {
        base_key: u8,
        pan: u8,
        /// NR43 counter width bit: 0 = 15-bit LFSR, 1 = 7-bit.
        period: u8,
        adsr: [u8; 4],
    },
    /// Melodic keysplit: look the note's key up in `table`, then use that
    /// voice index within `group`. Resolved at note-on.
    Keysplit { group: u16, table: u16 },
    /// Drumset: the note's key is the voice index within `group`; the note
    /// sounds at the sub-voice's own base key.
    KeysplitAll { group: u16 },
    /// Anything the engine does not play (cries, malformed lines): kept so
    /// that indices stay aligned.
    Unsupported,
}

#[derive(Debug, PartialEq)]
pub struct SongData {
    pub name: String,
    pub voicegroup: u16,
    /// Master volume (0-127).
    pub master_volume: u8,
    /// Reverb (0-127), a frame-buffer echo.
    pub reverb: u8,
    /// MIDI ticks per beat.
    pub division: u16,
    /// (tick, microseconds per beat), sorted by tick.
    pub tempos: Vec<(u32, u32)>,
    /// Loop start and end in ticks (from the `[` and `]` markers).
    pub loop_start: Option<u32>,
    pub loop_end: Option<u32>,
    pub tracks: Vec<Vec<Event>>,
}

#[derive(Debug, Clone, Copy, PartialEq, Eq, Structural)]
pub struct Event {
    pub tick: u32,
    pub kind: EventKind,
}

#[derive(Debug, Clone, Copy, PartialEq, Eq, Structural)]
pub enum EventKind {
    /// `dur` is in ticks; the velocity is already quantised.
    Note { key: u8, vel: u8, dur: u32 },
    Program(u8),
    /// Pitch bend, -64..63.
    Bend(i8),
    /// Track volume 0-127 (master volume already folded in).
    Volume(u8),
    /// Pan -64..63, 0 = centre.
    Pan(i8),
    /// Modulation (vibrato) depth.
    Mod(u8),
    BendRange(u8),
    LfoSpeed(u8),
}

// ---- envelopes and waves -------------------------------------------------

pub open spec fn dec_adsr(s: Seq<u8>) -> Dec<[u8; 4]> {
    match codec::dec_take(4, s) {
        Err(e) => Err(e),
        Ok((b, s)) => Ok(([b[0], b[1], b[2], b[3]], s)),
    }
}

proof fn lemma_dec_adsr(a: [u8; 4], post: Seq<u8>)
    ensures
        dec_adsr(a@ + post) == Ok::<([u8; 4], Seq<u8>), Seq<char>>((a, post)),
{
    codec::lemma_dec_take(a@, post);
    let b = [a@[0], a@[1], a@[2], a@[3]];
    assert(b@ =~= a@);
    assert(b =~= a);
}

fn read_adsr(r: &mut R<'_>) -> (res: Result<[u8; 4], PackError>)
    requires
        old(r).wf(),
    ensures
        final(r).wf(),
        match dec_adsr(old(r).rest()) {
            Ok((m, rest)) => (res matches Ok(v) && v == m && final(r).rest() == rest),
            Err(m) => (res matches Err(e) && e.0@ == m),
        },
{
    let b = r.take(4)?;
    let a = array4(b);
    assert(a =~= [b@[0], b@[1], b@[2], b@[3]]);
    Ok(a)
}

/// The bytes that hold signed samples.
pub open spec fn pcm_bytes(p: Seq<i8>) -> Seq<u8> {
    Seq::new(p.len(), |i: int| codec::bits8(p[i]))
}

pub open spec fn pcm_of(b: Seq<u8>) -> Seq<i8> {
    Seq::new(b.len(), |i: int| codec::signed8(b[i]))
}

pub open spec fn dec_pcm(s: Seq<u8>) -> Dec<Seq<i8>> {
    match codec::dec_bytes(s) {
        Err(e) => Err(e),
        Ok((b, s)) => Ok((pcm_of(b), s)),
    }
}

proof fn lemma_dec_pcm(p: Seq<i8>, post: Seq<u8>)
    requires
        p.len() < 0x1_0000_0000,
    ensures
        dec_pcm(codec::enc_bytes(pcm_bytes(p)) + post) == Ok::<(Seq<i8>, Seq<u8>), Seq<char>>((p,
            post)),
{
    codec::lemma_dec_bytes(pcm_bytes(p), post);
    assert(pcm_of(pcm_bytes(p)) =~= p);
}

fn write_pcm(p: &Vec<i8>, w: &mut W)
    ensures
        final(w).0@ == old(w).0@ + codec::enc_bytes(pcm_bytes(p@)),
{
    let mut b: Vec<u8> = Vec::new();
    let mut i: usize = 0;
    while i < p.len()
        invariant
            i <= p.len(),
            b@.len() == i,
            forall|k: int| 0 <= k < i ==> b@[k] == codec::bits8(p@[k]),
        decreases p.len() - i,
    {
        let v: i8 = p[i];
        b.push(if v < 0 { (v as i16 + 256) as u8 } else { v as u8 });
        i += 1;
    }
    assert(b@ =~= pcm_bytes(p@));
    w.bytes(&b);
}

/// The signed samples in a run of bytes.
pub fn samples_of(b: &[u8]) -> (p: Vec<i8>)
    ensures
        p@ == pcm_of(b@),
{
    let mut p: Vec<i8> = Vec::new();
    let mut i: usize = 0;
    while i < b.len()
        invariant
            i <= b.len(),
            p@.len() == i,
            forall|k: int| 0 <= k < i ==> p@[k] == codec::signed8(b@[k]),
        decreases b.len() - i,
    {
        p.push(signed_byte(b[i]));
        i += 1;
    }
    assert(p@ =~= pcm_of(b@));
    p
}

impl Wire for [u8; 32] {
    type M = Seq<u8>;

    open spec fn model(&self) -> Seq<u8> {
        self@
    }

    open spec fn enc(m: Seq<u8>) -> Seq<u8> {
        m
    }

    open spec fn dec(s: Seq<u8>) -> Dec<Seq<u8>> {
        codec::dec_take(32, s)
    }

    open spec fn fits(m: Seq<u8>) -> bool {
        m.len() == 32
    }

    proof fn dec_enc(m: Seq<u8>, post: Seq<u8>) {
        codec::lemma_dec_take(m, post);
    }

    proof fn dec_more(s: Seq<u8>, t: Seq<u8>) {
        codec::lemma_more_take(32, s, t);
    }

    fn write(&self, w: &mut W) {
        w.raw(self.as_slice());
    }

    fn read(r: &mut R<'_>) -> (res: Result<[u8; 32], PackError>) {
        Ok(array32(r.take(32)?))
    }
}

// ---- items ---------------------------------------------------------------

/// A sample as a value.
#[verifier::ext_equal]
pub struct SampleModel {
    pub name: Seq<char>,
    pub rate: u32,
    pub loop_start: Option<u32>,
    pub pcm: Seq<i8>,
}

/// A keysplit table as a value.
#[verifier::ext_equal]
pub struct KeysplitModel {
    pub name: Seq<char>,
    pub map: Seq<u8>,
}

/// A voicegroup as a value.
#[verifier::ext_equal]
pub struct GroupModel {
    pub name: Seq<char>,
    pub offset: u16,
    pub entries: Seq<Voice>,
}

/// A song as a value.
#[verifier::ext_equal]
pub struct SongModel {
    pub name: Seq<char>,
    pub voicegroup: u16,
    pub master_volume: u8,
    pub reverb: u8,
    pub division: u16,
    pub tempos: Seq<(u32, u32)>,
    pub loop_start: Option<u32>,
    pub loop_end: Option<u32>,
    pub tracks: Seq<Seq<Event>>,
}

impl Wire for SampleData {
    type M = SampleModel;

    open spec fn model(&self) -> SampleModel {
        SampleModel {
            name: self.name@,
            rate: self.rate,
            loop_start: self.loop_start,
            pcm: self.pcm@,
        }
    }

    open spec fn enc(m: SampleModel) -> Seq<u8> {
        codec::enc_str(m.name) + (codec::le32(m.rate) + (codec::enc_opt_u32(m.loop_start)
            + codec::enc_bytes(pcm_bytes(m.pcm))))
    }

    open spec fn dec(s: Seq<u8>) -> Dec<SampleModel> {
        match codec::dec_str(s) {
            Err(e) => Err(e),
            Ok((name, s)) => match codec::dec_u32(s) {
                Err(e) => Err(e),
                Ok((rate, s)) => match codec::dec_opt_u32(s) {
                    Err(e) => Err(e),
                    Ok((loop_start, s)) => match dec_pcm(s) {
                        Err(e) => Err(e),
                        Ok((pcm, s)) => Ok((SampleModel { name, rate, loop_start, pcm }, s)),
                    },
                },
            },
        }
    }

    open spec fn fits(m: SampleModel) -> bool {
        &&& encode_utf8(m.name).len() < 0x1_0000_0000
        &&& m.loop_start != Some(u32::MAX)
        &&& m.pcm.len() < 0x1_0000_0000
    }

    proof fn dec_enc(m: SampleModel, post: Seq<u8>) {
        broadcast use codec::lemma_assoc;

        let t3 = codec::enc_bytes(pcm_bytes(m.pcm)) + post;
        let t2 = codec::enc_opt_u32(m.loop_start) + t3;
        let t1 = codec::le32(m.rate) + t2;
        codec::lemma_dec_str(m.name, t1);
        codec::lemma_dec_u32(m.rate, t2);
        codec::lemma_dec_opt_u32(m.loop_start, t3);
        lemma_dec_pcm(m.pcm, post);
    }

    proof fn dec_more(s: Seq<u8>, t: Seq<u8>) {
        if Self::dec(s) is Ok {
            codec::lemma_more_bytes(s, t);
            let s1 = codec::dec_str(s)->Ok_0.1;
            codec::lemma_more_u32(s1, t);
            let s2 = codec::dec_u32(s1)->Ok_0.1;
            codec::lemma_more_u32(s2, t);
            let s3 = codec::dec_opt_u32(s2)->Ok_0.1;
            codec::lemma_more_bytes(s3, t);
        }
    }

    fn write(&self, w: &mut W) {
        broadcast use codec::lemma_assoc;

        w.str(&self.name);
        w.u32(self.rate);
        w.opt_u32(self.loop_start);
        write_pcm(&self.pcm, w);
    }

    fn read(r: &mut R<'_>) -> (res: Result<SampleData, PackError>) {
        let name = r.str()?;
        let rate: u32 = r.u32()?;
        let loop_start = r.opt_u32()?;
        let pcm = samples_of(r.bytes()?.as_slice());
        Ok(SampleData { name, rate, loop_start, pcm })
    }
}

impl Wire for KeysplitTable {
    type M = KeysplitModel;

    open spec fn model(&self) -> KeysplitModel {
        KeysplitModel {
            name: self.name@,
            map: self.map@,
        }
    }

    open spec fn enc(m: KeysplitModel) -> Seq<u8> {
        codec::enc_str(m.name) + m.map
    }

    open spec fn dec(s: Seq<u8>) -> Dec<KeysplitModel> {
        match codec::dec_str(s) {
            Err(e) => Err(e),
            Ok((name, s)) => match codec::dec_take(128, s) {
                Err(e) => Err(e),
                Ok((map, s)) => Ok((KeysplitModel { name, map }, s)),
            },
        }
    }

    open spec fn fits(m: KeysplitModel) -> bool {
        &&& encode_utf8(m.name).len() < 0x1_0000_0000
        &&& m.map.len() == 128
    }

    proof fn dec_enc(m: KeysplitModel, post: Seq<u8>) {
        broadcast use codec::lemma_assoc;

        let t1 = m.map + post;
        codec::lemma_dec_str(m.name, t1);
        codec::lemma_dec_take(m.map, post);
    }

    proof fn dec_more(s: Seq<u8>, t: Seq<u8>) {
        if Self::dec(s) is Ok {
            codec::lemma_more_bytes(s, t);
            let s1 = codec::dec_str(s)->Ok_0.1;
            codec::lemma_more_take(128, s1, t);
        }
    }

    fn write(&self, w: &mut W) {
        broadcast use codec::lemma_assoc;

        w.str(&self.name);
        w.raw(self.map.as_slice());
    }

    fn read(r: &mut R<'_>) -> (res: Result<KeysplitTable, PackError>) {
        let name = r.str()?;
        let map = array128(r.take(128)?);
        Ok(KeysplitTable { name, map })
    }
}

/// The tag of a voice and its fields.
pub open spec fn enc_voice(v: Voice) -> Seq<u8> {
    match v {
        Voice::DirectSound { base_key, pan, sample, adsr, fixed } => seq![0u8] + (seq![base_key]
            + (seq![pan] + (codec::le16(sample) + (adsr@ + seq![codec::flag_byte(fixed)])))),
        Voice::Square { base_key, pan, duty, sweep, adsr } => seq![1u8] + (seq![base_key]
            + (seq![pan] + (seq![duty] + (seq![sweep] + adsr@)))),
        Voice::Wave { base_key, pan, wave, adsr } => seq![2u8] + (seq![base_key] + (seq![pan]
            + (codec::le16(wave) + adsr@))),
        Voice::Noise { base_key, pan, period, adsr } => seq![3u8] + (seq![base_key] + (seq![pan]
            + (seq![period] + adsr@))),
        Voice::Keysplit { group, table } => seq![4u8] + (codec::le16(group) + codec::le16(table)),
        Voice::KeysplitAll { group } => seq![5u8] + (codec::le16(group)),
        Voice::Unsupported => seq![6u8],
    }
}

pub open spec fn dec_direct_sound(s: Seq<u8>) -> Dec<Voice> {
    match codec::dec_u8(s) {
        Err(e) => Err(e),
        Ok((base_key, s)) => match codec::dec_u8(s) {
            Err(e) => Err(e),
            Ok((pan, s)) => match codec::dec_u16(s) {
                Err(e) => Err(e),
                Ok((sample, s)) => match dec_adsr(s) {
                    Err(e) => Err(e),
                    Ok((adsr, s)) => match codec::dec_flag(s) {
                        Err(e) => Err(e),
                        Ok((fixed, s)) => Ok((Voice::DirectSound { base_key, pan, sample, adsr,
                            fixed }, s)),
                    },
                },
            },
        },
    }
}

proof fn lemma_dec_direct_sound(base_key: u8, pan: u8, sample: u16, adsr: [u8; 4], fixed: bool,
    post: Seq<u8>)
    ensures
        dec_direct_sound((seq![base_key] + (seq![pan] + (codec::le16(sample) + (adsr@
            + seq![codec::flag_byte(fixed)])))) + post) == Ok::<(Voice, Seq<u8>), Seq<char>>(
            (Voice::DirectSound { base_key, pan, sample, adsr, fixed }, post),
        ),
{
    broadcast use codec::lemma_assoc;

    let t4 = seq![codec::flag_byte(fixed)] + post;
    let t3 = adsr@ + t4;
    let t2 = codec::le16(sample) + t3;
    let t1 = seq![pan] + t2;
    codec::lemma_dec_u8(base_key, t1);
    codec::lemma_dec_u8(pan, t2);
    codec::lemma_dec_u16(sample, t3);
    lemma_dec_adsr(adsr, t4);
    codec::lemma_dec_flag(fixed, post);
}

proof fn lemma_more_direct_sound(s: Seq<u8>, t: Seq<u8>)
    ensures
        codec::extends(dec_direct_sound(s), dec_direct_sound(s + t), t),
{
    if dec_direct_sound(s) is Ok {
        codec::lemma_more_u8(s, t);
        let s1 = codec::dec_u8(s)->Ok_0.1;
        codec::lemma_more_u8(s1, t);
        let s2 = codec::dec_u8(s1)->Ok_0.1;
        codec::lemma_more_u16(s2, t);
        let s3 = codec::dec_u16(s2)->Ok_0.1;
        codec::lemma_more_take(4, s3, t);
        let s4 = dec_adsr(s3)->Ok_0.1;
        codec::lemma_more_u8(s4, t);
    }
}

pub open spec fn dec_square(s: Seq<u8>) -> Dec<Voice> {
    match codec::dec_u8(s) {
        Err(e) => Err(e),
        Ok((base_key, s)) => match codec::dec_u8(s) {
            Err(e) => Err(e),
            Ok((pan, s)) => match codec::dec_u8(s) {
                Err(e) => Err(e),
                Ok((duty, s)) => match codec::dec_u8(s) {
                    Err(e) => Err(e),
                    Ok((sweep, s)) => match dec_adsr(s) {
                        Err(e) => Err(e),
                        Ok((adsr, s)) => Ok((Voice::Square { base_key, pan, duty, sweep, adsr },
                            s)),
                    },
                },
            },
        },
    }
}

proof fn lemma_dec_square(base_key: u8, pan: u8, duty: u8, sweep: u8, adsr: [u8; 4], post: Seq<u8>)
    ensures
        dec_square((seq![base_key] + (seq![pan] + (seq![duty] + (seq![sweep] + adsr@))))
            + post) == Ok::<(Voice, Seq<u8>), Seq<char>>(
            (Voice::Square { base_key, pan, duty, sweep, adsr }, post),
        ),
{
    broadcast use codec::lemma_assoc;

    let t4 = adsr@ + post;
    let t3 = seq![sweep] + t4;
    let t2 = seq![duty] + t3;
    let t1 = seq![pan] + t2;
    codec::lemma_dec_u8(base_key, t1);
    codec::lemma_dec_u8(pan, t2);
    codec::lemma_dec_u8(duty, t3);
    codec::lemma_dec_u8(sweep, t4);
    lemma_dec_adsr(adsr, post);
}

proof fn lemma_more_square(s: Seq<u8>, t: Seq<u8>)
    ensures
        codec::extends(dec_square(s), dec_square(s + t), t),
{
    if dec_square(s) is Ok {
        codec::lemma_more_u8(s, t);
        let s1 = codec::dec_u8(s)->Ok_0.1;
        codec::lemma_more_u8(s1, t);
        let s2 = codec::dec_u8(s1)->Ok_0.1;
        codec::lemma_more_u8(s2, t);
        let s3 = codec::dec_u8(s2)->Ok_0.1;
        codec::lemma_more_u8(s3, t);
        let s4 = codec::dec_u8(s3)->Ok_0.1;
        codec::lemma_more_take(4, s4, t);
    }
}

pub open spec fn dec_wave(s: Seq<u8>) -> Dec<Voice> {
    match codec::dec_u8(s) {
        Err(e) => Err(e),
        Ok((base_key, s)) => match codec::dec_u8(s) {
            Err(e) => Err(e),
            Ok((pan, s)) => match codec::dec_u16(s) {
                Err(e) => Err(e),
                Ok((wave, s)) => match dec_adsr(s) {
                    Err(e) => Err(e),
                    Ok((adsr, s)) => Ok((Voice::Wave { base_key, pan, wave, adsr }, s)),
                },
            },
        },
    }
}

proof fn lemma_dec_wave(base_key: u8, pan: u8, wave: u16, adsr: [u8; 4], post: Seq<u8>)
    ensures
        dec_wave((seq![base_key] + (seq![pan] + (codec::le16(wave) + adsr@)))
            + post) == Ok::<(Voice, Seq<u8>), Seq<char>>(
            (Voice::Wave { base_key, pan, wave, adsr }, post),
        ),
{
    broadcast use codec::lemma_assoc;

    let t3 = adsr@ + post;
    let t2 = codec::le16(wave) + t3;
    let t1 = seq![pan] + t2;
    codec::lemma_dec_u8(base_key, t1);
    codec::lemma_dec_u8(pan, t2);
    codec::lemma_dec_u16(wave, t3);
    lemma_dec_adsr(adsr, post);
}

proof fn lemma_more_wave(s: Seq<u8>, t: Seq<u8>)
    ensures
        codec::extends(dec_wave(s), dec_wave(s + t), t),
{
    if dec_wave(s) is Ok {
        codec::lemma_more_u8(s, t);
        let s1 = codec::dec_u8(s)->Ok_0.1;
        codec::lemma_more_u8(s1, t);
        let s2 = codec::dec_u8(s1)->Ok_0.1;
        codec::lemma_more_u16(s2, t);
        let s3 = codec::dec_u16(s2)->Ok_0.1;
        codec::lemma_more_take(4, s3, t);
    }
}

pub open spec fn dec_noise(s: Seq<u8>) -> Dec<Voice> {
    match codec::dec_u8(s) {
        Err(e) => Err(e),
        Ok((base_key, s)) => match codec::dec_u8(s) {
            Err(e) => Err(e),
            Ok((pan, s)) => match codec::dec_u8(s) {
                Err(e) => Err(e),
                Ok((period, s)) => match dec_adsr(s) {
                    Err(e) => Err(e),
                    Ok((adsr, s)) => Ok((Voice::Noise { base_key, pan, period, adsr }, s)),
                },
            },
        },
    }
}

proof fn lemma_dec_noise(base_key: u8, pan: u8, period: u8, adsr: [u8; 4], post: Seq<u8>)
    ensures
        dec_noise((seq![base_key] + (seq![pan] + (seq![period] + adsr@))) + post) == Ok::<(Voice,
            Seq<u8>), Seq<char>>(
            (Voice::Noise { base_key, pan, period, adsr }, post),
        ),
{
    broadcast use codec::lemma_assoc;

    let t3 = adsr@ + post;
    let t2 = seq![period] + t3;
    let t1 = seq![pan] + t2;
    codec::lemma_dec_u8(base_key, t1);
    codec::lemma_dec_u8(pan, t2);
    codec::lemma_dec_u8(period, t3);
    lemma_dec_adsr(adsr, post);
}

proof fn lemma_more_noise(s: Seq<u8>, t: Seq<u8>)
    ensures
        codec::extends(dec_noise(s), dec_noise(s + t), t),
{
    if dec_noise(s) is Ok {
        codec::lemma_more_u8(s, t);
        let s1 = codec::dec_u8(s)->Ok_0.1;
        codec::lemma_more_u8(s1, t);
        let s2 = codec::dec_u8(s1)->Ok_0.1;
        codec::lemma_more_u8(s2, t);
        let s3 = codec::dec_u8(s2)->Ok_0.1;
        codec::lemma_more_take(4, s3, t);
    }
}

pub open spec fn dec_keysplit(s: Seq<u8>) -> Dec<Voice> {
    match codec::dec_u16(s) {
        Err(e) => Err(e),
        Ok((group, s)) => match codec::dec_u16(s) {
            Err(e) => Err(e),
            Ok((table, s)) => Ok((Voice::Keysplit { group, table }, s)),
        },
    }
}

proof fn lemma_dec_keysplit(group: u16, table: u16, post: Seq<u8>)
    ensures
        dec_keysplit((codec::le16(group) + codec::le16(table)) + post) == Ok::<(Voice, Seq<u8>),
            Seq<char>>(
            (Voice::Keysplit { group, table }, post),
        ),
{
    broadcast use codec::lemma_assoc;

    let t1 = codec::le16(table) + post;
    codec::lemma_dec_u16(group, t1);
    codec::lemma_dec_u16(table, post);
}

proof fn lemma_more_keysplit(s: Seq<u8>, t: Seq<u8>)
    ensures
        codec::extends(dec_keysplit(s), dec_keysplit(s + t), t),
{
    if dec_keysplit(s) is Ok {
        codec::lemma_more_u16(s, t);
        let s1 = codec::dec_u16(s)->Ok_0.1;
        codec::lemma_more_u16(s1, t);
    }
}

pub open spec fn dec_keysplit_all(s: Seq<u8>) -> Dec<Voice> {
    match codec::dec_u16(s) {
        Err(e) => Err(e),
        Ok((group, s)) => Ok((Voice::KeysplitAll { group }, s)),
    }
}

proof fn lemma_dec_keysplit_all(group: u16, post: Seq<u8>)
    ensures
        dec_keysplit_all((codec::le16(group)) + post) == Ok::<(Voice, Seq<u8>), Seq<char>>(
            (Voice::KeysplitAll { group }, post),
        ),
{
    broadcast use codec::lemma_assoc;

    codec::lemma_dec_u16(group, post);
}

proof fn lemma_more_keysplit_all(s: Seq<u8>, t: Seq<u8>)
    ensures
        codec::extends(dec_keysplit_all(s), dec_keysplit_all(s + t), t),
{
    if dec_keysplit_all(s) is Ok {
        codec::lemma_more_u16(s, t);
    }
}

/// A voice, by its tag.
pub open spec fn dec_voice(s: Seq<u8>) -> Dec<Voice> {
    match codec::dec_u8(s) {
        Err(e) => Err(e),
        Ok((tag, s)) => if tag == 0 {
            dec_direct_sound(s)
        } else if tag == 1 {
            dec_square(s)
        } else if tag == 2 {
            dec_wave(s)
        } else if tag == 3 {
            dec_noise(s)
        } else if tag == 4 {
            dec_keysplit(s)
        } else if tag == 5 {
            dec_keysplit_all(s)
        } else if tag == 6 {
            Ok((Voice::Unsupported, s))
        } else {
            Err("bad voice tag"@)
        },
    }
}

impl Wire for Voice {
    type M = Voice;

    open spec fn model(&self) -> Voice {
        *self
    }

    open spec fn enc(m: Voice) -> Seq<u8> {
        enc_voice(m)
    }

    open spec fn dec(s: Seq<u8>) -> Dec<Voice> {
        dec_voice(s)
    }

    open spec fn fits(m: Voice) -> bool {
        true
    }

    proof fn dec_enc(m: Voice, post: Seq<u8>) {
        broadcast use codec::lemma_assoc;

        match m {
            Voice::DirectSound { base_key, pan, sample, adsr, fixed } => {
                codec::lemma_dec_u8(0, (seq![base_key] + (seq![pan] + (codec::le16(sample) + (adsr@
                    + seq![codec::flag_byte(fixed)])))) + post);
                lemma_dec_direct_sound(base_key, pan, sample, adsr, fixed, post);
            },
            Voice::Square { base_key, pan, duty, sweep, adsr } => {
                codec::lemma_dec_u8(1, (seq![base_key] + (seq![pan] + (seq![duty] + (seq![sweep]
                    + adsr@)))) + post);
                lemma_dec_square(base_key, pan, duty, sweep, adsr, post);
            },
            Voice::Wave { base_key, pan, wave, adsr } => {
                codec::lemma_dec_u8(2, (seq![base_key] + (seq![pan] + (codec::le16(wave) + adsr@)))
                    + post);
                lemma_dec_wave(base_key, pan, wave, adsr, post);
            },
            Voice::Noise { base_key, pan, period, adsr } => {
                codec::lemma_dec_u8(3, (seq![base_key] + (seq![pan] + (seq![period] + adsr@)))
                    + post);
                lemma_dec_noise(base_key, pan, period, adsr, post);
            },
            Voice::Keysplit { group, table } => {
                codec::lemma_dec_u8(4, (codec::le16(group) + codec::le16(table)) + post);
                lemma_dec_keysplit(group, table, post);
            },
            Voice::KeysplitAll { group } => {
                codec::lemma_dec_u8(5, (codec::le16(group)) + post);
                lemma_dec_keysplit_all(group, post);
            },
            Voice::Unsupported => codec::lemma_dec_u8(6, post),
        }
    }

    proof fn dec_more(s: Seq<u8>, t: Seq<u8>) {
        if Self::dec(s) is Ok {
            codec::lemma_more_u8(s, t);
            let s1 = codec::dec_u8(s)->Ok_0.1;
            lemma_more_direct_sound(s1, t);
            lemma_more_square(s1, t);
            lemma_more_wave(s1, t);
            lemma_more_noise(s1, t);
            lemma_more_keysplit(s1, t);
            lemma_more_keysplit_all(s1, t);
        }
    }

    fn write(&self, w: &mut W) {
        broadcast use codec::lemma_assoc;

        match *self {
            Voice::DirectSound { base_key, pan, sample, adsr, fixed } => {
                w.u8(0);
                w.u8(base_key);
                w.u8(pan);
                w.u16(sample);
                w.raw(adsr.as_slice());
                w.flag(fixed);
            },
            Voice::Square { base_key, pan, duty, sweep, adsr } => {
                w.u8(1);
                w.u8(base_key);
                w.u8(pan);
                w.u8(duty);
                w.u8(sweep);
                w.raw(adsr.as_slice());
            },
            Voice::Wave { base_key, pan, wave, adsr } => {
                w.u8(2);
                w.u8(base_key);
                w.u8(pan);
                w.u16(wave);
                w.raw(adsr.as_slice());
            },
            Voice::Noise { base_key, pan, period, adsr } => {
                w.u8(3);
                w.u8(base_key);
                w.u8(pan);
                w.u8(period);
                w.raw(adsr.as_slice());
            },
            Voice::Keysplit { group, table } => {
                w.u8(4);
                w.u16(group);
                w.u16(table);
            },
            Voice::KeysplitAll { group } => {
                w.u8(5);
                w.u16(group);
            },
            Voice::Unsupported => w.u8(6),
        }
    }

    fn read(r: &mut R<'_>) -> (res: Result<Voice, PackError>) {
        let tag: u8 = r.u8()?;
        if tag == 0 {
            let base_key: u8 = r.u8()?;
            let pan: u8 = r.u8()?;
            let sample: u16 = r.u16()?;
            let adsr = read_adsr(r)?;
            let fixed = r.flag()?;
            Ok(Voice::DirectSound { base_key, pan, sample, adsr, fixed })
        } else if tag == 1 {
            let base_key: u8 = r.u8()?;
            let pan: u8 = r.u8()?;
            let duty: u8 = r.u8()?;
            let sweep: u8 = r.u8()?;
            let adsr = read_adsr(r)?;
            Ok(Voice::Square { base_key, pan, duty, sweep, adsr })
        } else if tag == 2 {
            let base_key: u8 = r.u8()?;
            let pan: u8 = r.u8()?;
            let wave: u16 = r.u16()?;
            let adsr = read_adsr(r)?;
            Ok(Voice::Wave { base_key, pan, wave, adsr })
        } else if tag == 3 {
            let base_key: u8 = r.u8()?;
            let pan: u8 = r.u8()?;
            let period: u8 = r.u8()?;
            let adsr = read_adsr(r)?;
            Ok(Voice::Noise { base_key, pan, period, adsr })
        } else if tag == 4 {
            let group: u16 = r.u16()?;
            let table: u16 = r.u16()?;
            Ok(Voice::Keysplit { group, table })
        } else if tag == 5 {
            let group: u16 = r.u16()?;
            Ok(Voice::KeysplitAll { group })
        } else if tag == 6 {
            Ok(Voice::Unsupported)
        } else {
            Err(PackError("bad voice tag"))
        }
    }
}

impl Wire for VoiceGroup {
    type M = GroupModel;

    open spec fn model(&self) -> GroupModel {
        GroupModel {
            name: self.name@,
            offset: self.offset,
            entries: codec::models(self.entries@),
        }
    }

    open spec fn enc(m: GroupModel) -> Seq<u8> {
        codec::enc_str(m.name) + (codec::le16(m.offset) + codec::enc_list::<Voice>(m.entries))
    }

    open spec fn dec(s: Seq<u8>) -> Dec<GroupModel> {
        match codec::dec_str(s) {
            Err(e) => Err(e),
            Ok((name, s)) => match codec::dec_u16(s) {
                Err(e) => Err(e),
                Ok((offset, s)) => match codec::dec_list::<Voice>(s) {
                    Err(e) => Err(e),
                    Ok((entries, s)) => Ok((GroupModel { name, offset, entries }, s)),
                },
            },
        }
    }

    open spec fn fits(m: GroupModel) -> bool {
        &&& encode_utf8(m.name).len() < 0x1_0000_0000
        &&& codec::fits_list::<Voice>(m.entries)
    }

    proof fn dec_enc(m: GroupModel, post: Seq<u8>) {
        broadcast use codec::lemma_assoc;

        let t2 = codec::enc_list::<Voice>(m.entries) + post;
        let t1 = codec::le16(m.offset) + t2;
        codec::lemma_dec_str(m.name, t1);
        codec::lemma_dec_u16(m.offset, t2);
        codec::lemma_dec_list::<Voice>(m.entries, post);
    }

    proof fn dec_more(s: Seq<u8>, t: Seq<u8>) {
        if Self::dec(s) is Ok {
            codec::lemma_more_bytes(s, t);
            let s1 = codec::dec_str(s)->Ok_0.1;
            codec::lemma_more_u16(s1, t);
            let s2 = codec::dec_u16(s1)->Ok_0.1;
            codec::lemma_more_list::<Voice>(s2, t);
        }
    }

    fn write(&self, w: &mut W) {
        broadcast use codec::lemma_assoc;

        w.str(&self.name);
        w.u16(self.offset);
        write_list(&self.entries, w);
    }

    fn read(r: &mut R<'_>) -> (res: Result<VoiceGroup, PackError>) {
        let name = r.str()?;
        let offset: u16 = r.u16()?;
        let entries = read_list::<Voice>(r)?;
        Ok(VoiceGroup { name, offset, entries })
    }
}

/// The tag of an event and its fields.
pub open spec fn enc_kind(k: EventKind) -> Seq<u8> {
    match k {
        EventKind::Note { key, vel, dur } => seq![0u8] + (seq![key] + (seq![vel]
            + codec::le32(dur))),
        EventKind::Program(v) => seq![1u8] + seq![v],
        EventKind::Bend(v) => seq![2u8] + seq![codec::bits8(v)],
        EventKind::Volume(v) => seq![3u8] + seq![v],
        EventKind::Pan(v) => seq![4u8] + seq![codec::bits8(v)],
        EventKind::Mod(v) => seq![5u8] + seq![v],
        EventKind::BendRange(v) => seq![6u8] + seq![v],
        EventKind::LfoSpeed(v) => seq![7u8] + seq![v],
    }
}

pub open spec fn dec_note(s: Seq<u8>) -> Dec<EventKind> {
    match codec::dec_u8(s) {
        Err(e) => Err(e),
        Ok((key, s)) => match codec::dec_u8(s) {
            Err(e) => Err(e),
            Ok((vel, s)) => match codec::dec_u32(s) {
                Err(e) => Err(e),
                Ok((dur, s)) => Ok((EventKind::Note { key, vel, dur }, s)),
            },
        },
    }
}

/// The events that hold one byte or one signed byte.
pub open spec fn dec_control(tag: u8, s: Seq<u8>) -> Dec<EventKind> {
    if tag == 2 || tag == 4 {
        match codec::dec_i8(s) {
            Err(e) => Err(e),
            Ok((v, s)) => Ok(
                (
                    if tag == 2 {
                        EventKind::Bend(v)
                    } else {
                        EventKind::Pan(v)
                    },
                    s,
                ),
            ),
        }
    } else if 1 <= tag <= 7 {
        match codec::dec_u8(s) {
            Err(e) => Err(e),
            Ok((v, s)) => Ok(
                (
                    if tag == 1 {
                        EventKind::Program(v)
                    } else if tag == 3 {
                        EventKind::Volume(v)
                    } else if tag == 5 {
                        EventKind::Mod(v)
                    } else if tag == 6 {
                        EventKind::BendRange(v)
                    } else {
                        EventKind::LfoSpeed(v)
                    },
                    s,
                ),
            ),
        }
    } else {
        Err("bad event tag"@)
    }
}

pub open spec fn dec_kind(s: Seq<u8>) -> Dec<EventKind> {
    match codec::dec_u8(s) {
        Err(e) => Err(e),
        Ok((tag, s)) => if tag == 0 {
            dec_note(s)
        } else {
            dec_control(tag, s)
        },
    }
}

proof fn lemma_dec_kind(k: EventKind, post: Seq<u8>)
    ensures
        dec_kind(enc_kind(k) + post) == Ok::<(EventKind, Seq<u8>), Seq<char>>((k, post)),
{
    broadcast use codec::lemma_assoc;

    match k {
        EventKind::Note { key, vel, dur } => {
            let t3 = codec::le32(dur) + post;
            let t2 = seq![vel] + t3;
            let t1 = seq![key] + t2;
            codec::lemma_dec_u8(0, t1);
            codec::lemma_dec_u8(key, t2);
            codec::lemma_dec_u8(vel, t3);
            codec::lemma_dec_u32(dur, post);
        },
        EventKind::Program(v) => {
            codec::lemma_dec_u8(1, seq![v] + post);
            codec::lemma_dec_u8(v, post);
        },
        EventKind::Bend(v) => {
            codec::lemma_dec_u8(2, seq![codec::bits8(v)] + post);
            codec::lemma_dec_i8(v, post);
        },
        EventKind::Volume(v) => {
            codec::lemma_dec_u8(3, seq![v] + post);
            codec::lemma_dec_u8(v, post);
        },
        EventKind::Pan(v) => {
            codec::lemma_dec_u8(4, seq![codec::bits8(v)] + post);
            codec::lemma_dec_i8(v, post);
        },
        EventKind::Mod(v) => {
            codec::lemma_dec_u8(5, seq![v] + post);
            codec::lemma_dec_u8(v, post);
        },
        EventKind::BendRange(v) => {
            codec::lemma_dec_u8(6, seq![v] + post);
            codec::lemma_dec_u8(v, post);
        },
        EventKind::LfoSpeed(v) => {
            codec::lemma_dec_u8(7, seq![v] + post);
            codec::lemma_dec_u8(v, post);
        },
    }
}

proof fn lemma_more_kind(s: Seq<u8>, t: Seq<u8>)
    ensures
        codec::extends(dec_kind(s), dec_kind(s + t), t),
{
    if dec_kind(s) is Ok {
        codec::lemma_more_u8(s, t);
        let s1 = codec::dec_u8(s)->Ok_0.1;
        codec::lemma_more_u8(s1, t);
        let s2 = codec::dec_u8(s1)->Ok_0.1;
        codec::lemma_more_u8(s2, t);
        let s3 = codec::dec_u8(s2)->Ok_0.1;
        codec::lemma_more_u32(s3, t);
    }
}

fn write_kind(k: EventKind, w: &mut W)
    ensures
        final(w).0@ == old(w).0@ + enc_kind(k),
{
    broadcast use codec::lemma_assoc;

    match k {
        EventKind::Note { key, vel, dur } => {
            w.u8(0);
            w.u8(key);
            w.u8(vel);
            w.u32(dur);
        },
        EventKind::Program(v) => {
            w.u8(1);
            w.u8(v);
        },
        EventKind::Bend(v) => {
            w.u8(2);
            w.i8(v);
        },
        EventKind::Volume(v) => {
            w.u8(3);
            w.u8(v);
        },
        EventKind::Pan(v) => {
            w.u8(4);
            w.i8(v);
        },
        EventKind::Mod(v) => {
            w.u8(5);
            w.u8(v);
        },
        EventKind::BendRange(v) => {
            w.u8(6);
            w.u8(v);
        },
        EventKind::LfoSpeed(v) => {
            w.u8(7);
            w.u8(v);
        },
    }
}

fn read_kind(r: &mut R<'_>) -> (res: Result<EventKind, PackError>)
    requires
        old(r).wf(),
    ensures
        final(r).wf(),
        match dec_kind(old(r).rest()) {
            Ok((m, rest)) => (res matches Ok(v) && v == m && final(r).rest() == rest),
            Err(m) => (res matches Err(e) && e.0@ == m),
        },
{
    let tag: u8 = r.u8()?;
    if tag == 0 {
        let key: u8 = r.u8()?;
        let vel: u8 = r.u8()?;
        let dur: u32 = r.u32()?;
        Ok(EventKind::Note { key, vel, dur })
    } else if tag == 1 {
        Ok(EventKind::Program(r.u8()?))
    } else if tag == 2 {
        Ok(EventKind::Bend(r.i8()?))
    } else if tag == 3 {
        Ok(EventKind::Volume(r.u8()?))
    } else if tag == 4 {
        Ok(EventKind::Pan(r.i8()?))
    } else if tag == 5 {
        Ok(EventKind::Mod(r.u8()?))
    } else if tag == 6 {
        Ok(EventKind::BendRange(r.u8()?))
    } else if tag == 7 {
        Ok(EventKind::LfoSpeed(r.u8()?))
    } else {
        Err(PackError("bad event tag"))
    }
}

impl Wire for Event {
    type M = Event;

    open spec fn model(&self) -> Event {
        *self
    }

    open spec fn enc(m: Event) -> Seq<u8> {
        codec::le32(m.tick) + enc_kind(m.kind)
    }

    open spec fn dec(s: Seq<u8>) -> Dec<Event> {
        match codec::dec_u32(s) {
            Err(e) => Err(e),
            Ok((tick, s)) => match dec_kind(s) {
                Err(e) => Err(e),
                Ok((kind, s)) => Ok((Event { tick, kind }, s)),
            },
        }
    }

    open spec fn fits(m: Event) -> bool {
        true
    }

    proof fn dec_enc(m: Event, post: Seq<u8>) {
        broadcast use codec::lemma_assoc;

        let t1 = enc_kind(m.kind) + post;
        codec::lemma_dec_u32(m.tick, t1);
        lemma_dec_kind(m.kind, post);
    }

    proof fn dec_more(s: Seq<u8>, t: Seq<u8>) {
        if Self::dec(s) is Ok {
            codec::lemma_more_u32(s, t);
            let s1 = codec::dec_u32(s)->Ok_0.1;
            lemma_more_kind(s1, t);
        }
    }

    fn write(&self, w: &mut W) {
        broadcast use codec::lemma_assoc;

        w.u32(self.tick);
        write_kind(self.kind, w);
    }

    fn read(r: &mut R<'_>) -> (res: Result<Event, PackError>) {
        let tick: u32 = r.u32()?;
        let kind = read_kind(r)?;
        Ok(Event { tick, kind })
    }
}

impl Wire for Vec<Event> {
    type M = Seq<Event>;

    open spec fn model(&self) -> Seq<Event> {
        codec::models(self@)
    }

    open spec fn enc(m: Seq<Event>) -> Seq<u8> {
        codec::enc_list::<Event>(m)
    }

    open spec fn dec(s: Seq<u8>) -> Dec<Seq<Event>> {
        codec::dec_list::<Event>(s)
    }

    open spec fn fits(m: Seq<Event>) -> bool {
        codec::fits_list::<Event>(m)
    }

    proof fn dec_enc(m: Seq<Event>, post: Seq<u8>) {
        codec::lemma_dec_list::<Event>(m, post);
    }

    proof fn dec_more(s: Seq<u8>, t: Seq<u8>) {
        codec::lemma_more_list::<Event>(s, t);
    }

    fn write(&self, w: &mut W) {
        write_list(self, w);
    }

    fn read(r: &mut R<'_>) -> (res: Result<Vec<Event>, PackError>) {
        read_list::<Event>(r)
    }
}

impl Wire for (u32, u32) {
    type M = (u32, u32);

    open spec fn model(&self) -> (u32, u32) {
        *self
    }

    open spec fn enc(m: (u32, u32)) -> Seq<u8> {
        codec::le32(m.0) + codec::le32(m.1)
    }

    open spec fn dec(s: Seq<u8>) -> Dec<(u32, u32)> {
        match codec::dec_u32(s) {
            Err(e) => Err(e),
            Ok((a, s)) => match codec::dec_u32(s) {
                Err(e) => Err(e),
                Ok((b, s)) => Ok(((a, b), s)),
            },
        }
    }

    open spec fn fits(m: (u32, u32)) -> bool {
        true
    }

    proof fn dec_enc(m: (u32, u32), post: Seq<u8>) {
        broadcast use codec::lemma_assoc;

        codec::lemma_dec_u32(m.0, codec::le32(m.1) + post);
        codec::lemma_dec_u32(m.1, post);
    }

    proof fn dec_more(s: Seq<u8>, t: Seq<u8>) {
        if Self::dec(s) is Ok {
            codec::lemma_more_u32(s, t);
            codec::lemma_more_u32(codec::dec_u32(s)->Ok_0.1, t);
        }
    }

    fn write(&self, w: &mut W) {
        broadcast use codec::lemma_assoc;

        w.u32(self.0);
        w.u32(self.1);
    }

    fn read(r: &mut R<'_>) -> (res: Result<(u32, u32), PackError>) {
        let a: u32 = r.u32()?;
        let b: u32 = r.u32()?;
        Ok((a, b))
    }
}

impl Wire for SongData {
    type M = SongModel;

    open spec fn model(&self) -> SongModel {
        SongModel {
            name: self.name@,
            voicegroup: self.voicegroup,
            master_volume: self.master_volume,
            reverb: self.reverb,
            division: self.division,
            tempos: codec::models(self.tempos@),
            loop_start: self.loop_start,
            loop_end: self.loop_end,
            tracks: codec::models(self.tracks@),
        }
    }

    open spec fn enc(m: SongModel) -> Seq<u8> {
        codec::enc_str(m.name) + (codec::le16(m.voicegroup) + (seq![m.master_volume]
            + (seq![m.reverb] + (codec::le16(m.division) + (codec::enc_list::<(u32, u32)>(m.tempos)
            + (codec::enc_opt_u32(m.loop_start) + (codec::enc_opt_u32(m.loop_end)
            + codec::enc_list::<Vec<Event>>(m.tracks))))))))
    }

    open spec fn dec(s: Seq<u8>) -> Dec<SongModel> {
        match codec::dec_str(s) {
            Err(e) => Err(e),
            Ok((name, s)) => match codec::dec_u16(s) {
                Err(e) => Err(e),
                Ok((voicegroup, s)) => match codec::dec_u8(s) {
                    Err(e) => Err(e),
                    Ok((master_volume, s)) => match codec::dec_u8(s) {
                        Err(e) => Err(e),
                        Ok((reverb, s)) => match codec::dec_u16(s) {
                            Err(e) => Err(e),
                            Ok((division, s)) => match codec::dec_list::<(u32, u32)>(s) {
                                Err(e) => Err(e),
                                Ok((tempos, s)) => match codec::dec_opt_u32(s) {
                                    Err(e) => Err(e),
                                    Ok((loop_start, s)) => match codec::dec_opt_u32(s) {
                                        Err(e) => Err(e),
                                        Ok((loop_end,
                                            s)) => match codec::dec_list::<Vec<Event>>(s) {
                                            Err(e) => Err(e),
                                            Ok((tracks, s)) => Ok((SongModel { name, voicegroup,
                                                master_volume, reverb, division, tempos,
                                                loop_start, loop_end, tracks }, s)),
                                        },
                                    },
                                },
                            },
                        },
                    },
                },
            },
        }
    }

    open spec fn fits(m: SongModel) -> bool {
        &&& encode_utf8(m.name).len() < 0x1_0000_0000
        &&& codec::fits_list::<(u32, u32)>(m.tempos)
        &&& m.loop_start != Some(u32::MAX)
        &&& m.loop_end != Some(u32::MAX)
        &&& codec::fits_list::<Vec<Event>>(m.tracks)
    }

    proof fn dec_enc(m: SongModel, post: Seq<u8>) {
        broadcast use codec::lemma_assoc;

        let t8 = codec::enc_list::<Vec<Event>>(m.tracks) + post;
        let t7 = codec::enc_opt_u32(m.loop_end) + t8;
        let t6 = codec::enc_opt_u32(m.loop_start) + t7;
        let t5 = codec::enc_list::<(u32, u32)>(m.tempos) + t6;
        let t4 = codec::le16(m.division) + t5;
        let t3 = seq![m.reverb] + t4;
        let t2 = seq![m.master_volume] + t3;
        let t1 = codec::le16(m.voicegroup) + t2;
        codec::lemma_dec_str(m.name, t1);
        codec::lemma_dec_u16(m.voicegroup, t2);
        codec::lemma_dec_u8(m.master_volume, t3);
        codec::lemma_dec_u8(m.reverb, t4);
        codec::lemma_dec_u16(m.division, t5);
        codec::lemma_dec_list::<(u32, u32)>(m.tempos, t6);
        codec::lemma_dec_opt_u32(m.loop_start, t7);
        codec::lemma_dec_opt_u32(m.loop_end, t8);
        codec::lemma_dec_list::<Vec<Event>>(m.tracks, post);
    }

    proof fn dec_more(s: Seq<u8>, t: Seq<u8>) {
        if Self::dec(s) is Ok {
            codec::lemma_more_bytes(s, t);
            let s1 = codec::dec_str(s)->Ok_0.1;
            codec::lemma_more_u16(s1, t);
            let s2 = codec::dec_u16(s1)->Ok_0.1;
            codec::lemma_more_u8(s2, t);
            let s3 = codec::dec_u8(s2)->Ok_0.1;
            codec::lemma_more_u8(s3, t);
            let s4 = codec::dec_u8(s3)->Ok_0.1;
            codec::lemma_more_u16(s4, t);
            let s5 = codec::dec_u16(s4)->Ok_0.1;
            codec::lemma_more_list::<(u32, u32)>(s5, t);
            let s6 = codec::dec_list::<(u32, u32)>(s5)->Ok_0.1;
            codec::lemma_more_u32(s6, t);
            let s7 = codec::dec_opt_u32(s6)->Ok_0.1;
            codec::lemma_more_u32(s7, t);
            let s8 = codec::dec_opt_u32(s7)->Ok_0.1;
            codec::lemma_more_list::<Vec<Event>>(s8, t);
        }
    }

    fn write(&self, w: &mut W) {
        broadcast use codec::lemma_assoc;

        w.str(&self.name);
        w.u16(self.voicegroup);
        w.u8(self.master_volume);
        w.u8(self.reverb);
        w.u16(self.division);
        write_list(&self.tempos, w);
        w.opt_u32(self.loop_start);
        w.opt_u32(self.loop_end);
        write_list(&self.tracks, w);
    }

    fn read(r: &mut R<'_>) -> (res: Result<SongData, PackError>) {
        let name = r.str()?;
        let voicegroup: u16 = r.u16()?;
        let master_volume: u8 = r.u8()?;
        let reverb: u8 = r.u8()?;
        let division: u16 = r.u16()?;
        let tempos = read_list::<(u32, u32)>(r)?;
        let loop_start = r.opt_u32()?;
        let loop_end = r.opt_u32()?;
        let tracks = read_list::<Vec<Event>>(r)?;
        Ok(SongData { name, voicegroup, master_volume, reverb, division, tempos, loop_start,
            loop_end, tracks })
    }
}

// ---- the pack ------------------------------------------------------------

/// A music pack as a value.
#[verifier::ext_equal]
pub struct MusicModel {
    pub samples: Seq<SampleModel>,
    pub waves: Seq<Seq<u8>>,
    pub keysplits: Seq<KeysplitModel>,
    pub voicegroups: Seq<GroupModel>,
    pub songs: Seq<SongModel>,
}

/// The lists of a pack, without the magic before them.
impl Wire for MusicPack {
    type M = MusicModel;

    open spec fn model(&self) -> MusicModel {
        MusicModel {
            samples: codec::models(self.samples@),
            waves: codec::models(self.waves@),
            keysplits: codec::models(self.keysplits@),
            voicegroups: codec::models(self.voicegroups@),
            songs: codec::models(self.songs@),
        }
    }

    open spec fn enc(m: MusicModel) -> Seq<u8> {
        codec::enc_list::<SampleData>(m.samples) + (codec::enc_list::<[u8; 32]>(m.waves)
            + (codec::enc_list::<KeysplitTable>(m.keysplits)
            + (codec::enc_list::<VoiceGroup>(m.voicegroups)
            + codec::enc_list::<SongData>(m.songs))))
    }

    open spec fn dec(s: Seq<u8>) -> Dec<MusicModel> {
        match codec::dec_list::<SampleData>(s) {
            Err(e) => Err(e),
            Ok((samples, s)) => match codec::dec_list::<[u8; 32]>(s) {
                Err(e) => Err(e),
                Ok((waves, s)) => match codec::dec_list::<KeysplitTable>(s) {
                    Err(e) => Err(e),
                    Ok((keysplits, s)) => match codec::dec_list::<VoiceGroup>(s) {
                        Err(e) => Err(e),
                        Ok((voicegroups, s)) => match codec::dec_list::<SongData>(s) {
                            Err(e) => Err(e),
                            Ok((songs, s)) => Ok((MusicModel { samples, waves, keysplits,
                                voicegroups, songs }, s)),
                        },
                    },
                },
            },
        }
    }

    open spec fn fits(m: MusicModel) -> bool {
        &&& codec::fits_list::<SampleData>(m.samples)
        &&& codec::fits_list::<[u8; 32]>(m.waves)
        &&& codec::fits_list::<KeysplitTable>(m.keysplits)
        &&& codec::fits_list::<VoiceGroup>(m.voicegroups)
        &&& codec::fits_list::<SongData>(m.songs)
    }

    proof fn dec_enc(m: MusicModel, post: Seq<u8>) {
        broadcast use codec::lemma_assoc;

        let t4 = codec::enc_list::<SongData>(m.songs) + post;
        let t3 = codec::enc_list::<VoiceGroup>(m.voicegroups) + t4;
        let t2 = codec::enc_list::<KeysplitTable>(m.keysplits) + t3;
        let t1 = codec::enc_list::<[u8; 32]>(m.waves) + t2;
        codec::lemma_dec_list::<SampleData>(m.samples, t1);
        codec::lemma_dec_list::<[u8; 32]>(m.waves, t2);
        codec::lemma_dec_list::<KeysplitTable>(m.keysplits, t3);
        codec::lemma_dec_list::<VoiceGroup>(m.voicegroups, t4);
        codec::lemma_dec_list::<SongData>(m.songs, post);
    }

    proof fn dec_more(s: Seq<u8>, t: Seq<u8>) {
        if Self::dec(s) is Ok {
            codec::lemma_more_list::<SampleData>(s, t);
            let s1 = codec::dec_list::<SampleData>(s)->Ok_0.1;
            codec::lemma_more_list::<[u8; 32]>(s1, t);
            let s2 = codec::dec_list::<[u8; 32]>(s1)->Ok_0.1;
            codec::lemma_more_list::<KeysplitTable>(s2, t);
            let s3 = codec::dec_list::<KeysplitTable>(s2)->Ok_0.1;
            codec::lemma_more_list::<VoiceGroup>(s3, t);
            let s4 = codec::dec_list::<VoiceGroup>(s3)->Ok_0.1;
            codec::lemma_more_list::<SongData>(s4, t);
        }
    }

    fn write(&self, w: &mut W) {
        broadcast use codec::lemma_assoc;

        write_list(&self.samples, w);
        write_list(&self.waves, w);
        write_list(&self.keysplits, w);
        write_list(&self.voicegroups, w);
        write_list(&self.songs, w);
    }

    fn read(r: &mut R<'_>) -> (res: Result<MusicPack, PackError>) {
        let samples = read_list::<SampleData>(r)?;
        let waves = read_list::<[u8; 32]>(r)?;
        let keysplits = read_list::<KeysplitTable>(r)?;
        let voicegroups = read_list::<VoiceGroup>(r)?;
        let songs = read_list::<SongData>(r)?;
        Ok(MusicPack { samples, waves, keysplits, voicegroups, songs })
    }
}

/// The bytes of a pack.
pub open spec fn enc_music(m: MusicModel) -> Seq<u8> {
    MAGIC@ + MusicPack::enc(m)
}

/// The pack at the front of `s`, or the first fault in it.
pub open spec fn dec_music(s: Seq<u8>) -> Dec<MusicModel> {
    match codec::dec_take(8, s) {
        Err(e) => Err(e),
        Ok((magic, s)) => if magic != MAGIC@ {
            Err("bad magic (regenerate with musicgen)"@)
        } else {
            MusicPack::dec(s)
        },
    }
}

/// Whether a pack can be written without loss: its lengths fit their fields
/// and no loop point is the value that stands for none.
pub open spec fn fits_music(m: MusicModel) -> bool {
    MusicPack::fits(m)
}

/// A pack that was written is read back as it was, whatever follows it.
pub proof fn music_reads_back(m: MusicModel, post: Seq<u8>)
    requires
        fits_music(m),
    ensures
        dec_music(enc_music(m) + post) == Ok::<(MusicModel, Seq<u8>), Seq<char>>((m, post)),
{
    broadcast use codec::lemma_assoc;

    codec::lemma_dec_take(MAGIC@, MusicPack::enc(m) + post);
    MusicPack::dec_enc(m, post);
}

/// Bytes behind a pack change nothing of what is read.
pub proof fn music_ignores_what_follows(s: Seq<u8>, t: Seq<u8>)
    ensures
        codec::extends(dec_music(s), dec_music(s + t), t),
{
    if dec_music(s) is Ok {
        codec::lemma_more_take(8, s, t);
        MusicPack::dec_more(codec::dec_take(8, s)->Ok_0.1, t);
    }
}

/// A pack that lost any of its last bytes is refused.
pub proof fn cut_music_is_refused(m: MusicModel, n: int)
    requires
        fits_music(m),
        0 <= n < enc_music(m).len(),
    ensures
        dec_music(enc_music(m).take(n)) is Err,
{
    let whole = enc_music(m);
    let s = whole.take(n);
    let t = whole.skip(n);
    assert(s + t =~= whole);
    assert(whole + Seq::<u8>::empty() =~= whole);
    music_reads_back(m, Seq::empty());
    music_ignores_what_follows(s, t);
}

impl MusicPack {
    pub fn to_bytes(&self) -> (out: Vec<u8>)
        ensures
            out@ == enc_music(self.model()),
    {
        let mut w = W(Vec::new());
        w.raw(MAGIC.as_slice());
        self.write(&mut w);
        assert(w.0@ =~= enc_music(self.model()));
        w.0
    }

    pub fn from_bytes(b: &[u8]) -> (res: Result<MusicPack, PackError>)
        ensures
            match dec_music(b@) {
                Ok((m, _)) => (res matches Ok(p) && p.model() == m),
                Err(m) => (res matches Err(e) && e.0@ == m),
            },
    {
        let mut r = R { b, p: 0 };
        assert(r.rest() =~= b@);
        let magic = r.take(8)?;
        if !same_bytes(magic, MAGIC.as_slice()) {
            return Err(PackError("bad magic (regenerate with musicgen)"));
        }
        MusicPack::read(&mut r)
    }
}

impl VoiceGroup {
    /// The voice of a program, if the group covers it.
    pub fn voice(&self, program: u16) -> (v: Option<&Voice>)
        ensures
            match v {
                Some(x) => self.offset <= program < self.offset + self.entries@.len() && *x
                    == self.entries@[program - self.offset],
                None => program < self.offset || program >= self.offset + self.entries@.len(),
            },
    {
        if program < self.offset {
            return None;
        }
        let i: usize = (program - self.offset) as usize;
        if i < self.entries.len() {
            Some(&self.entries[i])
        } else {
            None
        }
    }
}

} // verus!
