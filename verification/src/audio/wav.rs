//! 16-bit stereo sound as the bytes of a RIFF file.

use vstd::prelude::*;
use crate::codec;
use crate::codec::W;

verus! {

/// Two's complement of a 16-bit sample.
pub open spec fn bits16(v: i16) -> u16 {
    if v < 0 {
        (v + 65536) as u16
    } else {
        v as u16
    }
}

/// The bytes of a run of samples.
pub open spec fn sample_bytes(pcm: Seq<i16>) -> Seq<u8>
    decreases pcm.len(),
{
    if pcm.len() == 0 {
        seq![]
    } else {
        sample_bytes(pcm.drop_last()) + codec::le16(bits16(pcm.last()))
    }
}

/// The header of a file that holds `len` bytes of stereo sound: RIFF, its
/// size, WAVE, a format chunk (PCM, two channels, the rate, four bytes to a
/// frame, 16 bits) and the head of the data chunk.
pub open spec fn header(rate: u32, len: u32) -> Seq<u8> {
    seq![0x52u8, 0x49u8, 0x46u8, 0x46u8] + codec::le32((36 + len) as u32) + seq![
        0x57u8,
        0x41u8,
        0x56u8,
        0x45u8,
        0x66u8,
        0x6Du8,
        0x74u8,
        0x20u8,
    ] + codec::le32(16) + codec::le16(1) + codec::le16(2) + codec::le32(rate) + codec::le32(
        (rate * 4) as u32,
    ) + codec::le16(4) + codec::le16(16) + seq![0x64u8, 0x61u8, 0x74u8, 0x61u8] + codec::le32(len)
}

/// Interleaved stereo samples as a file.
pub fn wav_bytes(rate: u32, pcm: &[i16]) -> (out: Vec<u8>)
    requires
        rate * 4 <= u32::MAX,
        36 + 2 * pcm@.len() <= u32::MAX,
    ensures
        out@ == header(rate, (2 * pcm@.len()) as u32) + sample_bytes(pcm@),
{
    let len: u32 = (pcm.len() as u64 * 2) as u32;
    let mut w = W(Vec::new());
    w.raw([0x52u8, 0x49u8, 0x46u8, 0x46u8].as_slice());
    w.u32(36 + len);
    w.raw([0x57u8, 0x41u8, 0x56u8, 0x45u8, 0x66u8, 0x6Du8, 0x74u8, 0x20u8].as_slice());
    w.u32(16);
    w.u16(1);
    w.u16(2);
    w.u32(rate);
    w.u32(rate * 4);
    w.u16(4);
    w.u16(16);
    w.raw([0x64u8, 0x61u8, 0x74u8, 0x61u8].as_slice());
    w.u32(len);
    assert(w.0@ =~= header(rate, len));
    let ghost head = w.0@;
    let mut i: usize = 0;
    assert(w.0@ =~= head + sample_bytes(pcm@.take(0)));
    while i < pcm.len()
        invariant
            i <= pcm@.len(),
            w.0@ == head + sample_bytes(pcm@.take(i as int)),
        decreases pcm.len() - i,
    {
        let v: i16 = pcm[i];
        w.u16(if v < 0 { (v as i32 + 65536) as u16 } else { v as u16 });
        assert(pcm@.take(i + 1).drop_last() =~= pcm@.take(i as int));
        assert(w.0@ =~= head + sample_bytes(pcm@.take(i + 1)));
        i += 1;
    }
    assert(pcm@.take(pcm@.len() as int) =~= pcm@);
    w.0
}

} // verus!
