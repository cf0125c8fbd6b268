//! Audio on a page: the game loop hands packs and effect names over, and the
//! page pulls sound. The mixer is built at the first pull, because only the
//! page knows the output rate.

use vstd::prelude::*;
use crate::audio::data;
use crate::audio::data::MusicModel;
use crate::audio::engine::Engine;
use crate::audio::mixer;
use crate::audio::mixer::Mixer;
use crate::codec::Wire;

verus! {

pub struct AudioSlot {
    /// The resident effects, handed over once at startup.
    pub sfx_pack: Option<Vec<u8>>,
    /// A freshly fetched song that waits for the next pull.
    pub song_pack: Option<Vec<u8>>,
    pub mixer: Option<Mixer>,
    pub pending_sfx: Vec<String>,
}

/// The song of the last of the first `n` names that there is one for.
pub open spec fn last_effect(m: MusicModel, names: Seq<String>, n: int) -> Option<int>
    decreases n,
{
    if n <= 0 {
        None
    } else {
        match mixer::first_song(m, names[n - 1]@, 0) {
            Some(i) => Some(i),
            None => last_effect(m, names, n - 1),
        }
    }
}

/// Whether an engine is another one after some effects were asked for.
pub open spec fn plays_last(e: Engine, was: Engine, names: Seq<String>, n: int) -> bool {
    match last_effect(was.pack.model(), names, n) {
        None => e == was,
        Some(i) => mixer::has_begun(e, was.pack.model(), was.rate, i as usize, false),
    }
}

impl AudioSlot {
    pub open spec fn wf(&self) -> bool {
        &&& self.mixer matches Some(m) ==> m.wf()
        &&& self.song_pack matches Some(b) ==> (data::dec_music(b@) matches Ok((p, _))
            ==> p.songs.len() > 0)
    }

    pub fn new() -> (s: AudioSlot)
        ensures
            s.wf(),
            s.sfx_pack is None,
            s.song_pack is None,
            s.mixer is None,
            s.pending_sfx@.len() == 0,
    {
        AudioSlot { sfx_pack: None, song_pack: None, mixer: None, pending_sfx: Vec::new() }
    }

    /// Called once from the game loop with the fetched effects.
    pub fn init(&mut self, sfx_pack: Option<Vec<u8>>)
        ensures
            *final(self) == (AudioSlot { sfx_pack, ..*old(self) }),
    {
        self.sfx_pack = sfx_pack;
    }

    /// A fetched song: swapped in at the next pull.
    pub fn set_music(&mut self, pack_bytes: Vec<u8>)
        ensures
            *final(self) == (AudioSlot { song_pack: Some(pack_bytes), ..*old(self) }),
    {
        self.song_pack = Some(pack_bytes);
    }

    /// Called from the game loop: queue any one-shot sound effect.
    pub fn tend(&mut self, sfx: Option<&str>)
        ensures
            final(self).sfx_pack == old(self).sfx_pack,
            final(self).song_pack == old(self).song_pack,
            final(self).mixer == old(self).mixer,
            match sfx {
                None => final(self).pending_sfx@ == old(self).pending_sfx@,
                Some(n) => final(self).pending_sfx@.len() == old(self).pending_sfx@.len() + 1
                    && final(self).pending_sfx@.drop_last() == old(self).pending_sfx@
                    && final(self).pending_sfx@.last()@ == n@,
            },
    {
        if let Some(name) = sfx {
            self.pending_sfx.push(name.to_owned());
            assert(self.pending_sfx@.drop_last() =~= old(self).pending_sfx@);
        }
    }

    /// Before sound is pulled: build the mixer if there is none, swap in the
    /// song that waits, and start the effects that wait. Whether there is a
    /// mixer to pull from.
    pub fn prepare(&mut self, rate: u32) -> (ready: bool)
        requires
            old(self).wf(),
        ensures
            final(self).wf(),
            ready == (final(self).mixer is Some),
            match old(self).mixer {
                Some(m) => ready && final(self).sfx_pack == old(self).sfx_pack && advanced(
                    m,
                    *old(self),
                    *final(self),
                ),
                None => {
                    &&& final(self).sfx_pack is None
                    &&& match old(self).sfx_pack {
                        None => ready && advanced(
                            Mixer { music: None, sfx: None, sample_rate: rate },
                            *old(self),
                            *final(self),
                        ),
                        Some(b) => match data::dec_music(b@) {
                            Ok((p, _)) => ready && exists|e: Engine|
                                #![trigger mixer::is_idle(e, p, rate)]
                                mixer::is_idle(e, p, rate) && advanced(
                                    Mixer { music: None, sfx: Some(e), sample_rate: rate },
                                    *old(self),
                                    *final(self),
                                ),
                            Err(_) => !ready && final(self).song_pack == old(self).song_pack
                                && final(self).pending_sfx == old(self).pending_sfx,
                        },
                    }
                },
            },
    {
        if self.mixer.is_none() {
            let pack = self.sfx_pack.take();
            let made = match &pack {
                Some(b) => Mixer::new(Some(b.as_slice()), rate),
                None => Mixer::new(None, rate),
            };
            match made {
                Ok(m) => {
                    self.mixer = Some(m);
                },
                Err(_) => return false,
            }
        }
        let mut m = match self.mixer.take() {
            Some(m) => m,
            None => return false,
        };
        let ghost start = m;
        if let Some(bytes) = self.song_pack.take() {
            let _ = m.set_music(bytes.as_slice());
        }
        let ghost fresh = m;
        let mut i: usize = 0;
        while i < self.pending_sfx.len()
            invariant
                i <= self.pending_sfx@.len(),
                self.pending_sfx == old(self).pending_sfx,
                m.wf(),
                fresh.wf(),
                m.music == fresh.music,
                m.sample_rate == fresh.sample_rate,
                match fresh.sfx {
                    None => m.sfx is None,
                    Some(e) => m.sfx is Some && m.sfx->0.pack.model() == e.pack.model()
                        && m.sfx->0.rate == e.rate && plays_last(
                        m.sfx->0,
                        e,
                        self.pending_sfx@,
                        i as int,
                    ),
                },
                self.sfx_pack == old(self).sfx_pack || old(self).mixer is None && self.sfx_pack
                    is None,
                self.song_pack is None,
            decreases self.pending_sfx.len() - i,
        {
            let _ = m.play_sfx(self.pending_sfx[i].as_str());
            i += 1;
        }
        let ghost names = self.pending_sfx@;
        self.pending_sfx = Vec::new();
        self.mixer = Some(m);
        assert(advanced(start, *old(self), *self));
        true
    }
}

/// Whether a slot is another one after a mixer took what waited in it.
pub open spec fn advanced(start: Mixer, was: AudioSlot, now: AudioSlot) -> bool {
    &&& now.mixer is Some
    &&& now.mixer->0.sample_rate == start.sample_rate
    &&& now.song_pack is None
    &&& now.pending_sfx@.len() == 0
    &&& match was.song_pack {
        None => now.mixer->0.music == start.music,
        Some(b) => match data::dec_music(b@) {
            Ok((p, _)) => now.mixer->0.music is Some && mixer::has_begun(
                now.mixer->0.music->0,
                p,
                start.sample_rate,
                0,
                true,
            ),
            Err(_) => now.mixer->0.music == start.music,
        },
    }
    &&& match start.sfx {
        None => now.mixer->0.sfx is None,
        Some(e) => now.mixer->0.sfx is Some && plays_last(
            now.mixer->0.sfx->0,
            e,
            was.pending_sfx@,
            was.pending_sfx@.len() as int,
        ),
    }
}

} // verus!
