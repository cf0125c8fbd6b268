//! Music and sound effects: two engines, mixed into one stream. Music loops,
//! effects play once on top of it.

use vstd::prelude::*;
use crate::audio::data;
use crate::audio::data::MusicPack;
use crate::audio::engine;
use crate::audio::engine::Engine;
use crate::codec::{PackError, Wire};

verus! {

pub struct Mixer {
    pub music: Option<Engine>,
    pub sfx: Option<Engine>,
    pub sample_rate: u32,
}

/// Whether an engine holds a pack, at a rate, and plays nothing.
pub open spec fn is_idle(e: Engine, pack: data::MusicModel, rate: u32) -> bool {
    &&& e.wf()
    &&& e.pack.model() == pack
    &&& e.rate == rate
    &&& e.song is None
}

/// Whether an engine holds a pack, at a rate, and has just begun a song.
pub open spec fn has_begun(
    e: Engine,
    pack: data::MusicModel,
    rate: u32,
    song: usize,
    looping: bool,
) -> bool {
    &&& e.wf()
    &&& e.pack.model() == pack
    &&& e.rate == rate
    &&& e.play_state() == engine::begun(pack, song, looping)
}

/// The first song of a name, from `from` on.
pub open spec fn first_song(m: data::MusicModel, name: Seq<char>, from: int) -> Option<int>
    decreases m.songs.len() - from,
{
    if from < 0 || from >= m.songs.len() {
        None
    } else if m.songs[from].name == name {
        Some(from)
    } else {
        first_song(m, name, from + 1)
    }
}

proof fn lemma_first_song(m: data::MusicModel, name: Seq<char>, from: int, i: int)
    requires
        0 <= from <= i < m.songs.len(),
        m.songs[i].name == name,
        forall|k: int| 0 <= k < i ==> (#[trigger] m.songs[k]).name != name,
    ensures
        first_song(m, name, from) == Some(i),
    decreases i - from,
{
    if from < i {
        assert(m.songs[from].name != name);
        lemma_first_song(m, name, from + 1, i);
    }
}

proof fn lemma_no_song(m: data::MusicModel, name: Seq<char>, from: int)
    requires
        0 <= from,
        forall|k: int| 0 <= k < m.songs.len() ==> (#[trigger] m.songs[k]).name != name,
    ensures
        first_song(m, name, from) is None,
    decreases m.songs.len() - from,
{
    if from < m.songs.len() {
        lemma_no_song(m, name, from + 1);
    }
}

impl Mixer {
    pub open spec fn wf(&self) -> bool {
        &&& self.music matches Some(e) ==> e.wf()
        &&& self.sfx matches Some(e) ==> e.wf()
    }

    /// A mixer with the resident effects; without them, effects stay silent.
    pub fn new(sfx_pack: Option<&[u8]>, sample_rate: u32) -> (res: Result<Mixer, PackError>)
        ensures
            match sfx_pack {
                None => res matches Ok(m) && m.music is None && m.sfx is None && m.sample_rate
                    == sample_rate,
                Some(b) => match data::dec_music(b@) {
                    Ok((p, _)) => res matches Ok(m) && m.music is None && m.sample_rate
                        == sample_rate && m.sfx is Some && is_idle(m.sfx->0, p, sample_rate),
                    Err(t) => res matches Err(e) && e.0@ == t,
                },
            },
            res matches Ok(m) ==> m.wf(),
    {
        let sfx = match sfx_pack {
            None => None,
            Some(b) => match MusicPack::from_bytes(b) {
                Ok(p) => Some(Engine::new(p, sample_rate)),
                Err(e) => return Err(e),
            },
        };
        Ok(Mixer { music: None, sfx, sample_rate })
    }

    /// Swap in a song pack and loop its first song, replacing whatever played.
    pub fn set_music(&mut self, pack_bytes: &[u8]) -> (res: Result<(), PackError>)
        requires
            old(self).wf(),
            data::dec_music(pack_bytes@) matches Ok((p, _)) ==> p.songs.len() > 0,
        ensures
            final(self).wf(),
            final(self).sfx == old(self).sfx,
            final(self).sample_rate == old(self).sample_rate,
            match data::dec_music(pack_bytes@) {
                Ok((p, _)) => res is Ok && final(self).music is Some && has_begun(
                    final(self).music->0,
                    p,
                    old(self).sample_rate,
                    0,
                    true,
                ),
                Err(t) => (res matches Err(e) && e.0@ == t) && final(self).music
                    == old(self).music,
            },
    {
        let pack = match MusicPack::from_bytes(pack_bytes) {
            Ok(p) => p,
            Err(e) => return Err(e),
        };
        assert(pack.model().songs.len() == pack.songs@.len());
        let mut engine = Engine::new(pack, self.sample_rate);
        engine.play(0, true);
        self.music = Some(engine);
        Ok(())
    }

    /// Play a sound effect once, by name. Whether there is one.
    pub fn play_sfx(&mut self, name: &str) -> (found: bool)
        requires
            old(self).wf(),
        ensures
            final(self).wf(),
            final(self).music == old(self).music,
            final(self).sample_rate == old(self).sample_rate,
            match old(self).sfx {
                None => !found && final(self).sfx is None,
                Some(e) => match first_song(e.pack.model(), name@, 0) {
                    None => !found && final(self).sfx == old(self).sfx,
                    Some(i) => found && final(self).sfx is Some && has_begun(
                        final(self).sfx->0,
                        e.pack.model(),
                        e.rate,
                        i as usize,
                        false,
                    ),
                },
            },
    {
        let mut engine = match self.sfx.take() {
            Some(e) => e,
            None => return false,
        };
        let ghost m = engine.pack.model();
        assert(m.songs.len() == engine.pack.songs@.len());
        assert(forall|k: int|
            0 <= k < m.songs.len() ==> (#[trigger] m.songs[k]).name == engine.pack.songs@[k].name@);
        let found = match engine.song_index(name) {
            Some(i) => {
                proof {
                    lemma_first_song(m, name@, 0, i as int);
                }
                engine.play(i, false);
                true
            },
            None => {
                proof {
                    lemma_no_song(m, name@, 0);
                }
                false
            },
        };
        self.sfx = Some(engine);
        found
    }
}

/// How many samples a sink should hold: 150 milliseconds of two channels.
pub fn queue_target(sample_rate: u32) -> (n: u64)
    ensures
        n == sample_rate as int * 2 * 3 / 20,
{
    sample_rate as u64 * 2 * 3 / 20
}

} // verus!
