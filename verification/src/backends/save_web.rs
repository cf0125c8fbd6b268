//! Save persistence on a page: the game loop publishes its save, the page
//! mirrors it, and pushes a stored one back at boot.

use vstd::prelude::*;

verus! {

/// The published save, and a save on its way back.
pub struct SaveSlot {
    pub save: Vec<u8>,
    pub restore: Vec<u8>,
    pub ready: bool,
}

/// A buffer at a new length: what is there stays, what is new is 0.
pub open spec fn resized(b: Seq<u8>, n: nat) -> Seq<u8> {
    Seq::new(
        n,
        |i: int|
            if i < b.len() {
                b[i]
            } else {
                0
            },
    )
}

impl SaveSlot {
    pub fn new() -> (s: SaveSlot)
        ensures
            s.save@.len() == 0,
            s.restore@.len() == 0,
            !s.ready,
    {
        SaveSlot { save: Vec::new(), restore: Vec::new(), ready: false }
    }

    /// Game loop: publish the current save for the page to pick up.
    pub fn publish(&mut self, bytes: Vec<u8>)
        ensures
            *final(self) == (SaveSlot { save: bytes, ..*old(self) }),
    {
        self.save = bytes;
    }

    /// Game loop: a save that the page pushed, once.
    pub fn take_restore(&mut self) -> (r: Option<Vec<u8>>)
        ensures
            final(self).save == old(self).save,
            !final(self).ready,
            match r {
                Some(b) => old(self).ready && b@ == old(self).restore@ && final(self).restore@.len()
                    == 0,
                None => !old(self).ready && final(self).restore == old(self).restore,
            },
    {
        if self.ready {
            self.ready = false;
            let mut b: Vec<u8> = Vec::new();
            std::mem::swap(&mut b, &mut self.restore);
            Some(b)
        } else {
            None
        }
    }

    /// Page: how long the published save is; 0 = nothing yet.
    pub fn save_len(&self) -> (n: usize)
        ensures
            n == self.save@.len(),
    {
        self.save.len()
    }

    /// Page: make room for a save that is about to come back.
    pub fn restore_buffer(&mut self, len: u32)
        ensures
            final(self).save == old(self).save,
            !final(self).ready,
            final(self).restore@ == resized(old(self).restore@, len as nat),
    {
        self.ready = false;
        let mut b: Vec<u8> = Vec::new();
        let mut i: u32 = 0;
        while i < len
            invariant
                i <= len,
                self.save == old(self).save,
                self.restore == old(self).restore,
                !self.ready,
                b@ == resized(self.restore@, i as nat),
            decreases len - i,
        {
            let have: usize = self.restore.len();
            b.push(if (i as u64) < have as u64 { self.restore[i as usize] } else { 0 });
            assert(b@ =~= resized(self.restore@, (i + 1) as nat));
            i += 1;
        }
        self.restore = b;
    }

    /// Page: the save is there.
    pub fn restore_commit(&mut self)
        ensures
            *final(self) == (SaveSlot { ready: true, ..*old(self) }),
    {
        self.ready = true;
    }
}

} // verus!
