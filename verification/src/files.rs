//! Source files by their paths.

use vstd::prelude::*;
use vstd::utf8::*;
use crate::codec::string_from_utf8;
use crate::text;
use crate::text::{chars_of, find_last, Text};

verus! {

/// Files that were read. The last one of a path counts.
pub struct Files {
    pub paths: Vec<Text>,
    pub contents: Vec<Vec<u8>>,
}

impl Files {
    pub open spec fn wf(&self) -> bool {
        &&& self.paths@.len() == self.contents@.len()
        &&& forall|i: int|
            0 <= i < self.contents@.len() ==> (#[trigger] self.contents@[i])@.len() <= i64::MAX
    }

    /// What the file at a path holds.
    pub open spec fn file(&self, path: Seq<char>) -> Option<Seq<u8>> {
        match text::last_named(text::texts(self.paths@), path, self.paths@.len() as int) {
            Some(i) => Some(self.contents@[i]@),
            None => None,
        }
    }

    /// The text of the file at a path.
    pub open spec fn text(&self, path: Seq<char>) -> Option<Seq<char>> {
        match self.file(path) {
            Some(b) => if valid_utf8(b) {
                Some(decode_utf8(b))
            } else {
                None
            },
            None => None,
        }
    }

    pub fn new() -> (f: Files)
        ensures
            f.wf(),
            forall|p: Seq<char>| #[trigger] f.file(p) is None,
    {
        Files { paths: Vec::new(), contents: Vec::new() }
    }

    /// One more file.
    pub fn add(&mut self, path: &str, bytes: Vec<u8>)
        requires
            old(self).wf(),
            bytes@.len() <= i64::MAX,
        ensures
            final(self).wf(),
            forall|p: Seq<char>| #[trigger]
                final(self).file(p) == if p == path@ {
                    Some(bytes@)
                } else {
                    old(self).file(p)
                },
    {
        let ghost was = *self;
        self.paths.push(chars_of(path));
        self.contents.push(bytes);
        let ghost n = was.paths@.len() as int;
        assert forall|p: Seq<char>| #[trigger]
            self.file(p) == if p == path@ {
                Some(bytes@)
            } else {
                was.file(p)
            } by {
            let names = text::texts(self.paths@);
            assert(names[n] == path@);
            assert(names.take(n) =~= text::texts(was.paths@));
            lemma_last_named(names, text::texts(was.paths@), p, n);
        }
    }

    /// The file at a path.
    pub fn get(&self, path: &Text) -> (r: Option<&Vec<u8>>)
        requires
            self.wf(),
        ensures
            match self.file(path@) {
                Some(b) => r is Some && r->0@ == b && b.len() <= i64::MAX,
                None => r is None,
            },
    {
        match find_last(&self.paths, path) {
            Some(i) => Some(&self.contents[i]),
            None => None,
        }
    }
}

impl Files {
    /// The text of the file at a path.
    pub fn read(&self, path: &str) -> (r: Option<String>)
        requires
            self.wf(),
        ensures
            match self.text(path@) {
                Some(t) => r is Some && r->0@ == t,
                None => r is None,
            },
    {
        self.read_at(&chars_of(path))
    }

    /// The text of the file at a path.
    pub fn read_at(&self, path: &Text) -> (r: Option<String>)
        requires
            self.wf(),
        ensures
            match self.text(path@) {
                Some(t) => r is Some && r->0@ == t,
                None => r is None,
            },
    {
        match self.get(path) {
            Some(b) => string_from_utf8(vstd::slice::slice_to_vec(b.as_slice())),
            None => None,
        }
    }
}

proof fn lemma_last_named(a: Seq<Seq<char>>, b: Seq<Seq<char>>, name: Seq<char>, n: int)
    requires
        0 <= n <= a.len(),
        n <= b.len(),
        forall|i: int| 0 <= i < n ==> a[i] == b[i],
    ensures
        text::last_named(a, name, n) == text::last_named(b, name, n),
        text::last_named(b, name, n) matches Some(i) ==> 0 <= i < n,
    decreases n,
{
    if n > 0 {
        lemma_last_named(a, b, name, n - 1);
    }
}

} // verus!
