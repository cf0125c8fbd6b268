//! Per-song streaming: playing a map's music means fetching its own file. The
//! fetch runs beside the game loop; until it lands, the song before keeps
//! playing.

use vstd::prelude::*;
use crate::text;
use crate::text::{chars_of, same_text, string_of};

verus! {

/// A text in lower case.
pub uninterp spec fn lower_of(s: Seq<char>) -> Seq<char>;

/// `str::to_lowercase`: a function of the text.
#[verifier::external_body]
fn to_lower(s: &str) -> (r: String)
    ensures
        r@ == lower_of(s@),
{
    s.to_lowercase()
}

/// The song that plays and the one that is on its way.
pub struct Songs {
    pub current: Option<String>,
    pub loading: Option<String>,
}

/// Whether a song is the one in a place.
pub open spec fn is_in(place: Option<String>, name: Seq<char>) -> bool {
    place matches Some(n) && n@ == name
}

/// Where the file of a song lies.
pub open spec fn path_of(name: Seq<char>) -> Seq<char> {
    "assets/music/"@ + name + ".bin"@
}

impl Songs {
    pub fn new() -> (s: Songs)
        ensures
            s.current is None,
            s.loading is None,
    {
        Songs { current: None, loading: None }
    }

    /// The file to fetch for the music that is wanted, if it neither plays nor
    /// is on its way. It replaces whatever was on its way.
    pub fn want(&mut self, music: Option<&str>) -> (path: Option<String>)
        ensures
            final(self).current == old(self).current,
            match music {
                None => path is None && final(self).loading == old(self).loading,
                Some(m) => {
                    let name = lower_of(m@);
                    if is_in(old(self).current, name) || is_in(old(self).loading, name) {
                        path is None && final(self).loading == old(self).loading
                    } else {
                        (path matches Some(p) && p@ == path_of(name)) && is_in(
                            final(self).loading,
                            name,
                        )
                    }
                },
            },
    {
        match music {
            None => None,
            Some(m) => {
                let name = to_lower(m);
                self.want_named(name)
            },
        }
    }

    /// The file to fetch for a song by its name in lower case.
    pub fn want_named(&mut self, name: String) -> (path: Option<String>)
        ensures
            final(self).current == old(self).current,
            if is_in(old(self).current, name@) || is_in(old(self).loading, name@) {
                path is None && final(self).loading == old(self).loading
            } else {
                (path matches Some(p) && p@ == path_of(name@)) && is_in(
                    final(self).loading,
                    name@,
                )
            },
    {
        let playing = match &self.current {
            Some(c) => same_text(c.as_str(), name.as_str()),
            None => false,
        };
        let coming = match &self.loading {
            Some(c) => same_text(c.as_str(), name.as_str()),
            None => false,
        };
        if playing || coming {
            return None;
        }
        let mut path = chars_of("assets/music/");
        text::append(&mut path, &chars_of(name.as_str()));
        text::append(&mut path, &chars_of(".bin"));
        self.loading = Some(name);
        Some(string_of(&path))
    }

    /// A fetch has ended. A song whose file is missing still counts as the
    /// current one, so that it is not fetched again every frame.
    pub fn arrived(&mut self)
        ensures
            match old(self).loading {
                None => *final(self) == *old(self),
                Some(n) => is_in(final(self).current, n@) && final(self).loading is None,
            },
    {
        if let Some(name) = self.loading.take() {
            self.current = Some(name);
        }
    }
}

} // verus!
