//! The game-options catalogue: the languages offered, their interaction
//! sets, and the options each interaction presents. The records are plain
//! data; the stored copy is the persisted `game_options` blob.

use vstd::prelude::*;

verus! {

/// One selectable option: a stable code and a display name.
pub struct GameOption {
    pub code: String,
    pub name: String,
}

/// One interaction: the options it presents.
pub struct Interaction {
    pub options: Vec<GameOption>,
}

/// One offered language: its code and name, and its interactions.
pub struct Language {
    pub code: String,
    pub name: String,
    pub interactions: Vec<Interaction>,
}

/// The whole catalogue: every offered language.
pub struct GameOptions {
    pub languages: Vec<Language>,
}

impl GameOptions {
    /// An empty catalogue.
    pub fn new() -> (r: GameOptions)
        ensures
            r.languages@.len() == 0,
    {
        GameOptions { languages: Vec::new() }
    }

    /// The index of the language with the given code, if offered.
    pub fn find_language(&self, code: &String) -> (r: Option<usize>)
        ensures
            match r {
                Some(i) => i < self.languages@.len() && self.languages@[i as int].code@ == code@,
                None => forall|k: int|
                    0 <= k < self.languages@.len() ==> (#[trigger] self.languages@[k]).code@
                        != code@,
            },
    {
        let n = self.languages.len();
        let mut i: usize = 0;
        while i < n
            invariant
                i <= n,
                n == self.languages@.len(),
                forall|k: int| 0 <= k < i ==> (#[trigger] self.languages@[k]).code@ != code@,
            decreases n - i,
        {
            if self.languages[i].code.eq(code) {
                return Some(i);
            }
            i = i + 1;
        }
        None
    }
}

/// Choose the catalogue to serve: the stored one where the store holds
/// one, else the built-in default; reports whether the default was used,
/// so the caller can persist it for later requests.
pub fn options_or_default(stored: Option<GameOptions>, default_options: GameOptions) -> (r: (
    GameOptions,
    bool,
))
    ensures
        stored matches Some(o) ==> r.0 == o && !r.1,
        stored is None ==> r.0 == default_options && r.1,
{
    match stored {
        Some(o) => (o, false),
        None => (default_options, true),
    }
}

} // verus!
