//! The symbols of interest: those that the store holds, or the defaults
//! where it holds none.

use vstd::prelude::*;

verus! {

/// The symbols to work with, and where they come from.
#[derive(Debug)]
pub enum TokensOfInterest {
    /// The store held these.
    Stored(Vec<String>),
    /// The store held none: these are the defaults, and the store is to be
    /// filled with them.
    Defaults(Vec<String>),
}

/// What each text of a list holds.
pub open spec fn texts(tokens: Seq<String>) -> Seq<Seq<char>> {
    Seq::new(tokens.len(), |k: int| tokens[k]@)
}

/// What each text of a list holds.
pub open spec fn slice_texts(tokens: Seq<&str>) -> Seq<Seq<char>> {
    Seq::new(tokens.len(), |k: int| tokens[k]@)
}

impl TokensOfInterest {
    /// Whether the store is to be filled with the tokens.
    pub fn populates_store(&self) -> (populates: bool)
        ensures
            populates == (self is Defaults),
    {
        match self {
            TokensOfInterest::Stored(_) => false,
            TokensOfInterest::Defaults(_) => true,
        }
    }

    /// The symbols themselves.
    pub fn into_tokens(self) -> (tokens: Vec<String>)
        ensures
            tokens == match self {
                TokensOfInterest::Stored(stored) => stored,
                TokensOfInterest::Defaults(defaults) => defaults,
            },
    {
        match self {
            TokensOfInterest::Stored(stored) => stored,
            TokensOfInterest::Defaults(defaults) => defaults,
        }
    }
}

/// Chooses between what the store holds and the defaults: the stored symbols
/// where there is at least one, else the defaults, in their order.
pub fn tokens_or_defaults(stored: Vec<String>, defaults: &[&str]) -> (chosen: TokensOfInterest)
    ensures
        match chosen {
            TokensOfInterest::Stored(tokens) => stored@.len() > 0 && tokens == stored,
            TokensOfInterest::Defaults(tokens) => stored@.len() == 0 && texts(tokens@)
                == slice_texts(defaults@),
        },
{
    if stored.len() > 0 {
        return TokensOfInterest::Stored(stored);
    }
    let mut tokens: Vec<String> = Vec::new();
    let mut at: usize = 0;
    while at < defaults.len()
        invariant
            at <= defaults.len(),
            tokens@.len() == at,
            forall|k: int| 0 <= k < at ==> (#[trigger] tokens@[k])@ == defaults@[k]@,
        decreases defaults.len() - at,
    {
        tokens.push(defaults[at].to_owned());
        at += 1;
    }
    assert(texts(tokens@) =~= slice_texts(defaults@));
    TokensOfInterest::Defaults(tokens)
}

} // verus!
