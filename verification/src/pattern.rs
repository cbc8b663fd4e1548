//! Pattern entries: what is registered in a decode index.

use vstd::prelude::*;

verus! {

/// One instruction kind: a masked bit pattern, a diagnostic name and the
/// payload handed out when a word matches.
///
/// `code` holds the pattern's bits with every don't-care position at 0;
/// `mask` has a 1 at each position that a word must match exactly.
pub struct Pattern<P> {
    pub name: String,
    pub code: u64,
    pub mask: u64,
    pub payload: P,
}

/// The part of a pattern that diagnostics speak of.
#[derive(Debug)]
pub struct PatternInfo {
    pub name: String,
    pub code: u64,
    pub mask: u64,
}

impl<P> Pattern<P> {
    /// `word` agrees with the pattern at every significant position.
    pub open spec fn matches(self, word: u64) -> bool {
        word & self.mask == self.code
    }

    /// What `info` returns for this pattern.
    pub open spec fn info_spec(self) -> PatternInfo {
        PatternInfo { name: self.name, code: self.code, mask: self.mask }
    }

    pub fn new(name: String, code: u64, mask: u64, payload: P) -> (r: Self)
        ensures
            r == (Pattern { name, code, mask, payload }),
    {
        Pattern { name, code, mask, payload }
    }

    /// Tests `word` against the pattern.
    pub fn matched(&self, word: u64) -> (r: bool)
        ensures
            r == self.matches(word),
    {
        word & self.mask == self.code
    }

    /// Name, code and mask, without the payload.
    pub fn info(&self) -> (r: PatternInfo)
        ensures
            r == self.info_spec(),
    {
        PatternInfo { name: self.name.clone(), code: self.code, mask: self.mask }
    }
}

} // verus!
