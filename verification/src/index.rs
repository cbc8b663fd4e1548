//! The decode index: registration, freezing and lookup.

use vstd::prelude::*;
use crate::bits::{agree_below, fits, fits_in, lemma_agree_zero, lemma_prefers_one_way, prefers};
use crate::node::Node;
use crate::pattern::{Pattern, PatternInfo};

verus! {

/// Two patterns with the same code: the one that was registered first and
/// the one that was turned away.
#[derive(Debug)]
pub struct ConflictError {
    pub existing: PatternInfo,
    pub incoming: PatternInfo,
}

/// Why a pattern was not registered.
#[derive(Debug)]
pub enum RegisterError {
    /// The index is frozen.
    Frozen,
    /// The code has a bit outside the index's width.
    TooWide,
    /// Another pattern already has this code.
    Conflict(ConflictError),
}

/// Why a word was not decoded.
#[derive(Debug)]
pub enum DecodeError {
    /// No registered pattern matches the word.
    Illegal(u64),
}

/// Every pattern is filed under its own code, and each code keeps to the
/// `width` lowest bits.
pub open spec fn well_keyed<P>(entries: Map<u64, Pattern<P>>, width: u64) -> bool {
    forall|c: u64| #[trigger]
        entries.dom().contains(c) ==> entries[c].code == c && fits(c, width)
}

/// `c` is the code of a pattern that matches `word`, and a search for
/// `word` reaches it before every other pattern that matches.
pub open spec fn is_first<P>(entries: Map<u64, Pattern<P>>, word: u64, c: u64) -> bool {
    &&& entries.dom().contains(c)
    &&& entries[c].matches(word)
    &&& forall|d: u64|
        #[trigger] entries.dom().contains(d) && entries[d].matches(word) && d != c ==> prefers(
            word,
            c,
            d,
        )
}

/// The code of the pattern that decoding `word` yields, if there is one.
pub open spec fn resolve<P>(entries: Map<u64, Pattern<P>>, width: u64, word: u64) -> Option<u64> {
    if fits(word, width) && exists|c: u64| is_first(entries, word, c) {
        Some(choose|c: u64| is_first(entries, word, c))
    } else {
        None
    }
}

/// At most one pattern comes first for a word.
pub proof fn lemma_first_unique<P>(entries: Map<u64, Pattern<P>>, word: u64, c: u64, d: u64)
    requires
        is_first(entries, word, c),
        is_first(entries, word, d),
    ensures
        c == d,
{
    if c != d {
        lemma_prefers_one_way(word, c, d);
    }
}

/// Where a pattern comes first for a word in range, `resolve` names it.
pub proof fn lemma_resolve_first<P>(entries: Map<u64, Pattern<P>>, width: u64, word: u64, c: u64)
    requires
        fits(word, width),
        is_first(entries, word, c),
    ensures
        resolve(entries, width, word) == Some(c),
{
    let d = choose|d: u64| is_first(entries, word, d);
    lemma_first_unique(entries, word, c, d);
}

pub struct DecodeIndex<P> {
    root: Node<P>,
    width: u64,
    frozen: bool,
}

impl<P> View for DecodeIndex<P> {
    type V = Map<u64, Pattern<P>>;

    /// The registered patterns, by code.
    closed spec fn view(&self) -> Map<u64, Pattern<P>> {
        self.root.entries()
    }
}

impl<P> DecodeIndex<P> {
    /// The number of bits in a word of this index.
    pub closed spec fn width(&self) -> u64 {
        self.width
    }

    /// Whether the build phase is over.
    pub closed spec fn frozen(&self) -> bool {
        self.frozen
    }

    /// Whether the trie has been compacted: no search passes through a
    /// node that has a single branch, but for the root.
    pub closed spec fn compacted(&self) -> bool {
        self.root.compact()
    }

    pub closed spec fn wf(&self) -> bool {
        &&& self.root.level == 0
        &&& self.root.inv(self.width)
        &&& !self.frozen ==> self.root.strict()
        &&& self.frozen ==> self.root.compact()
    }

    /// What a valid index holds.
    pub proof fn lemma_wf(&self)
        requires
            self.wf(),
        ensures
            self.width() <= 64,
            well_keyed(self@, self.width()),
            self.frozen() ==> self.compacted(),
    {
    }

    /// A word in range resolves to a pattern wherever one matches it.
    pub proof fn lemma_resolve_total(&self, word: u64)
        requires
            self.wf(),
        ensures
            resolve(self@, self.width(), word) is None <==> !fits(word, self.width()) || forall|
                c: u64,
            | #[trigger] self@.dom().contains(c) ==> !self@[c].matches(word),
    {
        match self.root.lemma_first(word, self.width) {
            Some(c) => {
                if fits(word, self.width) {
                    lemma_resolve_first(self@, self.width, word, c);
                }
            },
            None => {},
        }
    }

    /// What `lookup` returns for `word`.
    pub open spec fn lookup_spec(&self, word: u64) -> Option<&P> {
        match resolve(self@, self.width(), word) {
            Some(c) => Some(&self@[c].payload),
            None => None,
        }
    }

    /// An empty index for words of `width` bits, in its build phase.
    pub fn new(width: u64) -> (r: Self)
        requires
            width <= 64,
        ensures
            r.wf(),
            r.width() == width,
            !r.frozen(),
            r@ == Map::<u64, Pattern<P>>::empty(),
    {
        DecodeIndex { root: Node::new(0), width, frozen: false }
    }

    pub fn bit_width(&self) -> (r: u64)
        ensures
            r == self.width(),
    {
        self.width
    }

    pub fn is_frozen(&self) -> (r: bool)
        ensures
            r == self.frozen(),
    {
        self.frozen
    }

    /// What `register` does with `entry`: `before` and `after` are the
    /// index around the call, `r` is what the call returns.
    pub open spec fn registered(
        before: Self,
        entry: Pattern<P>,
        r: Result<(), RegisterError>,
        after: Self,
    ) -> bool {
        &&& after.width() == before.width()
        &&& after.frozen() == before.frozen()
        &&& match r {
            Ok(_) => {
                &&& !before.frozen()
                &&& fits(entry.code, before.width())
                &&& !before@.dom().contains(entry.code)
                &&& after@ == before@.insert(entry.code, entry)
            },
            Err(RegisterError::Frozen) => before.frozen() && after@ == before@,
            Err(RegisterError::TooWide) => {
                &&& !before.frozen()
                &&& !fits(entry.code, before.width())
                &&& after@ == before@
            },
            Err(RegisterError::Conflict(e)) => {
                &&& !before.frozen()
                &&& fits(entry.code, before.width())
                &&& before@.dom().contains(entry.code)
                &&& e.existing == before@[entry.code].info_spec()
                &&& e.incoming == entry.info_spec()
                &&& after@ == before@
            },
        }
    }

    /// What `freeze` does: `before` and `after` are the index around the
    /// call.
    pub open spec fn froze(before: Self, after: Self) -> bool {
        &&& after.frozen()
        &&& after.compacted()
        &&& after.width() == before.width()
        &&& after@ == before@
    }

    /// Adds `entry` to the index. A frozen index takes none; in the build
    /// phase an entry is turned away where its code does not fit the width
    /// or is the code of a pattern that is already there. The index changes
    /// only on success.
    pub fn register(&mut self, entry: Pattern<P>) -> (r: Result<(), RegisterError>)
        requires
            old(self).wf(),
        ensures
            final(self).wf(),
            Self::registered(*old(self), entry, r, *final(self)),
    {
        if self.frozen {
            return Err(RegisterError::Frozen);
        }
        if !fits_in(entry.code, self.width) {
            return Err(RegisterError::TooWide);
        }
        let incoming = entry.info();
        proof {
            assert forall|c: u64| #[trigger] self.root.entries().dom().contains(c) implies agree_below(
                c,
                entry.code,
                0,
            ) by {
                lemma_agree_zero(c, entry.code);
            }
        }
        match self.root.insert(entry, self.width) {
            Some(existing) => Err(RegisterError::Conflict(ConflictError { existing, incoming })),
            None => Ok(()),
        }
    }

    /// Ends the build phase and compacts the trie. The registered
    /// patterns stay as they are.
    pub fn freeze(&mut self)
        requires
            old(self).wf(),
        ensures
            final(self).wf(),
            Self::froze(*old(self), *final(self)),
    {
        self.root.compress(self.width);
        self.frozen = true;
    }

    /// The payload of the pattern that `word` matches; where several
    /// match, of the one that the search reaches first. `None` where no
    /// pattern matches or `word` has a bit outside the index's width.
    pub fn lookup(&self, word: u64) -> (r: Option<&P>)
        requires
            self.wf(),
        ensures
            r == self.lookup_spec(word),
            r is None <==> !fits(word, self.width()) || forall|c: u64| #[trigger]
                self@.dom().contains(c) ==> !self@[c].matches(word),
    {
        if !fits_in(word, self.width) {
            return None;
        }
        match self.root.get(word, self.width) {
            Some(e) => {
                proof {
                    assert(is_first(self@, word, e.code));
                    lemma_resolve_first(self@, self.width, word, e.code);
                }
                Some(&e.payload)
            },
            None => None,
        }
    }

    /// `lookup`, with the word handed back where nothing matches it.
    pub fn decode(&self, word: u64) -> (r: Result<&P, DecodeError>)
        requires
            self.wf(),
        ensures
            match r {
                Ok(p) => self.lookup_spec(word) == Some(p),
                Err(DecodeError::Illegal(w)) => w == word && self.lookup_spec(word) is None,
            },
    {
        match self.lookup(word) {
            Some(p) => Ok(p),
            None => Err(DecodeError::Illegal(word)),
        }
    }
}

} // verus!
