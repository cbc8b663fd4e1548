//! The binary trie under a decode index.
//!
//! A node at level `l` branches on bit `l` of a code (0 to the left, 1 to
//! the right); a node at level `width` is a leaf and holds at most one
//! pattern. After compaction a child may sit more than one level below its
//! parent: the levels in between had a single branch.

use vstd::prelude::*;
use crate::bits::{agree_below, bit, fits, lemma_agree_step, prefers};
use crate::index::is_first;
use crate::pattern::{Pattern, PatternInfo};

verus! {

pub struct Node<P> {
    pub level: u64,
    pub left: Option<Box<Node<P>>>,
    pub right: Option<Box<Node<P>>>,
    pub value: Option<Pattern<P>>,
}

/// The patterns below an optional child, by code.
pub open spec fn child_entries<P>(child: Option<Box<Node<P>>>) -> Map<u64, Pattern<P>>
    decreases child,
{
    match child {
        Some(n) => n.entries(),
        None => Map::empty(),
    }
}

impl<P> Node<P> {
    /// The patterns stored in this subtree, by code.
    pub open spec fn entries(self) -> Map<u64, Pattern<P>>
        decreases self,
    {
        let below = child_entries(self.left).union_prefer_right(child_entries(self.right));
        match self.value {
            Some(e) => below.insert(e.code, e),
            None => below,
        }
    }

    /// A child of a node at `level`, on the side of bit value `side`.
    pub open spec fn child_inv(child: Option<Box<Node<P>>>, level: u64, side: bool, width: u64) -> bool
        decreases child, 0nat,
    {
        match child {
            Some(n) => {
                &&& n.level > level
                &&& n.inv(width)
                &&& forall|c: u64| #[trigger] n.entries().dom().contains(c) ==> bit(c, level) == side
            },
            None => true,
        }
    }

    /// Shape and placement: every pattern lies where its code leads.
    pub open spec fn inv(self, width: u64) -> bool
        decreases self, 1nat,
    {
        &&& self.level <= width <= 64
        &&& forall|c: u64| #[trigger]
            self.entries().dom().contains(c) ==> self.entries()[c].code == c && fits(c, width)
        &&& forall|a: u64, b: u64|
            #![trigger self.entries().dom().contains(a), self.entries().dom().contains(b)]
            self.entries().dom().contains(a) && self.entries().dom().contains(b) ==> agree_below(
                a,
                b,
                self.level,
            )
        &&& if self.level == width {
            self.left is None && self.right is None
        } else {
            self.value is None
        }
        &&& Self::child_inv(self.left, self.level, false, width)
        &&& Self::child_inv(self.right, self.level, true, width)
    }

    /// Below an interior node every pattern lies under exactly one child,
    /// on the side that bit `level` of its code names.
    pub proof fn lemma_split(self, width: u64)
        requires
            self.inv(width),
            self.level < width,
        ensures
            self.entries() == child_entries(self.left).union_prefer_right(child_entries(self.right)),
            forall|c: u64| #[trigger]
                child_entries(self.left).dom().contains(c) ==> !bit(c, self.level)
                    && self.entries().dom().contains(c) && self.entries()[c] == child_entries(
                    self.left,
                )[c],
            forall|c: u64| #[trigger]
                child_entries(self.right).dom().contains(c) ==> bit(c, self.level)
                    && self.entries().dom().contains(c) && self.entries()[c] == child_entries(
                    self.right,
                )[c],
            forall|c: u64| #[trigger]
                self.entries().dom().contains(c) ==> child_entries(self.left).dom().contains(c)
                    || child_entries(self.right).dom().contains(c),
    {
        let l = child_entries(self.left);
        let r = child_entries(self.right);
        assert(Self::child_inv(self.left, self.level, false, width));
        assert(Self::child_inv(self.right, self.level, true, width));
        assert forall|c: u64| #[trigger] l.dom().contains(c) implies !bit(c, self.level)
            && !r.dom().contains(c) by {
            let n = self.left.unwrap();
            assert(n.entries().dom().contains(c));
            if r.dom().contains(c) {
                assert(self.right.unwrap().entries().dom().contains(c));
            }
        }
        assert forall|c: u64| #[trigger] r.dom().contains(c) implies bit(c, self.level) by {
            assert(self.right.unwrap().entries().dom().contains(c));
        }
    }

    /// A child of a node at `level` in a trie that was never compacted.
    pub open spec fn child_strict(child: Option<Box<Node<P>>>, level: u64) -> bool
        decreases child, 0nat,
    {
        match child {
            Some(n) => n.level == level + 1 && n.strict(),
            None => true,
        }
    }

    /// Every child sits exactly one level below its parent.
    pub open spec fn strict(self) -> bool
        decreases self, 1nat,
    {
        Self::child_strict(self.left, self.level) && Self::child_strict(self.right, self.level)
    }

    pub fn new(level: u64) -> (r: Self)
        ensures
            r.level == level,
            r.left is None,
            r.right is None,
            r.value is None,
            r.entries() == Map::<u64, Pattern<P>>::empty(),
            r.strict(),
            forall|width: u64| level <= width <= 64 ==> #[trigger] r.inv(width),
    {
        Node { level, left: None, right: None, value: None }
    }

    /// Stores `entry` at the leaf that its code leads to, creating the path
    /// where it is missing. Where that leaf is taken, nothing changes and
    /// the pattern found there is described.
    pub fn insert(&mut self, entry: Pattern<P>, width: u64) -> (r: Option<PatternInfo>)
        requires
            old(self).inv(width),
            old(self).strict(),
            fits(entry.code, width),
            forall|c: u64| #[trigger]
                old(self).entries().dom().contains(c) ==> agree_below(
                    c,
                    entry.code,
                    old(self).level,
                ),
        ensures
            final(self).inv(width),
            final(self).strict(),
            final(self).level == old(self).level,
            match r {
                None => {
                    &&& !old(self).entries().dom().contains(entry.code)
                    &&& final(self).entries() == old(self).entries().insert(entry.code, entry)
                },
                Some(info) => {
                    &&& old(self).entries().dom().contains(entry.code)
                    &&& info == old(self).entries()[entry.code].info_spec()
                    &&& final(self).entries() == old(self).entries()
                },
            },
        decreases width - old(self).level,
    {
        let ghost before = *self;
        let ghost code = entry.code;
        if self.level == width {
            match &self.value {
                Some(v) => {
                    proof {
                        assert(self.entries().dom().contains(v.code));
                        assert(self.entries() =~= Map::<u64, Pattern<P>>::empty().insert(v.code, *v));
                    }
                    Some(v.info())
                },
                None => {
                    self.value = Some(entry);
                    proof {
                        assert(before.entries() =~= Map::<u64, Pattern<P>>::empty());
                        assert(self.entries() =~= before.entries().insert(code, entry));
                    }
                    None
                },
            }
        } else {
            let one = (entry.code >> self.level) & 1 == 1;
            proof {
                before.lemma_split(width);
                assert(Self::child_inv(before.left, before.level, false, width));
                assert(Self::child_inv(before.right, before.level, true, width));
            }
            let ghost side = if one { child_entries(before.right) } else { child_entries(before.left) };
            proof {
                assert forall|c: u64| #[trigger] side.dom().contains(c) implies agree_below(
                    c,
                    code,
                    (before.level + 1) as u64,
                ) by {
                    lemma_agree_step(c, code, before.level);
                }
            }
            if one {
                let mut child = match self.right.take() {
                    Some(n) => n,
                    None => Box::new(Node::new(self.level + 1)),
                };
                let r = child.insert(entry, width);
                self.right = Some(child);
                proof {
                    let grown = child_entries(self.right);
                    if r is None {
                        assert(grown == side.insert(code, entry));
                        assert(self.entries() =~= before.entries().insert(code, entry));
                    } else {
                        assert(grown == side);
                        assert(self.entries() =~= before.entries());
                    }
                }
                r
            } else {
                let mut child = match self.left.take() {
                    Some(n) => n,
                    None => Box::new(Node::new(self.level + 1)),
                };
                let r = child.insert(entry, width);
                self.left = Some(child);
                proof {
                    let grown = child_entries(self.left);
                    if r is None {
                        assert(grown == side.insert(code, entry));
                        assert(self.entries() =~= before.entries().insert(code, entry));
                    } else {
                        assert(grown == side);
                        assert(self.entries() =~= before.entries());
                    }
                }
                r
            }
        }
    }

    /// The node has exactly one child.
    pub open spec fn single(self) -> bool {
        (self.left is Some) != (self.right is Some)
    }

    /// A child that no search has to pass through without a choice.
    pub open spec fn child_compact(child: Option<Box<Node<P>>>) -> bool
        decreases child, 0nat,
    {
        match child {
            Some(n) => !n.single() && n.compact(),
            None => true,
        }
    }

    /// No node below this one has exactly one child.
    pub open spec fn compact(self) -> bool
        decreases self, 1nat,
    {
        Self::child_compact(self.left) && Self::child_compact(self.right)
    }

    /// Follows the chain of single children that starts at `node` and
    /// returns the first node that is a leaf or has a choice of branches.
    pub fn chain_end(node: Box<Node<P>>, width: u64) -> (r: Box<Node<P>>)
        requires
            node.inv(width),
        ensures
            r.inv(width),
            r.entries() == node.entries(),
            r.level >= node.level,
            !r.single(),
        decreases width - node.level,
    {
        proof {
            assert(Self::child_inv(node.left, node.level, false, width));
            assert(Self::child_inv(node.right, node.level, true, width));
        }
        if node.left.is_some() && node.right.is_none() {
            let inner = *node;
            let next = inner.left.unwrap();
            proof {
                assert(inner.entries() =~= next.entries());
            }
            Self::chain_end(next, width)
        } else if node.right.is_some() && node.left.is_none() {
            let inner = *node;
            let next = inner.right.unwrap();
            proof {
                assert(inner.entries() =~= next.entries());
            }
            Self::chain_end(next, width)
        } else {
            node
        }
    }

    /// Replaces every child by the end of its chain of single children.
    pub fn compress(&mut self, width: u64)
        requires
            old(self).inv(width),
        ensures
            final(self).inv(width),
            final(self).compact(),
            final(self).entries() == old(self).entries(),
            final(self).level == old(self).level,
            (final(self).left is Some) == (old(self).left is Some),
            (final(self).right is Some) == (old(self).right is Some),
        decreases width - old(self).level,
    {
        let ghost before = *self;
        proof {
            assert(Self::child_inv(self.left, self.level, false, width));
            assert(Self::child_inv(self.right, self.level, true, width));
        }
        if let Some(n) = self.left.take() {
            let mut end = Self::chain_end(n, width);
            end.compress(width);
            self.left = Some(end);
        }
        if let Some(n) = self.right.take() {
            let mut end = Self::chain_end(n, width);
            end.compress(width);
            self.right = Some(end);
        }
        proof {
            assert(child_entries(self.left) == child_entries(before.left));
            assert(child_entries(self.right) == child_entries(before.right));
            assert(self.entries() =~= before.entries());
        }
    }

    /// Among the patterns of a subtree that match `word` one comes first,
    /// unless none matches: the result is its code.
    pub proof fn lemma_first(self, word: u64, width: u64) -> (r: Option<u64>)
        requires
            self.inv(width),
        ensures
            match r {
                Some(c) => is_first(self.entries(), word, c),
                None => forall|c: u64| #[trigger]
                    self.entries().dom().contains(c) ==> !self.entries()[c].matches(word),
            },
        decreases self,
    {
        if self.level == width {
            match self.value {
                Some(e) => {
                    assert(self.entries().dom().contains(e.code));
                    if e.matches(word) {
                        Some(e.code)
                    } else {
                        None
                    }
                },
                None => None,
            }
        } else {
            self.lemma_split(width);
            let one = bit(word, self.level);
            let (first, second) = if one {
                (self.right, self.left)
            } else {
                (self.left, self.right)
            };
            assert(Self::child_inv(self.left, self.level, false, width));
            assert(Self::child_inv(self.right, self.level, true, width));
            let near = if first is Some {
                first.unwrap().lemma_first(word, width)
            } else {
                None
            };
            let far = if second is Some {
                second.unwrap().lemma_first(word, width)
            } else {
                None
            };
            let f = child_entries(first);
            let s = child_entries(second);
            if near is None {
                assert forall|d: u64| #[trigger] f.dom().contains(d) implies !f[d].matches(word) by {
                    if first is Some {
                        assert(first.unwrap().entries().dom().contains(d));
                    }
                }
            }
            if far is None {
                assert forall|d: u64| #[trigger] s.dom().contains(d) implies !s[d].matches(word) by {
                    if second is Some {
                        assert(second.unwrap().entries().dom().contains(d));
                    }
                }
            }
            match near {
                Some(c) => {
                    assert(is_first(f, word, c));
                    assert forall|d: u64|
                        #[trigger] self.entries().dom().contains(d) && self.entries()[d].matches(
                            word,
                        ) && d != c implies prefers(word, c, d) by {
                        if !f.dom().contains(d) {
                            assert(s.dom().contains(d));
                            assert(self.entries().dom().contains(c));
                            assert(agree_below(c, d, self.level));
                        }
                    }
                    near
                },
                None => {
                    match far {
                        Some(c) => {
                            assert forall|d: u64|
                                #[trigger] self.entries().dom().contains(d)
                                    && self.entries()[d].matches(word) && d != c implies prefers(
                                word,
                                c,
                                d,
                            ) by {
                                assert(is_first(s, word, c));
                                if f.dom().contains(d) {
                                    assert(!f[d].matches(word));
                                }
                                assert(s.dom().contains(d));
                            }
                        },
                        None => {},
                    }
                    far
                },
            }
        }
    }

    /// What `get` owes for `word` over the patterns `entries`: the first
    /// pattern that matches, or none where none matches.
    pub open spec fn found(entries: Map<u64, Pattern<P>>, word: u64, r: Option<&Pattern<P>>) -> bool {
        match r {
            Some(e) => is_first(entries, word, e.code) && entries[e.code] == *e,
            None => forall|c: u64| #[trigger] entries.dom().contains(c) ==> !entries[c].matches(word),
        }
    }

    /// Searches the subtree for a pattern that `word` matches, the branch
    /// that agrees with `word` first and the other one after it.
    pub fn get(&self, word: u64, width: u64) -> (r: Option<&Pattern<P>>)
        requires
            self.inv(width),
        ensures
            Self::found(self.entries(), word, r),
        decreases width - self.level,
    {
        if self.level == width {
            match &self.value {
                Some(e) => {
                    if e.matched(word) {
                        Some(e)
                    } else {
                        None
                    }
                },
                None => None,
            }
        } else {
            let one = (word >> self.level) & 1 == 1;
            let (first, second) = if one {
                (&self.right, &self.left)
            } else {
                (&self.left, &self.right)
            };
            let ghost f = child_entries(*first);
            let ghost s = child_entries(*second);
            proof {
                self.lemma_split(width);
                assert(Self::child_inv(self.left, self.level, false, width));
                assert(Self::child_inv(self.right, self.level, true, width));
                assert(Self::child_inv(*first, self.level, one, width));
                assert(Self::child_inv(*second, self.level, !one, width));
                assert(one == bit(word, self.level));
            }
            if let Some(n) = first {
                let hit = n.get(word, width);
                if let Some(e) = hit {
                    proof {
                        assert forall|c: u64|
                            #[trigger] self.entries().dom().contains(c) && self.entries()[c].matches(
                                word,
                            ) && c != e.code implies prefers(word, e.code, c) by {
                            if !f.dom().contains(c) {
                                assert(s.dom().contains(c));
                                assert(self.entries().dom().contains(e.code));
                                assert(agree_below(e.code, c, self.level));
                            }
                        }
                    }
                    return Some(e);
                }
            }
            if let Some(n) = second {
                let hit = n.get(word, width);
                if let Some(e) = hit {
                    proof {
                        assert forall|c: u64|
                            #[trigger] self.entries().dom().contains(c) && self.entries()[c].matches(
                                word,
                            ) && c != e.code implies prefers(word, e.code, c) by {
                            assert(s.dom().contains(c));
                        }
                    }
                    return Some(e);
                }
            }
            None
        }
    }
}

} // verus!
