//! What holds of every decode index, stated over its registered patterns.

use vstd::prelude::*;
use crate::bits::{bit, fits, lemma_agree_zero, lemma_prefers_self, low_mask, prefers};
use crate::index::{
    is_first, lemma_resolve_first, resolve, well_keyed, DecodeIndex, RegisterError,
};
use crate::pattern::Pattern;

verus! {

/// A pattern whose code is the word itself is the first that a search for
/// that word reaches, whatever else is registered.
pub proof fn lemma_own_code_first<P>(entries: Map<u64, Pattern<P>>, width: u64, c: u64)
    requires
        well_keyed(entries, width),
        entries.dom().contains(c),
        entries[c].matches(c),
    ensures
        resolve(entries, width, c) == Some(c),
{
    assert forall|d: u64|
        #[trigger] entries.dom().contains(d) && entries[d].matches(c) && d != c implies prefers(
        c,
        c,
        d,
    ) by {
        lemma_agree_zero(c, d);
        lemma_prefers_self(c, d, 0);
    }
    assert(is_first(entries, c, c));
    lemma_resolve_first(entries, width, c, c);
}

/// Uniqueness: once a pattern is registered, a second one with the same
/// code is turned away as a conflict that names the first, and the first
/// stays in the index as it was.
pub proof fn law_same_code_conflicts<P>(
    a: DecodeIndex<P>,
    first: Pattern<P>,
    b: DecodeIndex<P>,
    second: Pattern<P>,
    r: Result<(), RegisterError>,
    c: DecodeIndex<P>,
)
    requires
        DecodeIndex::registered(a, first, Ok(()), b),
        second.code == first.code,
        DecodeIndex::registered(b, second, r, c),
    ensures
        r matches Err(RegisterError::Conflict(e)) && e.existing == first.info_spec() && e.incoming
            == second.info_spec(),
        c@ == b@,
        c@.dom().contains(first.code) && c@[first.code] == first,
        forall|word: u64| c.lookup_spec(word) == b.lookup_spec(word),
{
}

/// Exact match: a pattern with every bit of the width significant is what
/// its own code decodes to, and no other word decodes to it.
pub proof fn law_exact_match<P>(entries: Map<u64, Pattern<P>>, width: u64, c: u64, w: u64)
    requires
        width <= 64,
        well_keyed(entries, width),
        entries.dom().contains(c),
        entries[c].mask & low_mask(width) == low_mask(width),
    ensures
        resolve(entries, width, c) == Some(c),
        w != c ==> resolve(entries, width, w) != Some(c),
{
    let m = entries[c].mask;
    let lm = low_mask(width);
    assert(c & m == c) by (bit_vector)
        requires
            m & lm == lm,
            c & lm == c,
    ;
    lemma_own_code_first(entries, width, c);
    if w != c && resolve(entries, width, w) == Some(c) {
        assert(is_first(entries, w, c));
        assert(false) by (bit_vector)
            requires
                w & lm == w,
                c & lm == c,
                m & lm == lm,
                w & m == c,
                w != c,
        ;
    }
}

/// Wildcard match: a pattern with a single don't-care bit, at position
/// `p`, is what its code decodes to with that bit clear, and with that bit
/// set too unless another pattern matches that word.
pub proof fn law_wildcard_match<P>(entries: Map<u64, Pattern<P>>, width: u64, c: u64, p: u64)
    requires
        p < width <= 64,
        well_keyed(entries, width),
        entries.dom().contains(c),
        entries[c].mask & low_mask(width) == low_mask(width) & !(1u64 << p),
        !bit(c, p),
        forall|d: u64|
            #[trigger] entries.dom().contains(d) && d != c ==> !entries[d].matches(c | (1u64 << p)),
    ensures
        resolve(entries, width, c) == Some(c),
        resolve(entries, width, c | (1u64 << p)) == Some(c),
{
    let m = entries[c].mask;
    let lm = low_mask(width);
    let w = c | (1u64 << p);
    if width < 64 {
        assert(c & m == c && w & m == c && w & lm == w) by (bit_vector)
            requires
                p < width < 64,
                lm == !(0xffff_ffff_ffff_ffffu64 << width),
                m & lm == lm & !(1u64 << p),
                c & lm == c,
                !((c >> p) & 1 == 1),
                w == c | (1u64 << p),
        ;
    } else {
        assert(c & m == c && w & m == c && w & lm == w) by (bit_vector)
            requires
                p < 64,
                lm == 0xffff_ffff_ffff_ffffu64,
                m & lm == lm & !(1u64 << p),
                !((c >> p) & 1 == 1),
                w == c | (1u64 << p),
        ;
    }
    lemma_own_code_first(entries, width, c);
    assert(is_first(entries, w, c));
    lemma_resolve_first(entries, width, w, c);
}

/// Freeze immutability: a frozen index takes no further pattern, and what
/// its words decode to stays as it is.
pub proof fn law_frozen_rejects<P>(
    a: DecodeIndex<P>,
    entry: Pattern<P>,
    r: Result<(), RegisterError>,
    b: DecodeIndex<P>,
)
    requires
        a.frozen(),
        DecodeIndex::registered(a, entry, r, b),
    ensures
        r == Err::<(), RegisterError>(RegisterError::Frozen),
        b.frozen(),
        b@ == a@,
        forall|word: u64| b.lookup_spec(word) == a.lookup_spec(word),
{
}

/// Compaction transparency: freezing changes what no word decodes to.
pub proof fn law_freeze_transparent<P>(a: DecodeIndex<P>, b: DecodeIndex<P>, word: u64)
    requires
        DecodeIndex::froze(a, b),
    ensures
        b.lookup_spec(word) == a.lookup_spec(word),
{
}

/// Illegal word: a word decodes to nothing exactly where it has a bit
/// outside the width or no registered pattern matches it.
pub proof fn law_illegal_word<P>(index: DecodeIndex<P>, word: u64)
    requires
        index.wf(),
    ensures
        index.lookup_spec(word) is None <==> !fits(word, index.width()) || forall|c: u64| #[trigger]
            index@.dom().contains(c) ==> !index@[c].matches(word),
{
    index.lemma_resolve_total(word);
}

} // verus!
