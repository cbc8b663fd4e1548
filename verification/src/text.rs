//! Bit patterns as text.
//!
//! A pattern is written as its length in decimal, the letter `b`, and one
//! character per bit, most significant first: `1`, `0` or `?` for a
//! don't-care bit. Underscores between the bit characters are skipped, and
//! a pattern with fewer bit characters than its length is filled up with
//! don't-care bits at the front: `8b1?_01` stands for `????1?01`.

use vstd::prelude::*;
use vstd::string::{StrSliceExecFns, StringExecFns, StringSliceAdditionalSpecFns};

verus! {

/// `bits` behind `n` don't-care characters.
pub open spec fn padded(bits: Seq<char>, n: nat) -> Seq<char> {
    Seq::new(n, |i: int| '?') + bits
}

/// `s` with every `from` turned into `to`.
pub open spec fn replaced(s: Seq<char>, from: char, to: char) -> Seq<char> {
    s.map_values(
        |c: char|
            if c == from {
                to
            } else {
                c
            },
    )
}

/// The code of a pattern: every don't-care bit reads 0.
pub open spec fn code_text(bits: Seq<char>) -> Seq<char> {
    replaced(bits, '?', '0')
}

/// The mask of a pattern: 1 at every bit that is given, 0 at every
/// don't-care bit.
pub open spec fn mask_text(bits: Seq<char>) -> Seq<char> {
    replaced(replaced(bits, '0', '1'), '?', '0')
}

/// Why a pattern's text was turned away.
#[derive(Debug, Clone, Copy, PartialEq, Eq)]
pub enum BitsError {
    /// The text is not a decimal length, `b`, and bit characters or
    /// underscores.
    Malformed,
    /// The length does not fit the machine's word.
    LengthOverflow,
    /// The length is zero.
    ZeroLength,
    /// The text gives no bit, or more bits than its length, which is
    /// carried here.
    TooManyBits(usize),
}

pub open spec fn is_digit(c: char) -> bool {
    '0' <= c <= '9'
}

pub open spec fn is_bit(c: char) -> bool {
    c == '1' || c == '0' || c == '?'
}

pub open spec fn digit_value(c: char) -> nat {
    (c as u32 - '0' as u32) as nat
}

/// The number that the decimal digits `s` write.
pub open spec fn decimal(s: Seq<char>) -> nat
    decreases s.len(),
{
    if s.len() == 0 {
        0
    } else {
        decimal(s.drop_last()) * 10 + digit_value(s.last())
    }
}

/// `s` without its underscores.
pub open spec fn stripped(s: Seq<char>) -> Seq<char>
    decreases s.len(),
{
    if s.len() == 0 {
        Seq::empty()
    } else if s.last() == '_' {
        stripped(s.drop_last())
    } else {
        stripped(s.drop_last()).push(s.last())
    }
}

/// `s` is one or more digits, a `b` at position `k`, and one or more bit
/// characters or underscores.
pub open spec fn splits_at(s: Seq<char>, k: int) -> bool {
    &&& 1 <= k
    &&& k + 1 < s.len()
    &&& forall|i: int| 0 <= i < k ==> is_digit(#[trigger] s[i])
    &&& s[k] == 'b'
    &&& forall|i: int| k < i < s.len() ==> is_bit(#[trigger] s[i]) || s[i] == '_'
}

pub open spec fn well_formed(s: Seq<char>) -> bool {
    exists|k: int| splits_at(s, k)
}

/// What the text `s` of a pattern stands for: its bit characters, as many
/// as its length says, or the reason why it stands for none.
pub open spec fn raw_bits(s: Seq<char>) -> Result<Seq<char>, BitsError> {
    if !well_formed(s) {
        Err(BitsError::Malformed)
    } else {
        let k = choose|k: int| splits_at(s, k);
        let len = decimal(s.subrange(0, k));
        let bits = stripped(s.subrange(k + 1, s.len() as int));
        if len > usize::MAX {
            Err(BitsError::LengthOverflow)
        } else if len == 0 {
            Err(BitsError::ZeroLength)
        } else if bits.len() == 0 || bits.len() > len {
            Err(BitsError::TooManyBits(len as usize))
        } else {
            Ok(padded(bits, (len - bits.len()) as nat))
        }
    }
}

/// A text splits at one place at most.
pub proof fn lemma_split_unique(s: Seq<char>, j: int, k: int)
    requires
        splits_at(s, j),
        splits_at(s, k),
    ensures
        j == k,
{
    if j < k {
        assert(is_digit(s[j]));
    } else if k < j {
        assert(is_digit(s[k]));
    }
}

/// A longer run of digits writes no smaller number.
pub proof fn lemma_decimal_grows(s: Seq<char>, j: int, k: int)
    requires
        0 <= j <= k <= s.len(),
    ensures
        decimal(s.subrange(0, j)) <= decimal(s.subrange(0, k)),
    decreases k - j,
{
    if j < k {
        lemma_decimal_grows(s, j, k - 1);
        assert(s.subrange(0, k).drop_last() =~= s.subrange(0, k - 1));
    }
}

/// Fills `bits` up with don't-care characters at the front until it is
/// `cap` bytes long.
pub fn ext_bits(bits: &str, cap: usize) -> (r: String)
    requires
        bits.spec_bytes().len() <= cap,
    ensures
        r@ == padded(bits@, (cap - bits.spec_bytes().len()) as nat),
{
    let missing: usize = cap - bits.len();
    let mut out = String::new();
    let mut i: usize = 0;
    while i < missing
        invariant
            i <= missing,
            out@ == Seq::new(i as nat, |j: int| '?'),
        decreases missing - i,
    {
        proof {
            reveal_strlit("?");
        }
        out.append("?");
        i += 1;
        assert(out@ =~= Seq::new(i as nat, |j: int| '?'));
    }
    out.append(bits);
    out
}

/// Copies `s` with every `from` turned into the one character of `to`.
fn replace_char(s: &str, from: char, to: &str) -> (r: String)
    requires
        to@.len() == 1,
    ensures
        r@ == replaced(s@, from, to@[0]),
{
    let n = s.unicode_len();
    let mut out = String::new();
    let mut i: usize = 0;
    while i < n
        invariant
            i <= n,
            n == s@.len(),
            to@.len() == 1,
            out@ == replaced(s@.subrange(0, i as int), from, to@[0]),
        decreases n - i,
    {
        let c = s.get_char(i);
        if c == from {
            out.append(to);
        } else {
            out.append(s.substring_char(i, i + 1));
        }
        i += 1;
        assert(out@ =~= replaced(s@.subrange(0, i as int), from, to@[0]));
    }
    assert(s@.subrange(0, n as int) =~= s@);
    out
}

/// The code of the pattern `bits`, as text.
pub fn parse_code_value(bits: &str) -> (r: String)
    ensures
        r@ == code_text(bits@),
{
    proof {
        reveal_strlit("0");
    }
    replace_char(bits, '?', "0")
}

/// The mask of the pattern `bits`, as text.
pub fn parse_mask_value(bits: &str) -> (r: String)
    ensures
        r@ == mask_text(bits@),
{
    proof {
        reveal_strlit("1");
    }
    let ones = replace_char(bits, '0', "1");
    parse_code_value(ones.as_str())
}

/// Reads the text of a pattern and returns its bit characters, filled up
/// to the length that the text gives.
pub fn parse_raw_bits(lit: &str) -> (r: Result<String, BitsError>)
    ensures
        match r {
            Ok(bits) => raw_bits(lit@) == Ok::<Seq<char>, BitsError>(bits@),
            Err(e) => raw_bits(lit@) == Err::<Seq<char>, BitsError>(e),
        },
{
    let ghost s = lit@;
    let n = lit.unicode_len();
    let mut k: usize = 0;
    while k < n
        invariant
            k <= n,
            n == s.len(),
            s == lit@,
            forall|i: int| 0 <= i < k ==> is_digit(#[trigger] s[i]),
        ensures
            k < n ==> !is_digit(s[k as int]),
        decreases n - k,
    {
        let c = lit.get_char(k);
        if !(c >= '0' && c <= '9') {
            break ;
        }
        k += 1;
    }
    assert forall|j: int| splits_at(s, j) implies j == k by {
        if j < k {
            assert(is_digit(s[j]));
        } else if k < j {
            assert(is_digit(s[k as int]));
        }
    }
    if k == 0 || k >= n - 1 || lit.get_char(k) != 'b' {
        return Err(BitsError::Malformed);
    }
    let mut i: usize = k + 1;
    while i < n
        invariant
            k < i <= n,
            n == s.len(),
            s == lit@,
            forall|j: int| #[trigger] splits_at(s, j) ==> j == k,
            forall|j: int| k < j < i ==> is_bit(#[trigger] s[j]) || s[j] == '_',
        decreases n - i,
    {
        let c = lit.get_char(i);
        if !(c == '1' || c == '0' || c == '?' || c == '_') {
            assert(!(is_bit(s[i as int]) || s[i as int] == '_'));
            return Err(BitsError::Malformed);
        }
        i += 1;
    }
    assert(splits_at(s, k as int));
    let ghost digits = s.subrange(0, k as int);
    let ghost body = s.subrange(k + 1, n as int);
    let mut len: usize = 0;
    let mut j: usize = 0;
    while j < k
        invariant
            j <= k < n,
            n == s.len(),
            s == lit@,
            splits_at(s, k as int),
            forall|j: int| #[trigger] splits_at(s, j) ==> j == k,
            len == decimal(s.subrange(0, j as int)),
        decreases k - j,
    {
        let c = lit.get_char(j);
        assert(is_digit(s[j as int]));
        let d: usize = (c as u32 - '0' as u32) as usize;
        proof {
            assert(s.subrange(0, j + 1).drop_last() =~= s.subrange(0, j as int));
            lemma_decimal_grows(s, j + 1, k as int);
        }
        if len > (usize::MAX - d) / 10 {
            return Err(BitsError::LengthOverflow);
        }
        len = len * 10 + d;
        j += 1;
    }
    if len == 0 {
        return Err(BitsError::ZeroLength);
    }
    let mut bits = String::new();
    let mut count: usize = 0;
    let mut i: usize = k + 1;
    while i < n
        invariant
            k < i <= n,
            n == s.len(),
            s == lit@,
            splits_at(s, k as int),
            bits@ == stripped(s.subrange(k + 1, i as int)),
            count == bits@.len(),
            count <= i - (k + 1),
            forall|j: int| 0 <= j < bits@.len() ==> is_bit(#[trigger] bits@[j]),
        decreases n - i,
    {
        let c = lit.get_char(i);
        proof {
            assert(s.subrange(k + 1, i + 1).drop_last() =~= s.subrange(k + 1, i as int));
            assert(is_bit(s[i as int]) || s[i as int] == '_');
        }
        if c != '_' {
            bits.append(lit.substring_char(i, i + 1));
            count += 1;
            assert(bits@ =~= stripped(s.subrange(k + 1, i as int)).push(c));
        }
        i += 1;
    }
    if count == 0 || count > len {
        return Err(BitsError::TooManyBits(len));
    }
    proof {
        assert(vstd::utf8::is_ascii_chars(bits@));
        vstd::utf8::is_ascii_chars_encode_utf8(bits@);
    }
    if count < len {
        Ok(ext_bits(bits.as_str(), len))
    } else {
        assert(bits@ =~= padded(bits@, 0));
        Ok(bits)
    }
}

} // verus!
