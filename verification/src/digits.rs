//! The shared digit machinery of both identifier kinds: the weighted
//! modulo-11 check digit, digit/character conversions, and the structural
//! (lexicographic) ordering of digit sequences.

use vstd::prelude::*;

verus! {

/// Every element of the sequence is a decimal digit.
pub open spec fn digits_in_range(s: Seq<u8>) -> bool {
    forall|k: int| 0 <= k < s.len() ==> s[k] <= 9
}

/// Every element of the sequence equals the first one.
pub open spec fn all_same(s: Seq<u8>) -> bool {
    forall|k: int| 0 <= k < s.len() ==> #[trigger] s[k] == s[0]
}

/// Sum of `ds[k] * ws[k]` over the whole weight table `ws`; digits beyond
/// the table's length take no part in the sum.
pub open spec fn weighted_sum(ds: Seq<u8>, ws: Seq<u8>) -> int
    recommends
        ws.len() <= ds.len(),
    decreases ws.len(),
{
    if ws.len() == 0 {
        0
    } else {
        weighted_sum(ds, ws.drop_last()) + ds[ws.len() - 1] * ws[ws.len() - 1]
    }
}

/// The check digit derived from a weighted sum: the sum times 10, modulo 11;
/// a result of 10 or 11 becomes 0.
pub open spec fn check_digit_of(sum: int) -> int
    recommends
        sum >= 0,
{
    let r = (sum * 10) % 11;
    if r >= 10 {
        0
    } else {
        r
    }
}

/// The weighted sum reads only the first `ws.len()` digits.
pub proof fn lemma_weighted_sum_prefix(a: Seq<u8>, b: Seq<u8>, ws: Seq<u8>)
    requires
        ws.len() <= a.len(),
        ws.len() <= b.len(),
        forall|k: int| 0 <= k < ws.len() ==> a[k] == b[k],
    ensures
        weighted_sum(a, ws) == weighted_sum(b, ws),
    decreases ws.len(),
{
    if ws.len() > 0 {
        lemma_weighted_sum_prefix(a, b, ws.drop_last());
    }
}

/// The character standing for one decimal digit.
pub open spec fn digit_char(d: int) -> char {
    if d == 0 {
        '0'
    } else if d == 1 {
        '1'
    } else if d == 2 {
        '2'
    } else if d == 3 {
        '3'
    } else if d == 4 {
        '4'
    } else if d == 5 {
        '5'
    } else if d == 6 {
        '6'
    } else if d == 7 {
        '7'
    } else if d == 8 {
        '8'
    } else {
        '9'
    }
}

/// Whether the character is one of `'0'` through `'9'`.
pub open spec fn is_digit_char(c: char) -> bool {
    48 <= c as u32 && c as u32 <= 57
}

/// The decimal value of a digit character.
pub open spec fn digit_val(c: char) -> u8
    recommends
        is_digit_char(c),
{
    (c as u32 - 48) as u8
}

/// `digit_char` yields a digit character whose value is the digit itself.
pub proof fn lemma_digit_char(d: int)
    requires
        0 <= d <= 9,
    ensures
        is_digit_char(digit_char(d)),
        digit_val(digit_char(d)) == d,
        digit_char(d) as u32 == 48 + d,
{
}

/// The digit sequence rendered as characters, with no separators.
pub open spec fn plain_digit_chars(s: Seq<u8>) -> Seq<char> {
    Seq::new(s.len(), |k: int| digit_char(s[k] as int))
}

/// Computes one check digit: each digit is multiplied by the weight at the
/// same position, the products are summed, and the sum is reduced as
/// `check_digit_of` states. Used by both identifier kinds, which differ
/// only in their weight tables.
pub fn checksum_digit(digits: &[u8], weights: &[u8]) -> (d: u8)
    requires
        weights@.len() <= digits@.len(),
        weights@.len() <= 16,
        digits_in_range(digits@),
        forall|k: int| 0 <= k < weights@.len() ==> weights@[k] <= 11,
    ensures
        d <= 9,
        d == check_digit_of(weighted_sum(digits@, weights@)),
{
    let n = weights.len();
    let mut sum: u32 = 0;
    let mut k: usize = 0;
    while k < n
        invariant
            n == weights@.len(),
            k <= n,
            weights@.len() <= digits@.len(),
            weights@.len() <= 16,
            digits_in_range(digits@),
            forall|j: int| 0 <= j < weights@.len() ==> weights@[j] <= 11,
            sum == weighted_sum(digits@, weights@.take(k as int)),
            sum <= 99 * k,
        decreases n - k,
    {
        let dk = digits[k];
        let wk = weights[k];
        proof {
            assert(weights@.take(k + 1).drop_last() =~= weights@.take(k as int));
            assert(dk * wk <= 99) by (nonlinear_arith)
                requires
                    dk <= 9,
                    wk <= 11,
            ;
            assert(sum + 99 <= 99 * 16) by {
                assert(k <= 15);
            };
        }
        sum = sum + (dk as u32) * (wk as u32);
        k = k + 1;
    }
    proof {
        assert(weights@.take(n as int) =~= weights@);
    }
    let rem = (sum * 10) % 11;
    if rem >= 10 {
        0
    } else {
        rem as u8
    }
}

/// Digit-by-digit lexicographic comparison of two digit sequences; when one
/// sequence is a proper prefix of the other, the shorter one is smaller.
/// This is the ordering both identifier kinds compare by.
pub open spec fn lex_cmp(a: Seq<u8>, b: Seq<u8>) -> core::cmp::Ordering
    decreases a.len() + b.len(),
{
    if a.len() == 0 && b.len() == 0 {
        core::cmp::Ordering::Equal
    } else if a.len() == 0 {
        core::cmp::Ordering::Less
    } else if b.len() == 0 {
        core::cmp::Ordering::Greater
    } else if a[0] < b[0] {
        core::cmp::Ordering::Less
    } else if b[0] < a[0] {
        core::cmp::Ordering::Greater
    } else {
        lex_cmp(a.drop_first(), b.drop_first())
    }
}

/// Comparison is unchanged by dropping a common prefix.
pub proof fn lemma_lex_cmp_skip(a: Seq<u8>, b: Seq<u8>, k: int)
    requires
        0 <= k <= a.len(),
        k <= b.len(),
        forall|j: int| 0 <= j < k ==> a[j] == b[j],
    ensures
        lex_cmp(a, b) == lex_cmp(a.skip(k), b.skip(k)),
    decreases k,
{
    if k == 0 {
        assert(a.skip(0) =~= a);
        assert(b.skip(0) =~= b);
    } else {
        assert(a.drop_first().skip(k - 1) =~= a.skip(k));
        assert(b.drop_first().skip(k - 1) =~= b.skip(k));
        lemma_lex_cmp_skip(a.drop_first(), b.drop_first(), k - 1);
    }
}

/// A sequence compares equal to itself.
pub proof fn lemma_lex_cmp_self(a: Seq<u8>)
    ensures
        lex_cmp(a, a) == core::cmp::Ordering::Equal,
    decreases a.len(),
{
    if a.len() > 0 {
        lemma_lex_cmp_self(a.drop_first());
    }
}

/// The comparison answers `Equal` exactly for equal sequences.
pub proof fn lemma_lex_cmp_eq(a: Seq<u8>, b: Seq<u8>)
    ensures
        lex_cmp(a, b) == core::cmp::Ordering::Equal <==> a == b,
    decreases a.len() + b.len(),
{
    if a.len() > 0 && b.len() > 0 && a[0] == b[0] {
        lemma_lex_cmp_eq(a.drop_first(), b.drop_first());
        if a.drop_first() == b.drop_first() && a[0] == b[0] {
            assert forall|i: int| 1 <= i < a.len() implies a[i] == b[i] by {
                assert(a.drop_first()[i - 1] == b.drop_first()[i - 1]);
            };
            assert(a =~= b);
        }
        if a == b {
            assert(a.drop_first() =~= b.drop_first());
        }
    } else if a.len() == 0 && b.len() == 0 {
        assert(a =~= b);
    }
}

/// Swapping the arguments swaps `Less` and `Greater`.
pub proof fn lemma_lex_cmp_antisym(a: Seq<u8>, b: Seq<u8>)
    ensures
        lex_cmp(a, b) == core::cmp::Ordering::Less <==> lex_cmp(b, a)
            == core::cmp::Ordering::Greater,
    decreases a.len() + b.len(),
{
    if a.len() > 0 && b.len() > 0 && a[0] == b[0] {
        lemma_lex_cmp_antisym(a.drop_first(), b.drop_first());
    }
}

/// The strict part of the ordering is transitive.
pub proof fn lemma_lex_cmp_trans(a: Seq<u8>, b: Seq<u8>, c: Seq<u8>)
    requires
        lex_cmp(a, b) == core::cmp::Ordering::Less,
        lex_cmp(b, c) == core::cmp::Ordering::Less,
    ensures
        lex_cmp(a, c) == core::cmp::Ordering::Less,
    decreases a.len() + b.len() + c.len(),
{
    if a.len() > 0 && b.len() > 0 && c.len() > 0 && a[0] == b[0] && b[0] == c[0] {
        lemma_lex_cmp_trans(a.drop_first(), b.drop_first(), c.drop_first());
    }
}

/// The one-character string for a decimal digit.
pub fn digit_str(d: u8) -> (s: &'static str)
    requires
        d <= 9,
    ensures
        s@.len() == 1,
        s@[0] == digit_char(d as int),
{
    proof {
        reveal_strlit("0");
        reveal_strlit("1");
        reveal_strlit("2");
        reveal_strlit("3");
        reveal_strlit("4");
        reveal_strlit("5");
        reveal_strlit("6");
        reveal_strlit("7");
        reveal_strlit("8");
        reveal_strlit("9");
    }
    match d {
        0 => "0",
        1 => "1",
        2 => "2",
        3 => "3",
        4 => "4",
        5 => "5",
        6 => "6",
        7 => "7",
        8 => "8",
        _ => "9",
    }
}

} // verus!
