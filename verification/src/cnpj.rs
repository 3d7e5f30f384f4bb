//! The 14-digit entity identifier: parsing, validation, formatting, random
//! generation, and the derived branch sub-field.

use crate::digits::{
    all_same, check_digit_of, checksum_digit, digit_char, digit_str, digit_val, digits_in_range,
    is_digit_char, lemma_digit_char, lemma_lex_cmp_antisym, lemma_lex_cmp_eq, lemma_lex_cmp_self,
    lemma_lex_cmp_skip, lemma_lex_cmp_trans, lemma_weighted_sum_prefix, lex_cmp,
    plain_digit_chars, weighted_sum,
};
use crate::rng::{fresh_rng, random_digit};
use vstd::prelude::*;
use vstd::string::StringExecFns;
use vstd::string::StrSliceExecFns;

verus! {

/// An error returned when parsing a [`Cnpj`] number.
#[derive(Debug, PartialEq, Eq, Structural)]
#[non_exhaustive]
pub enum ParseCnpjError {
    Empty,
    InvalidCharacter(char, usize),
    InvalidNumber,
}

/// A valid CNPJ number: 14 decimal digits whose last two are the check
/// digits of the weighted modulo-11 procedure. Digits 8 through 11 encode
/// the entity's branch; `0001` names the headquarters. Parsing recognizes
/// numbers with or without separators (dot, minus, and slash).
#[derive(Clone, Copy, Debug, Eq, Hash)]
pub struct Cnpj {
    digits: [u8; 14],
}

/// The weight table of one checksum pass: the fixed two-phase sequence
/// `5, 4, 3, 2, 9, 8, 7, 6, 5, 4, 3, 2` over the twelve base digits; the
/// second pass starts one higher and also covers the first check digit.
pub open spec fn cnpj_weights(second: bool) -> Seq<u8> {
    if second {
        seq![6u8, 5u8, 4u8, 3u8, 2u8, 9u8, 8u8, 7u8, 6u8, 5u8, 4u8, 3u8, 2u8]
    } else {
        seq![5u8, 4u8, 3u8, 2u8, 9u8, 8u8, 7u8, 6u8, 5u8, 4u8, 3u8, 2u8]
    }
}

/// The check digit one pass computes over a digit sequence; the pass reads
/// only the digits its weight table covers.
pub open spec fn cnpj_check_digit(s: Seq<u8>, second: bool) -> int
    recommends
        s.len() >= cnpj_weights(second).len(),
{
    check_digit_of(weighted_sum(s, cnpj_weights(second)))
}

/// What every live [`Cnpj`] value satisfies: 14 decimal digits ending in
/// the two computed check digits.
pub open spec fn cnpj_valid(s: Seq<u8>) -> bool {
    &&& s.len() == 14
    &&& digits_in_range(s)
    &&& s[12] == cnpj_check_digit(s, false)
    &&& s[13] == cnpj_check_digit(s, true)
}

/// The branch sub-field: digits 8 through 11 read as a base-10 integer.
pub open spec fn cnpj_branch(s: Seq<u8>) -> int
    recommends
        s.len() == 14,
{
    s[8] * 1000 + s[9] * 100 + s[10] * 10 + s[11]
}

/// The canonical text of a CNPJ: `dd.ddd.ddd/dddd-dd`, separators always
/// at the same positions.
pub open spec fn cnpj_canonical(s: Seq<u8>) -> Seq<char>
    recommends
        s.len() == 14,
{
    seq![
        digit_char(s[0] as int),
        digit_char(s[1] as int),
        '.',
        digit_char(s[2] as int),
        digit_char(s[3] as int),
        digit_char(s[4] as int),
        '.',
        digit_char(s[5] as int),
        digit_char(s[6] as int),
        digit_char(s[7] as int),
        '/',
        digit_char(s[8] as int),
        digit_char(s[9] as int),
        digit_char(s[10] as int),
        digit_char(s[11] as int),
        '-',
        digit_char(s[12] as int),
        digit_char(s[13] as int),
    ]
}

/// One left-to-right step of the CNPJ text grammar, carried out to the end
/// of the input: digits are collected (at most 14), a dot is accepted only
/// at offsets 2 and 6, a slash only at offset 8 — or 10 once a dot was
/// seen — a minus only at offset 13 — or 15 with a dot — and any other
/// character is rejected where it stands. At the end, exactly 14 digits
/// must have been collected.
pub open spec fn cnpj_scan(s: Seq<char>, off: int, ds: Seq<u8>, has_dot: bool) -> Result<
    Seq<u8>,
    ParseCnpjError,
>
    recommends
        0 <= off <= s.len(),
    decreases s.len() - off,
{
    if off < 0 || off >= s.len() {
        if ds.len() == 14 {
            Ok(ds)
        } else {
            Err(ParseCnpjError::InvalidNumber)
        }
    } else {
        let c = s[off];
        if is_digit_char(c) {
            if ds.len() < 14 {
                cnpj_scan(s, off + 1, ds.push(digit_val(c)), has_dot)
            } else {
                Err(ParseCnpjError::InvalidNumber)
            }
        } else if c == '.' && (off == 2 || off == 6) {
            cnpj_scan(s, off + 1, ds, true)
        } else if c == '/' && ((has_dot && off == 10) || (!has_dot && off == 8)) {
            cnpj_scan(s, off + 1, ds, has_dot)
        } else if c == '-' && ((has_dot && off == 15) || (!has_dot && off == 13)) {
            cnpj_scan(s, off + 1, ds, has_dot)
        } else {
            Err(ParseCnpjError::InvalidCharacter(c, off as usize))
        }
    }
}

/// What parsing a text yields: the digit sequence of the value on success,
/// and otherwise exactly which error. Empty input is `Empty`; a character
/// the position-exact grammar refuses is `InvalidCharacter` with its
/// offset; a wrong digit count, an all-repeated-digit number and a check
/// digit mismatch are all `InvalidNumber`.
pub open spec fn cnpj_parse_spec(s: Seq<char>) -> Result<Seq<u8>, ParseCnpjError> {
    if s.len() == 0 {
        Err(ParseCnpjError::Empty)
    } else {
        match cnpj_scan(s, 0, Seq::empty(), false) {
            Ok(ds) => {
                if all_same(ds) {
                    Err(ParseCnpjError::InvalidNumber)
                } else if ds[12] == cnpj_check_digit(ds, false) && ds[13] == cnpj_check_digit(
                    ds,
                    true,
                ) {
                    Ok(ds)
                } else {
                    Err(ParseCnpjError::InvalidNumber)
                }
            },
            Err(e) => Err(e),
        }
    }
}

/// An 8-digit root is padded with the headquarters branch `0001`; a
/// 12-digit base is kept as it is.
pub open spec fn cnpj_base(sl: Seq<u8>) -> Seq<u8>
    recommends
        sl.len() == 8 || sl.len() == 12,
{
    if sl.len() == 8 {
        sl + seq![0u8, 0u8, 0u8, 1u8]
    } else {
        sl
    }
}

/// The twelve base digits completed with their two check digits.
pub open spec fn cnpj_complete(base: Seq<u8>) -> Seq<u8>
    recommends
        base.len() == 12,
{
    let with_first = base.push(cnpj_check_digit(base, false) as u8);
    with_first.push(cnpj_check_digit(with_first, true) as u8)
}

/// What [`Cnpj::from_slice`] yields for every input slice: an empty slice
/// is `Empty`; a length other than 8, 12 or 14 or an entry above 9 is
/// `InvalidNumber`; 14 digits are checked like parsed text (repeated
/// digits rejected, check digits verified); 12 digits — or an 8-digit root
/// padded with branch `0001` — are completed with freshly computed check
/// digits.
pub open spec fn cnpj_from_slice_spec(sl: Seq<u8>) -> Result<Seq<u8>, ParseCnpjError> {
    if sl.len() == 0 {
        Err(ParseCnpjError::Empty)
    } else if sl.len() != 8 && sl.len() != 12 && sl.len() != 14 {
        Err(ParseCnpjError::InvalidNumber)
    } else if !digits_in_range(sl) {
        Err(ParseCnpjError::InvalidNumber)
    } else if sl.len() == 14 {
        if all_same(sl) {
            Err(ParseCnpjError::InvalidNumber)
        } else if sl[12] == cnpj_check_digit(sl, false) && sl[13] == cnpj_check_digit(sl, true) {
            Ok(sl)
        } else {
            Err(ParseCnpjError::InvalidNumber)
        }
    } else {
        Ok(cnpj_complete(cnpj_base(sl)))
    }
}

impl View for Cnpj {
    type V = Seq<u8>;

    closed spec fn view(&self) -> Seq<u8> {
        self.digits@
    }
}

impl Cnpj {
    #[verifier::type_invariant]
    spec fn type_inv(self) -> bool {
        cnpj_valid(self.digits@)
    }

    /// The weight table of one checksum pass, as the literal two-phase
    /// sequence the procedure prescribes.
    fn weight_table(second: bool) -> (w: Vec<u8>)
        ensures
            w@ == cnpj_weights(second),
            w@.len() <= 16,
            forall|k: int| 0 <= k < w@.len() ==> w@[k] <= 11,
    {
        let mut w: Vec<u8> = Vec::new();
        if second {
            w.push(6);
        }
        w.push(5);
        w.push(4);
        w.push(3);
        w.push(2);
        w.push(9);
        w.push(8);
        w.push(7);
        w.push(6);
        w.push(5);
        w.push(4);
        w.push(3);
        w.push(2);
        proof {
            assert(w@ =~= cnpj_weights(second));
        }
        w
    }

    /// Writes the two check digits computed from the first twelve digits
    /// into positions 12 and 13.
    fn fill_check_digits(numbers: &mut [u8; 14])
        requires
            digits_in_range(old(numbers)@),
        ensures
            digits_in_range(final(numbers)@),
            final(numbers)@ == cnpj_complete(old(numbers)@.take(12)),
            cnpj_valid(final(numbers)@),
    {
        let ghost base = numbers@.take(12);
        let w0 = Self::weight_table(false);
        let d0 = checksum_digit(numbers.as_slice(), w0.as_slice());
        proof {
            lemma_weighted_sum_prefix(numbers@, base, cnpj_weights(false));
        }
        numbers[12] = d0;
        proof {
            assert(numbers@.take(12) =~= base);
        }
        let w1 = Self::weight_table(true);
        let d1 = checksum_digit(numbers.as_slice(), w1.as_slice());
        proof {
            lemma_weighted_sum_prefix(numbers@, base.push(d0), cnpj_weights(true));
        }
        numbers[13] = d1;
        proof {
            let s = numbers@;
            assert(s.take(12) =~= base);
            assert(base.push(d0) =~= cnpj_complete(base).take(13));
            lemma_weighted_sum_prefix(s, base.push(d0), cnpj_weights(true));
            lemma_weighted_sum_prefix(s, base, cnpj_weights(false));
            assert(s =~= cnpj_complete(base));
        }
    }

    /// Parses a byte slice of digit values as a CNPJ: 14 digits are
    /// validated; 12 base digits — or an 8-digit root, padded with the
    /// headquarters branch `0001` — get their check digits computed.
    pub fn from_slice(slice: &[u8]) -> (r: Result<Self, ParseCnpjError>)
        ensures
            match r {
                Ok(v) => cnpj_from_slice_spec(slice@) == Ok::<Seq<u8>, ParseCnpjError>(v@)
                    && cnpj_valid(v@),
                Err(e) => cnpj_from_slice_spec(slice@) == Err::<Seq<u8>, ParseCnpjError>(e),
            },
    {
        let len = slice.len();
        if len == 0 {
            return Err(ParseCnpjError::Empty);
        }
        if len != 8 && len != 12 && len != 14 {
            return Err(ParseCnpjError::InvalidNumber);
        }
        let mut numbers: [u8; 14] = [0; 14];
        let mut k: usize = 0;
        while k < len
            invariant
                len == slice@.len(),
                len == 8 || len == 12 || len == 14,
                k <= len,
                numbers@.len() == 14,
                forall|j: int| 0 <= j < k ==> #[trigger] slice@[j] <= 9,
                forall|j: int| 0 <= j < k ==> numbers@[j] == slice@[j],
                forall|j: int| k <= j < 14 ==> numbers@[j] == 0,
            decreases len - k,
        {
            if slice[k] > 9 {
                return Err(ParseCnpjError::InvalidNumber);
            }
            numbers[k] = slice[k];
            k = k + 1;
        }
        proof {
            assert(digits_in_range(slice@));
            assert(digits_in_range(numbers@));
        }
        if len == 14 {
            proof {
                assert(numbers@ =~= slice@);
            }
            if Self::repeated(&numbers) {
                return Err(ParseCnpjError::InvalidNumber);
            }
            let w0 = Self::weight_table(false);
            let d0 = checksum_digit(numbers.as_slice(), w0.as_slice());
            if d0 != numbers[12] {
                return Err(ParseCnpjError::InvalidNumber);
            }
            let w1 = Self::weight_table(true);
            let d1 = checksum_digit(numbers.as_slice(), w1.as_slice());
            if d1 != numbers[13] {
                return Err(ParseCnpjError::InvalidNumber);
            }
            Ok(Cnpj { digits: numbers })
        } else {
            if len == 8 {
                numbers[11] = 1;  // `0001` (the headquarters branch)
            }
            proof {
                assert(numbers@.take(12) =~= cnpj_base(slice@));
            }
            Self::fill_check_digits(&mut numbers);
            Ok(Cnpj { digits: numbers })
        }
    }

    /// Parses a text as a CNPJ. The canonical punctuation
    /// (`12.345.678/0001-95`), the plain 14-digit run and the
    /// slash-delimited legacy form are accepted; every other character
    /// placement is rejected at its exact offset.
    pub fn parse(s: &str) -> (r: Result<Self, ParseCnpjError>)
        ensures
            match r {
                Ok(v) => cnpj_parse_spec(s@) == Ok::<Seq<u8>, ParseCnpjError>(v@) && cnpj_valid(
                    v@,
                ),
                Err(e) => cnpj_parse_spec(s@) == Err::<Seq<u8>, ParseCnpjError>(e),
            },
    {
        let n = s.unicode_len();
        if n == 0 {
            return Err(ParseCnpjError::Empty);
        }
        let mut numbers: [u8; 14] = [0; 14];
        let mut i: usize = 0;
        let mut has_dot = false;
        let mut off: usize = 0;
        proof {
            assert(numbers@.take(0) =~= Seq::<u8>::empty());
        }
        while off < n
            invariant
                n == s@.len(),
                off <= n,
                i <= 14,
                numbers@.len() == 14,
                digits_in_range(numbers@),
                cnpj_scan(s@, 0, Seq::empty(), false) == cnpj_scan(
                    s@,
                    off as int,
                    numbers@.take(i as int),
                    has_dot,
                ),
            decreases n - off,
        {
            let c = s.get_char(off);
            let cu = c as u32;
            let ghost taken = numbers@.take(i as int);
            if 48 <= cu && cu <= 57 {
                if i < 14 {
                    numbers[i] = (cu - 48) as u8;
                    i = i + 1;
                    proof {
                        assert(taken.push(digit_val(c)) =~= numbers@.take(i as int));
                    }
                } else {
                    return Err(ParseCnpjError::InvalidNumber);
                }
            } else if c == '.' && (off == 2 || off == 6) {
                has_dot = true;
            } else if c == '/' && ((has_dot && off == 10) || (!has_dot && off == 8)) {
                // a separator in a legal position carries no digit
            } else if c == '-' && ((has_dot && off == 15) || (!has_dot && off == 13)) {
                // a separator in a legal position carries no digit
            } else {
                return Err(ParseCnpjError::InvalidCharacter(c, off));
            }
            off = off + 1;
        }
        if i != 14 {
            return Err(ParseCnpjError::InvalidNumber);
        }
        proof {
            assert(numbers@.take(14) =~= numbers@);
        }
        if Self::repeated(&numbers) {
            return Err(ParseCnpjError::InvalidNumber);
        }
        let w0 = Self::weight_table(false);
        let d0 = checksum_digit(numbers.as_slice(), w0.as_slice());
        if d0 != numbers[12] {
            return Err(ParseCnpjError::InvalidNumber);
        }
        let w1 = Self::weight_table(true);
        let d1 = checksum_digit(numbers.as_slice(), w1.as_slice());
        if d1 != numbers[13] {
            return Err(ParseCnpjError::InvalidNumber);
        }
        Ok(Cnpj { digits: numbers })
    }

    /// Whether all 14 digits are the same.
    fn repeated(numbers: &[u8; 14]) -> (r: bool)
        ensures
            r == all_same(numbers@),
    {
        let mut k: usize = 1;
        while k < 14
            invariant
                1 <= k <= 14,
                forall|j: int| 0 <= j < k ==> #[trigger] numbers@[j] == numbers@[0],
            decreases 14 - k,
        {
            if numbers[k] != numbers[0] {
                return false;
            }
            k = k + 1;
        }
        true
    }

    /// Returns a byte slice of the numbers.
    pub fn as_bytes(&self) -> (r: &[u8; 14])
        ensures
            r@ == self@,
    {
        &self.digits
    }

    /// Returns the entity branch: digits 8 through 11 read as a base-10
    /// integer.
    pub fn branch(&self) -> (r: u16)
        ensures
            r == cnpj_branch(self@),
    {
        proof {
            use_type_invariant(self);
        }
        (self.digits[8] as u16) * 1000 + (self.digits[9] as u16) * 100 + (self.digits[10] as u16)
            * 10 + (self.digits[11] as u16)
    }

    /// Renders the number in its one canonical punctuated form,
    /// `dd.ddd.ddd/dddd-dd`.
    pub fn to_canonical_string(&self) -> (r: String)
        ensures
            r@ == cnpj_canonical(self@),
    {
        proof {
            use_type_invariant(self);
            reveal_strlit(".");
            reveal_strlit("/");
            reveal_strlit("-");
        }
        let mut r = String::new();
        r.append(digit_str(self.digits[0]));
        r.append(digit_str(self.digits[1]));
        r.append(".");
        r.append(digit_str(self.digits[2]));
        r.append(digit_str(self.digits[3]));
        r.append(digit_str(self.digits[4]));
        r.append(".");
        r.append(digit_str(self.digits[5]));
        r.append(digit_str(self.digits[6]));
        r.append(digit_str(self.digits[7]));
        r.append("/");
        r.append(digit_str(self.digits[8]));
        r.append(digit_str(self.digits[9]));
        r.append(digit_str(self.digits[10]));
        r.append(digit_str(self.digits[11]));
        r.append("-");
        r.append(digit_str(self.digits[12]));
        r.append(digit_str(self.digits[13]));
        proof {
            assert(r@ =~= cnpj_canonical(self@));
        }
        r
    }

    /// Generates a random number from the thread-local generator: eight
    /// uniformly drawn root digits, the headquarters branch `0001`, and the
    /// two computed check digits.
    pub fn generate() -> (r: Self)
        ensures
            cnpj_valid(r@),
            cnpj_branch(r@) == 1,
    {
        let mut rng = fresh_rng();
        let mut numbers: [u8; 14] = [0; 14];
        let mut k: usize = 0;
        while k < 8
            invariant
                k <= 8,
                numbers@.len() == 14,
                digits_in_range(numbers@),
                forall|j: int| 8 <= j < 14 ==> numbers@[j] == 0,
            decreases 8 - k,
        {
            let d = random_digit(&mut rng);
            numbers[k] = d;
            k = k + 1;
        }
        numbers[11] = 1;  // `0001` (the headquarters branch)
        Self::fill_check_digits(&mut numbers);
        Cnpj { digits: numbers }
    }
}

impl PartialEq for Cnpj {
    /// Digit-by-digit equality.
    fn eq(&self, other: &Self) -> (r: bool) {
        let mut k: usize = 0;
        while k < 14
            invariant
                k <= 14,
                forall|j: int| 0 <= j < k ==> self.digits@[j] == other.digits@[j],
            decreases 14 - k,
        {
            if self.digits[k] != other.digits[k] {
                return false;
            }
            k = k + 1;
        }
        proof {
            assert(self.digits@ =~= other.digits@);
        }
        true
    }
}

impl vstd::std_specs::cmp::PartialEqSpecImpl for Cnpj {
    open spec fn obeys_eq_spec() -> bool {
        true
    }

    open spec fn eq_spec(&self, other: &Self) -> bool {
        self@ == other@
    }
}

impl PartialOrd for Cnpj {
    /// Lexicographic comparison of the digit arrays.
    fn partial_cmp(&self, other: &Self) -> (r: Option<core::cmp::Ordering>) {
        let mut k: usize = 0;
        while k < 14
            invariant
                k <= 14,
                forall|j: int| 0 <= j < k ==> self.digits@[j] == other.digits@[j],
            decreases 14 - k,
        {
            proof {
                lemma_lex_cmp_skip(self.digits@, other.digits@, k as int);
            }
            if self.digits[k] < other.digits[k] {
                return Some(core::cmp::Ordering::Less);
            }
            if other.digits[k] < self.digits[k] {
                return Some(core::cmp::Ordering::Greater);
            }
            k = k + 1;
        }
        proof {
            lemma_lex_cmp_skip(self.digits@, other.digits@, 14);
        }
        Some(core::cmp::Ordering::Equal)
    }
}

impl vstd::std_specs::cmp::PartialOrdSpecImpl for Cnpj {
    open spec fn obeys_partial_cmp_spec() -> bool {
        true
    }

    open spec fn partial_cmp_spec(&self, other: &Self) -> Option<core::cmp::Ordering> {
        Some(lex_cmp(self@, other@))
    }
}

/// Scanning a run of `m` digit characters, laid down at offsets `off..`
/// of the text and standing for digits `k..` of the value, collects
/// exactly those digits.
proof fn lemma_scan_run(c: Seq<char>, s: Seq<u8>, off: int, k: int, m: int, dot: bool)
    requires
        0 <= off,
        0 <= m,
        off + m <= c.len(),
        0 <= k,
        k + m <= 14,
        k + m <= s.len(),
        digits_in_range(s),
        forall|j: int| 0 <= j < m ==> #[trigger] c[off + j] == digit_char(s[k + j] as int),
    ensures
        cnpj_scan(c, off, s.take(k), dot) == cnpj_scan(c, off + m, s.take(k + m), dot),
    decreases m,
{
    if m > 0 {
        lemma_digit_char(s[k] as int);
        assert(c[off + 0] == digit_char(s[k + 0] as int));
        assert(s.take(k).push(digit_val(c[off])) =~= s.take(k + 1));
        assert(cnpj_scan(c, off, s.take(k), dot) == cnpj_scan(c, off + 1, s.take(k + 1), dot));
        assert forall|j: int| 0 <= j < m - 1 implies #[trigger] c[(off + 1) + j] == digit_char(
            s[(k + 1) + j] as int,
        ) by {
            assert(c[off + (j + 1)] == digit_char(s[k + (j + 1)] as int));
        };
        lemma_scan_run(c, s, off + 1, k + 1, m - 1, dot);
    }
}

/// Scanning the canonical text of any 14-digit sequence collects exactly
/// that sequence.
proof fn lemma_scan_canonical(s: Seq<u8>)
    requires
        s.len() == 14,
        digits_in_range(s),
    ensures
        cnpj_scan(cnpj_canonical(s), 0, Seq::empty(), false) == Ok::<Seq<u8>, ParseCnpjError>(s),
{
    let c = cnpj_canonical(s);
    assert(Seq::<u8>::empty() =~= s.take(0));
    lemma_scan_run(c, s, 0, 0, 2, false);
    assert(c[2] == '.' && !is_digit_char('.'));
    assert(cnpj_scan(c, 2, s.take(2), false) == cnpj_scan(c, 3, s.take(2), true));
    lemma_scan_run(c, s, 3, 2, 3, true);
    assert(c[6] == '.');
    assert(cnpj_scan(c, 6, s.take(5), true) == cnpj_scan(c, 7, s.take(5), true));
    lemma_scan_run(c, s, 7, 5, 3, true);
    assert(c[10] == '/' && !is_digit_char('/'));
    assert(cnpj_scan(c, 10, s.take(8), true) == cnpj_scan(c, 11, s.take(8), true));
    lemma_scan_run(c, s, 11, 8, 4, true);
    assert(c[15] == '-' && !is_digit_char('-'));
    assert(cnpj_scan(c, 15, s.take(12), true) == cnpj_scan(c, 16, s.take(12), true));
    lemma_scan_run(c, s, 16, 12, 2, true);
    assert(s.take(14) =~= s);
    assert(cnpj_scan(c, 18, s.take(14), true) == Ok::<Seq<u8>, ParseCnpjError>(s));
}

/// Scanning the plain 14-digit text of any digit sequence collects exactly
/// that sequence.
proof fn lemma_scan_plain(s: Seq<u8>)
    requires
        s.len() == 14,
        digits_in_range(s),
    ensures
        cnpj_scan(plain_digit_chars(s), 0, Seq::empty(), false) == Ok::<Seq<u8>, ParseCnpjError>(
            s,
        ),
{
    let c = plain_digit_chars(s);
    assert(Seq::<u8>::empty() =~= s.take(0));
    lemma_scan_run(c, s, 0, 0, 14, false);
    assert(s.take(14) =~= s);
    assert(cnpj_scan(c, 14, s.take(14), false) == Ok::<Seq<u8>, ParseCnpjError>(s));
}

/// Round trip: the canonical text of every valid, not all-repeated value
/// parses back to exactly that value.
pub proof fn lemma_canonical_round_trip(s: Seq<u8>)
    requires
        cnpj_valid(s),
        !all_same(s),
    ensures
        cnpj_parse_spec(cnpj_canonical(s)) == Ok::<Seq<u8>, ParseCnpjError>(s),
{
    lemma_scan_canonical(s);
}

/// Unformatted acceptance: the plain 14-digit run of every valid, not
/// all-repeated value parses to exactly that value.
pub proof fn lemma_plain_round_trip(s: Seq<u8>)
    requires
        cnpj_valid(s),
        !all_same(s),
    ensures
        cnpj_parse_spec(plain_digit_chars(s)) == Ok::<Seq<u8>, ParseCnpjError>(s),
{
    lemma_scan_plain(s);
}

/// Repeated-digit rejection: the 14-fold repetition of any one digit is
/// rejected as an invalid number, whatever its check digits would say.
pub proof fn lemma_repeated_rejected(s: Seq<u8>)
    requires
        s.len() == 14,
        digits_in_range(s),
        all_same(s),
    ensures
        cnpj_parse_spec(plain_digit_chars(s)) == Err::<Seq<u8>, ParseCnpjError>(
            ParseCnpjError::InvalidNumber,
        ),
{
    lemma_scan_plain(s);
}

/// Checksum sensitivity: changing only the last digit of a valid canonical
/// text makes parsing fail with `InvalidNumber`.
pub proof fn lemma_check_digit_mutation(s: Seq<u8>, d: u8)
    requires
        cnpj_valid(s),
        d <= 9,
        d != s[13],
    ensures
        cnpj_parse_spec(cnpj_canonical(s).update(17, digit_char(d as int))) == Err::<
            Seq<u8>,
            ParseCnpjError,
        >(ParseCnpjError::InvalidNumber),
{
    let s2 = s.update(13, d);
    assert(digits_in_range(s2));
    assert(cnpj_canonical(s).update(17, digit_char(d as int)) =~= cnpj_canonical(s2));
    lemma_scan_canonical(s2);
    lemma_weighted_sum_prefix(s2, s, cnpj_weights(true));
    assert(s2[13] != cnpj_check_digit(s2, true));
}

/// Reconstruction: the first twelve digits of a valid value, handed to the
/// slice constructor, are completed back to exactly that value.
pub proof fn lemma_reconstruct(s: Seq<u8>)
    requires
        cnpj_valid(s),
    ensures
        cnpj_from_slice_spec(s.take(12)) == Ok::<Seq<u8>, ParseCnpjError>(s),
{
    let b = s.take(12);
    assert(digits_in_range(b));
    lemma_weighted_sum_prefix(b, s, cnpj_weights(false));
    assert(b.push(cnpj_check_digit(b, false) as u8) =~= s.take(13));
    lemma_weighted_sum_prefix(s.take(13), s, cnpj_weights(true));
    assert(cnpj_complete(b) =~= s);
}

/// Reconstruction from the root: the first eight digits of a valid value
/// whose branch is the headquarters `0001` are completed back to exactly
/// that value.
pub proof fn lemma_reconstruct_root(s: Seq<u8>)
    requires
        cnpj_valid(s),
        s[8] == 0,
        s[9] == 0,
        s[10] == 0,
        s[11] == 1,
    ensures
        cnpj_from_slice_spec(s.take(8)) == Ok::<Seq<u8>, ParseCnpjError>(s),
{
    let r = s.take(8);
    assert(digits_in_range(r));
    assert(cnpj_base(r) =~= s.take(12));
    lemma_reconstruct(s);
}

/// Format stability: the canonical text is always 18 characters with the
/// separators at offsets 2, 6, 10 and 15, whatever the digits are.
pub proof fn lemma_canonical_shape(s: Seq<u8>)
    requires
        s.len() == 14,
    ensures
        cnpj_canonical(s).len() == 18,
        cnpj_canonical(s)[2] == '.',
        cnpj_canonical(s)[6] == '.',
        cnpj_canonical(s)[10] == '/',
        cnpj_canonical(s)[15] == '-',
        forall|k: int|
            0 <= k < 2 ==> #[trigger] cnpj_canonical(s)[k] == digit_char(s[k] as int),
        forall|k: int|
            3 <= k < 6 ==> #[trigger] cnpj_canonical(s)[k] == digit_char(s[k - 1] as int),
        forall|k: int|
            7 <= k < 10 ==> #[trigger] cnpj_canonical(s)[k] == digit_char(s[k - 2] as int),
        forall|k: int|
            11 <= k < 15 ==> #[trigger] cnpj_canonical(s)[k] == digit_char(s[k - 3] as int),
        forall|k: int|
            16 <= k < 18 ==> #[trigger] cnpj_canonical(s)[k] == digit_char(s[k - 4] as int),
{
}

/// The ordering [`Cnpj`] values compare by is a strict total order:
/// `Equal` holds exactly for equal digit sequences, `Less` and `Greater`
/// mirror each other, and `Less` is transitive.
pub proof fn lemma_order_laws(a: Cnpj, b: Cnpj, c: Cnpj)
    ensures
        lex_cmp(a@, a@) == core::cmp::Ordering::Equal,
        lex_cmp(a@, b@) == core::cmp::Ordering::Equal <==> a@ == b@,
        lex_cmp(a@, b@) == core::cmp::Ordering::Less <==> lex_cmp(b@, a@)
            == core::cmp::Ordering::Greater,
        lex_cmp(a@, b@) == core::cmp::Ordering::Less && lex_cmp(b@, c@)
            == core::cmp::Ordering::Less ==> lex_cmp(a@, c@) == core::cmp::Ordering::Less,
{
    lemma_lex_cmp_self(a@);
    lemma_lex_cmp_eq(a@, b@);
    lemma_lex_cmp_antisym(a@, b@);
    if lex_cmp(a@, b@) == core::cmp::Ordering::Less && lex_cmp(b@, c@)
        == core::cmp::Ordering::Less {
        lemma_lex_cmp_trans(a@, b@, c@);
    }
}

impl core::str::FromStr for Cnpj {
    type Err = ParseCnpjError;

    /// Same as [`Cnpj::parse`].
    fn from_str(s: &str) -> Result<Self, ParseCnpjError> {
        Cnpj::parse(s)
    }
}

} // verus!
