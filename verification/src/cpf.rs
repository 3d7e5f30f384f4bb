//! The 11-digit individual identifier: parsing, validation, formatting and
//! random generation.

use crate::digits::{
    all_same, check_digit_of, checksum_digit, digit_char, digit_str, digit_val, digits_in_range,
    is_digit_char, lemma_digit_char, lemma_lex_cmp_antisym, lemma_lex_cmp_eq, lemma_lex_cmp_self,
    lemma_lex_cmp_skip, lemma_lex_cmp_trans, lemma_weighted_sum_prefix, lex_cmp,
    plain_digit_chars, weighted_sum,
};
use crate::rng::{fresh_rng, random_digit};
use vstd::prelude::*;
use vstd::string::StringExecFns;
use vstd::string::StrSliceExecFns;

verus! {

/// An error returned when parsing a [`Cpf`] number.
#[derive(Debug, PartialEq, Eq, Structural)]
#[non_exhaustive]
pub enum ParseCpfError {
    Empty,
    InvalidCharacter(char, usize),
    InvalidNumber,
}

/// A valid CPF number: 11 decimal digits whose last two are the check
/// digits of the weighted modulo-11 procedure. Parsing recognizes numbers
/// with or without separators (dot, minus, and slash).
#[derive(Clone, Copy, Debug, Eq, Hash)]
pub struct Cpf {
    digits: [u8; 11],
}

/// The weight table of one checksum pass. The first pass weighs the nine
/// base digits `10, 9, ..., 2`; the second also weighs the first check
/// digit, starting one higher.
pub open spec fn cpf_weights(second: bool) -> Seq<u8> {
    if second {
        seq![11u8, 10u8, 9u8, 8u8, 7u8, 6u8, 5u8, 4u8, 3u8, 2u8]
    } else {
        seq![10u8, 9u8, 8u8, 7u8, 6u8, 5u8, 4u8, 3u8, 2u8]
    }
}

/// The check digit one pass computes over a digit sequence; the pass reads
/// only the digits its weight table covers.
pub open spec fn cpf_check_digit(s: Seq<u8>, second: bool) -> int
    recommends
        s.len() >= cpf_weights(second).len(),
{
    check_digit_of(weighted_sum(s, cpf_weights(second)))
}

/// What every live [`Cpf`] value satisfies: 11 decimal digits ending in the
/// two computed check digits.
pub open spec fn cpf_valid(s: Seq<u8>) -> bool {
    &&& s.len() == 11
    &&& digits_in_range(s)
    &&& s[9] == cpf_check_digit(s, false)
    &&& s[10] == cpf_check_digit(s, true)
}

/// The canonical text of a CPF: `ddd.ddd.ddd-dd`, separators always at the
/// same positions.
pub open spec fn cpf_canonical(s: Seq<u8>) -> Seq<char>
    recommends
        s.len() == 11,
{
    seq![
        digit_char(s[0] as int),
        digit_char(s[1] as int),
        digit_char(s[2] as int),
        '.',
        digit_char(s[3] as int),
        digit_char(s[4] as int),
        digit_char(s[5] as int),
        '.',
        digit_char(s[6] as int),
        digit_char(s[7] as int),
        digit_char(s[8] as int),
        '-',
        digit_char(s[9] as int),
        digit_char(s[10] as int),
    ]
}

/// One left-to-right step of the CPF text grammar, carried out to the end
/// of the input: digits are collected (at most 11), a dot is accepted only
/// at offsets 3 and 7, a minus or slash only at offset 9 — or 11 once a dot
/// was seen — and any other character is rejected where it stands. At the
/// end, exactly 11 digits must have been collected.
pub open spec fn cpf_scan(s: Seq<char>, off: int, ds: Seq<u8>, has_dot: bool) -> Result<
    Seq<u8>,
    ParseCpfError,
>
    recommends
        0 <= off <= s.len(),
    decreases s.len() - off,
{
    if off < 0 || off >= s.len() {
        if ds.len() == 11 {
            Ok(ds)
        } else {
            Err(ParseCpfError::InvalidNumber)
        }
    } else {
        let c = s[off];
        if is_digit_char(c) {
            if ds.len() < 11 {
                cpf_scan(s, off + 1, ds.push(digit_val(c)), has_dot)
            } else {
                Err(ParseCpfError::InvalidNumber)
            }
        } else if c == '.' && (off == 3 || off == 7) {
            cpf_scan(s, off + 1, ds, true)
        } else if (c == '-' || c == '/') && ((has_dot && off == 11) || (!has_dot && off == 9)) {
            cpf_scan(s, off + 1, ds, has_dot)
        } else {
            Err(ParseCpfError::InvalidCharacter(c, off as usize))
        }
    }
}

/// What parsing a text yields: the digit sequence of the value on success,
/// and otherwise exactly which error. Empty input is `Empty`; a character
/// the position-exact grammar refuses is `InvalidCharacter` with its
/// offset; a wrong digit count, an all-repeated-digit number and a check
/// digit mismatch are all `InvalidNumber`.
pub open spec fn cpf_parse_spec(s: Seq<char>) -> Result<Seq<u8>, ParseCpfError> {
    if s.len() == 0 {
        Err(ParseCpfError::Empty)
    } else {
        match cpf_scan(s, 0, Seq::empty(), false) {
            Ok(ds) => {
                if all_same(ds) {
                    Err(ParseCpfError::InvalidNumber)
                } else if ds[9] == cpf_check_digit(ds, false) && ds[10] == cpf_check_digit(
                    ds,
                    true,
                ) {
                    Ok(ds)
                } else {
                    Err(ParseCpfError::InvalidNumber)
                }
            },
            Err(e) => Err(e),
        }
    }
}

/// The nine base digits completed with their two check digits.
pub open spec fn cpf_complete(base: Seq<u8>) -> Seq<u8>
    recommends
        base.len() == 9,
{
    let with_first = base.push(cpf_check_digit(base, false) as u8);
    with_first.push(cpf_check_digit(with_first, true) as u8)
}

/// What [`Cpf::from_slice`] yields for every input slice: an empty slice is
/// `Empty`; a length other than 9 or 11 or an entry above 9 is
/// `InvalidNumber`; 11 digits are checked like parsed text (repeated
/// digits rejected, check digits verified); 9 digits are completed with
/// freshly computed check digits.
pub open spec fn cpf_from_slice_spec(sl: Seq<u8>) -> Result<Seq<u8>, ParseCpfError> {
    if sl.len() == 0 {
        Err(ParseCpfError::Empty)
    } else if sl.len() != 9 && sl.len() != 11 {
        Err(ParseCpfError::InvalidNumber)
    } else if !digits_in_range(sl) {
        Err(ParseCpfError::InvalidNumber)
    } else if sl.len() == 11 {
        if all_same(sl) {
            Err(ParseCpfError::InvalidNumber)
        } else if sl[9] == cpf_check_digit(sl, false) && sl[10] == cpf_check_digit(sl, true) {
            Ok(sl)
        } else {
            Err(ParseCpfError::InvalidNumber)
        }
    } else {
        Ok(cpf_complete(sl))
    }
}

impl View for Cpf {
    type V = Seq<u8>;

    closed spec fn view(&self) -> Seq<u8> {
        self.digits@
    }
}

impl Cpf {
    #[verifier::type_invariant]
    spec fn type_inv(self) -> bool {
        cpf_valid(self.digits@)
    }

    /// The weight table of one checksum pass, as the literal descending
    /// sequence the procedure prescribes.
    fn weight_table(second: bool) -> (w: Vec<u8>)
        ensures
            w@ == cpf_weights(second),
            w@.len() <= 16,
            forall|k: int| 0 <= k < w@.len() ==> w@[k] <= 11,
    {
        let mut w: Vec<u8> = Vec::new();
        if second {
            w.push(11);
        }
        w.push(10);
        w.push(9);
        w.push(8);
        w.push(7);
        w.push(6);
        w.push(5);
        w.push(4);
        w.push(3);
        w.push(2);
        proof {
            assert(w@ =~= cpf_weights(second));
        }
        w
    }

    /// Writes the two check digits computed from the first nine digits into
    /// positions 9 and 10.
    fn fill_check_digits(numbers: &mut [u8; 11])
        requires
            digits_in_range(old(numbers)@),
        ensures
            digits_in_range(final(numbers)@),
            final(numbers)@ == cpf_complete(old(numbers)@.take(9)),
            cpf_valid(final(numbers)@),
    {
        let ghost base = numbers@.take(9);
        let w0 = Self::weight_table(false);
        let d0 = checksum_digit(numbers.as_slice(), w0.as_slice());
        proof {
            lemma_weighted_sum_prefix(numbers@, base, cpf_weights(false));
        }
        numbers[9] = d0;
        proof {
            lemma_weighted_sum_prefix(numbers@, base, cpf_weights(false));
            assert(numbers@.take(9) =~= base);
        }
        let w1 = Self::weight_table(true);
        let d1 = checksum_digit(numbers.as_slice(), w1.as_slice());
        proof {
            lemma_weighted_sum_prefix(numbers@, base.push(d0), cpf_weights(true));
        }
        numbers[10] = d1;
        proof {
            let s = numbers@;
            assert(s.take(9) =~= base);
            assert(base.push(d0) =~= cpf_complete(base).take(10));
            lemma_weighted_sum_prefix(s, base.push(d0), cpf_weights(true));
            lemma_weighted_sum_prefix(s, base, cpf_weights(false));
            assert(s =~= cpf_complete(base));
        }
    }

    /// Parses a byte slice of digit values as a CPF: 11 digits are
    /// validated, 9 base digits get their check digits computed.
    pub fn from_slice(slice: &[u8]) -> (r: Result<Self, ParseCpfError>)
        ensures
            match r {
                Ok(v) => cpf_from_slice_spec(slice@) == Ok::<Seq<u8>, ParseCpfError>(v@)
                    && cpf_valid(v@),
                Err(e) => cpf_from_slice_spec(slice@) == Err::<Seq<u8>, ParseCpfError>(e),
            },
    {
        let len = slice.len();
        if len == 0 {
            return Err(ParseCpfError::Empty);
        }
        if len != 9 && len != 11 {
            return Err(ParseCpfError::InvalidNumber);
        }
        let mut numbers: [u8; 11] = [0; 11];
        let mut k: usize = 0;
        while k < len
            invariant
                len == slice@.len(),
                len == 9 || len == 11,
                k <= len,
                numbers@.len() == 11,
                forall|j: int| 0 <= j < k ==> #[trigger] slice@[j] <= 9,
                forall|j: int| 0 <= j < k ==> numbers@[j] == slice@[j],
                forall|j: int| k <= j < 11 ==> numbers@[j] == 0,
            decreases len - k,
        {
            if slice[k] > 9 {
                return Err(ParseCpfError::InvalidNumber);
            }
            numbers[k] = slice[k];
            k = k + 1;
        }
        proof {
            assert(digits_in_range(slice@));
            assert(digits_in_range(numbers@));
        }
        if len == 11 {
            proof {
                assert(numbers@ =~= slice@);
            }
            if Self::repeated(&numbers) {
                return Err(ParseCpfError::InvalidNumber);
            }
            let w0 = Self::weight_table(false);
            let d0 = checksum_digit(numbers.as_slice(), w0.as_slice());
            if d0 != numbers[9] {
                return Err(ParseCpfError::InvalidNumber);
            }
            let w1 = Self::weight_table(true);
            let d1 = checksum_digit(numbers.as_slice(), w1.as_slice());
            if d1 != numbers[10] {
                return Err(ParseCpfError::InvalidNumber);
            }
            Ok(Cpf { digits: numbers })
        } else {
            proof {
                assert(numbers@.take(9) =~= slice@);
            }
            Self::fill_check_digits(&mut numbers);
            Ok(Cpf { digits: numbers })
        }
    }

    /// Parses a text as a CPF. The canonical punctuation
    /// (`123.456.789-09`), the plain 11-digit run and the slash-delimited
    /// legacy form are accepted; every other character placement is
    /// rejected at its exact offset.
    pub fn parse(s: &str) -> (r: Result<Self, ParseCpfError>)
        ensures
            match r {
                Ok(v) => cpf_parse_spec(s@) == Ok::<Seq<u8>, ParseCpfError>(v@) && cpf_valid(v@),
                Err(e) => cpf_parse_spec(s@) == Err::<Seq<u8>, ParseCpfError>(e),
            },
    {
        let n = s.unicode_len();
        if n == 0 {
            return Err(ParseCpfError::Empty);
        }
        let mut numbers: [u8; 11] = [0; 11];
        let mut i: usize = 0;
        let mut has_dot = false;
        let mut off: usize = 0;
        proof {
            assert(numbers@.take(0) =~= Seq::<u8>::empty());
        }
        while off < n
            invariant
                n == s@.len(),
                off <= n,
                i <= 11,
                numbers@.len() == 11,
                digits_in_range(numbers@),
                cpf_scan(s@, 0, Seq::empty(), false) == cpf_scan(
                    s@,
                    off as int,
                    numbers@.take(i as int),
                    has_dot,
                ),
            decreases n - off,
        {
            let c = s.get_char(off);
            let cu = c as u32;
            let ghost taken = numbers@.take(i as int);
            if 48 <= cu && cu <= 57 {
                if i < 11 {
                    numbers[i] = (cu - 48) as u8;
                    i = i + 1;
                    proof {
                        assert(taken.push(digit_val(c)) =~= numbers@.take(i as int));
                    }
                } else {
                    return Err(ParseCpfError::InvalidNumber);
                }
            } else if c == '.' && (off == 3 || off == 7) {
                has_dot = true;
            } else if (c == '-' || c == '/') && ((has_dot && off == 11) || (!has_dot && off
                == 9)) {
                // a separator in a legal position carries no digit
            } else {
                return Err(ParseCpfError::InvalidCharacter(c, off));
            }
            off = off + 1;
        }
        if i != 11 {
            return Err(ParseCpfError::InvalidNumber);
        }
        proof {
            assert(numbers@.take(11) =~= numbers@);
        }
        if Self::repeated(&numbers) {
            return Err(ParseCpfError::InvalidNumber);
        }
        let w0 = Self::weight_table(false);
        let d0 = checksum_digit(numbers.as_slice(), w0.as_slice());
        if d0 != numbers[9] {
            return Err(ParseCpfError::InvalidNumber);
        }
        let w1 = Self::weight_table(true);
        let d1 = checksum_digit(numbers.as_slice(), w1.as_slice());
        if d1 != numbers[10] {
            return Err(ParseCpfError::InvalidNumber);
        }
        Ok(Cpf { digits: numbers })
    }

    /// Whether all 11 digits are the same.
    fn repeated(numbers: &[u8; 11]) -> (r: bool)
        ensures
            r == all_same(numbers@),
    {
        let mut k: usize = 1;
        while k < 11
            invariant
                1 <= k <= 11,
                forall|j: int| 0 <= j < k ==> #[trigger] numbers@[j] == numbers@[0],
            decreases 11 - k,
        {
            if numbers[k] != numbers[0] {
                return false;
            }
            k = k + 1;
        }
        true
    }

    /// Returns a byte slice of the numbers.
    pub fn as_bytes(&self) -> (r: &[u8; 11])
        ensures
            r@ == self@,
    {
        &self.digits
    }

    /// Renders the number in its one canonical punctuated form,
    /// `ddd.ddd.ddd-dd`.
    pub fn to_canonical_string(&self) -> (r: String)
        ensures
            r@ == cpf_canonical(self@),
    {
        proof {
            use_type_invariant(self);
            reveal_strlit(".");
            reveal_strlit("-");
        }
        let mut r = String::new();
        r.append(digit_str(self.digits[0]));
        r.append(digit_str(self.digits[1]));
        r.append(digit_str(self.digits[2]));
        r.append(".");
        r.append(digit_str(self.digits[3]));
        r.append(digit_str(self.digits[4]));
        r.append(digit_str(self.digits[5]));
        r.append(".");
        r.append(digit_str(self.digits[6]));
        r.append(digit_str(self.digits[7]));
        r.append(digit_str(self.digits[8]));
        r.append("-");
        r.append(digit_str(self.digits[9]));
        r.append(digit_str(self.digits[10]));
        proof {
            assert(r@ =~= cpf_canonical(self@));
        }
        r
    }

    /// Generates a random number from the thread-local generator: nine
    /// uniformly drawn base digits completed with their check digits.
    pub fn generate() -> (r: Self)
        ensures
            cpf_valid(r@),
    {
        let mut rng = fresh_rng();
        let mut numbers: [u8; 11] = [0; 11];
        let mut k: usize = 0;
        while k < 9
            invariant
                k <= 9,
                numbers@.len() == 11,
                digits_in_range(numbers@),
            decreases 9 - k,
        {
            let d = random_digit(&mut rng);
            numbers[k] = d;
            k = k + 1;
        }
        Self::fill_check_digits(&mut numbers);
        Cpf { digits: numbers }
    }
}

/// Scanning a run of `m` digit characters, laid down at offsets `off..`
/// of the text and standing for digits `k..` of the value, collects
/// exactly those digits.
proof fn lemma_scan_run(c: Seq<char>, s: Seq<u8>, off: int, k: int, m: int, dot: bool)
    requires
        0 <= off,
        0 <= m,
        off + m <= c.len(),
        0 <= k,
        k + m <= 11,
        k + m <= s.len(),
        digits_in_range(s),
        forall|j: int| 0 <= j < m ==> #[trigger] c[off + j] == digit_char(s[k + j] as int),
    ensures
        cpf_scan(c, off, s.take(k), dot) == cpf_scan(c, off + m, s.take(k + m), dot),
    decreases m,
{
    if m > 0 {
        lemma_digit_char(s[k] as int);
        assert(c[off + 0] == digit_char(s[k + 0] as int));
        assert(s.take(k).push(digit_val(c[off])) =~= s.take(k + 1));
        assert(cpf_scan(c, off, s.take(k), dot) == cpf_scan(c, off + 1, s.take(k + 1), dot));
        assert forall|j: int| 0 <= j < m - 1 implies #[trigger] c[(off + 1) + j] == digit_char(
            s[(k + 1) + j] as int,
        ) by {
            assert(c[off + (j + 1)] == digit_char(s[k + (j + 1)] as int));
        };
        lemma_scan_run(c, s, off + 1, k + 1, m - 1, dot);
    }
}

/// Scanning the canonical text of any 11-digit sequence collects exactly
/// that sequence.
proof fn lemma_scan_canonical(s: Seq<u8>)
    requires
        s.len() == 11,
        digits_in_range(s),
    ensures
        cpf_scan(cpf_canonical(s), 0, Seq::empty(), false) == Ok::<Seq<u8>, ParseCpfError>(s),
{
    let c = cpf_canonical(s);
    assert(Seq::<u8>::empty() =~= s.take(0));
    lemma_scan_run(c, s, 0, 0, 3, false);
    assert(c[3] == '.' && !is_digit_char('.'));
    assert(cpf_scan(c, 3, s.take(3), false) == cpf_scan(c, 4, s.take(3), true));
    lemma_scan_run(c, s, 4, 3, 3, true);
    assert(c[7] == '.');
    assert(cpf_scan(c, 7, s.take(6), true) == cpf_scan(c, 8, s.take(6), true));
    lemma_scan_run(c, s, 8, 6, 3, true);
    assert(c[11] == '-' && !is_digit_char('-'));
    assert(cpf_scan(c, 11, s.take(9), true) == cpf_scan(c, 12, s.take(9), true));
    lemma_scan_run(c, s, 12, 9, 2, true);
    assert(s.take(11) =~= s);
    assert(cpf_scan(c, 14, s.take(11), true) == Ok::<Seq<u8>, ParseCpfError>(s));
}

/// Scanning the plain 11-digit text of any digit sequence collects exactly
/// that sequence.
proof fn lemma_scan_plain(s: Seq<u8>)
    requires
        s.len() == 11,
        digits_in_range(s),
    ensures
        cpf_scan(plain_digit_chars(s), 0, Seq::empty(), false) == Ok::<Seq<u8>, ParseCpfError>(s),
{
    let c = plain_digit_chars(s);
    assert(Seq::<u8>::empty() =~= s.take(0));
    lemma_scan_run(c, s, 0, 0, 11, false);
    assert(s.take(11) =~= s);
    assert(cpf_scan(c, 11, s.take(11), false) == Ok::<Seq<u8>, ParseCpfError>(s));
}

/// Round trip: the canonical text of every valid, not all-repeated value
/// parses back to exactly that value.
pub proof fn lemma_canonical_round_trip(s: Seq<u8>)
    requires
        cpf_valid(s),
        !all_same(s),
    ensures
        cpf_parse_spec(cpf_canonical(s)) == Ok::<Seq<u8>, ParseCpfError>(s),
{
    lemma_scan_canonical(s);
    assert(Seq::<u8>::empty() =~= s.take(0));
}

/// Unformatted acceptance: the plain 11-digit run of every valid, not
/// all-repeated value parses to exactly that value.
pub proof fn lemma_plain_round_trip(s: Seq<u8>)
    requires
        cpf_valid(s),
        !all_same(s),
    ensures
        cpf_parse_spec(plain_digit_chars(s)) == Ok::<Seq<u8>, ParseCpfError>(s),
{
    lemma_scan_plain(s);
}

/// Repeated-digit rejection: the 11-fold repetition of any one digit is
/// rejected as an invalid number, whatever its check digits would say.
pub proof fn lemma_repeated_rejected(s: Seq<u8>)
    requires
        s.len() == 11,
        digits_in_range(s),
        all_same(s),
    ensures
        cpf_parse_spec(plain_digit_chars(s)) == Err::<Seq<u8>, ParseCpfError>(
            ParseCpfError::InvalidNumber,
        ),
{
    lemma_scan_plain(s);
}

/// Checksum sensitivity: changing only the last digit of a valid canonical
/// text makes parsing fail with `InvalidNumber`.
pub proof fn lemma_check_digit_mutation(s: Seq<u8>, d: u8)
    requires
        cpf_valid(s),
        d <= 9,
        d != s[10],
    ensures
        cpf_parse_spec(cpf_canonical(s).update(13, digit_char(d as int))) == Err::<
            Seq<u8>,
            ParseCpfError,
        >(ParseCpfError::InvalidNumber),
{
    let s2 = s.update(10, d);
    assert(digits_in_range(s2));
    assert(cpf_canonical(s).update(13, digit_char(d as int)) =~= cpf_canonical(s2));
    lemma_scan_canonical(s2);
    lemma_weighted_sum_prefix(s2, s, cpf_weights(true));
    assert(s2[10] != cpf_check_digit(s2, true));
}

/// Reconstruction: the first nine digits of a valid value, handed to the
/// slice constructor, are completed back to exactly that value.
pub proof fn lemma_reconstruct(s: Seq<u8>)
    requires
        cpf_valid(s),
    ensures
        cpf_from_slice_spec(s.take(9)) == Ok::<Seq<u8>, ParseCpfError>(s),
{
    let b = s.take(9);
    assert(digits_in_range(b));
    lemma_weighted_sum_prefix(b, s, cpf_weights(false));
    assert(b.push(cpf_check_digit(b, false) as u8) =~= s.take(10));
    lemma_weighted_sum_prefix(s.take(10), s, cpf_weights(true));
    assert(cpf_complete(b) =~= s);
}

/// Format stability: the canonical text is always 14 characters with the
/// separators at offsets 3, 7 and 11, whatever the digits are.
pub proof fn lemma_canonical_shape(s: Seq<u8>)
    requires
        s.len() == 11,
    ensures
        cpf_canonical(s).len() == 14,
        cpf_canonical(s)[3] == '.',
        cpf_canonical(s)[7] == '.',
        cpf_canonical(s)[11] == '-',
        forall|k: int|
            0 <= k < 3 ==> #[trigger] cpf_canonical(s)[k] == digit_char(s[k] as int),
        forall|k: int|
            4 <= k < 7 ==> #[trigger] cpf_canonical(s)[k] == digit_char(s[k - 1] as int),
        forall|k: int|
            8 <= k < 11 ==> #[trigger] cpf_canonical(s)[k] == digit_char(s[k - 2] as int),
        forall|k: int|
            12 <= k < 14 ==> #[trigger] cpf_canonical(s)[k] == digit_char(s[k - 3] as int),
{
}

/// The ordering [`Cpf`] values compare by is a strict total order: `Equal`
/// holds exactly for equal digit sequences, `Less` and `Greater` mirror
/// each other, and `Less` is transitive.
pub proof fn lemma_order_laws(a: Cpf, b: Cpf, c: Cpf)
    ensures
        lex_cmp(a@, a@) == core::cmp::Ordering::Equal,
        lex_cmp(a@, b@) == core::cmp::Ordering::Equal <==> a@ == b@,
        lex_cmp(a@, b@) == core::cmp::Ordering::Less <==> lex_cmp(b@, a@)
            == core::cmp::Ordering::Greater,
        lex_cmp(a@, b@) == core::cmp::Ordering::Less && lex_cmp(b@, c@)
            == core::cmp::Ordering::Less ==> lex_cmp(a@, c@) == core::cmp::Ordering::Less,
{
    lemma_lex_cmp_self(a@);
    lemma_lex_cmp_eq(a@, b@);
    lemma_lex_cmp_antisym(a@, b@);
    if lex_cmp(a@, b@) == core::cmp::Ordering::Less && lex_cmp(b@, c@)
        == core::cmp::Ordering::Less {
        lemma_lex_cmp_trans(a@, b@, c@);
    }
}

impl core::str::FromStr for Cpf {
    type Err = ParseCpfError;

    /// Same as [`Cpf::parse`].
    fn from_str(s: &str) -> Result<Self, ParseCpfError> {
        Cpf::parse(s)
    }
}

impl PartialEq for Cpf {
    /// Digit-by-digit equality.
    fn eq(&self, other: &Self) -> (r: bool) {
        let mut k: usize = 0;
        while k < 11
            invariant
                k <= 11,
                forall|j: int| 0 <= j < k ==> self.digits@[j] == other.digits@[j],
            decreases 11 - k,
        {
            if self.digits[k] != other.digits[k] {
                return false;
            }
            k = k + 1;
        }
        proof {
            assert(self.digits@ =~= other.digits@);
        }
        true
    }
}

impl vstd::std_specs::cmp::PartialEqSpecImpl for Cpf {
    open spec fn obeys_eq_spec() -> bool {
        true
    }

    open spec fn eq_spec(&self, other: &Self) -> bool {
        self@ == other@
    }
}

impl PartialOrd for Cpf {
    /// Lexicographic comparison of the digit arrays.
    fn partial_cmp(&self, other: &Self) -> (r: Option<core::cmp::Ordering>) {
        let mut k: usize = 0;
        while k < 11
            invariant
                k <= 11,
                forall|j: int| 0 <= j < k ==> self.digits@[j] == other.digits@[j],
            decreases 11 - k,
        {
            proof {
                lemma_lex_cmp_skip(self.digits@, other.digits@, k as int);
            }
            if self.digits[k] < other.digits[k] {
                return Some(core::cmp::Ordering::Less);
            }
            if other.digits[k] < self.digits[k] {
                return Some(core::cmp::Ordering::Greater);
            }
            k = k + 1;
        }
        proof {
            lemma_lex_cmp_skip(self.digits@, other.digits@, 11);
        }
        Some(core::cmp::Ordering::Equal)
    }
}

impl vstd::std_specs::cmp::PartialOrdSpecImpl for Cpf {
    open spec fn obeys_partial_cmp_spec() -> bool {
        true
    }

    open spec fn partial_cmp_spec(&self, other: &Self) -> Option<core::cmp::Ordering> {
        Some(lex_cmp(self@, other@))
    }
}

} // verus!

