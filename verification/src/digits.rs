//! Arbitrary-precision non-negative decimal integers.
//!
//! A number is held as its decimal digits, least significant first, with no
//! leading zero at the most significant end; zero is the empty digit vector.
//! All arithmetic is verified against the mathematical value of the digit
//! sequence.

use vstd::prelude::*;

verus! {

/// 10 raised to `e`.
pub open spec fn pow10(e: nat) -> nat
    decreases e,
{
    if e == 0 {
        1
    } else {
        10 * pow10((e - 1) as nat)
    }
}

/// Every element of `s` is a decimal digit.
pub open spec fn all_digits(s: Seq<u8>) -> bool {
    forall|i: int| 0 <= i < s.len() ==> s[i] < 10
}

/// `s` is the canonical little-endian digit string of a number:
/// decimal digits only, and no leading zero at the significant end.
pub open spec fn canonical(s: Seq<u8>) -> bool {
    all_digits(s) && (s.len() > 0 ==> s[s.len() - 1] != 0)
}

/// The number that the little-endian digit sequence `s` denotes.
pub open spec fn seq_value(s: Seq<u8>) -> nat
    decreases s.len(),
{
    if s.len() == 0 {
        0
    } else {
        (s[0] + 10 * seq_value(s.drop_first())) as nat
    }
}

/// `s` with high-order zeros removed, restoring canonical form.
pub open spec fn trim(s: Seq<u8>) -> Seq<u8>
    decreases s.len(),
{
    if s.len() > 0 && s[s.len() - 1] == 0 {
        trim(s.drop_last())
    } else {
        s
    }
}

/// The canonical little-endian digit string of `v`.
pub open spec fn digits_of(v: nat) -> Seq<u8>
    decreases v,
{
    if v == 0 {
        Seq::empty()
    } else {
        seq![(v % 10) as u8] + digits_of(v / 10)
    }
}

pub proof fn lemma_pow10_positive(e: nat)
    ensures
        pow10(e) >= 1,
    decreases e,
{
    if e > 0 {
        lemma_pow10_positive((e - 1) as nat);
    }
}

pub proof fn lemma_pow10_increases(e1: nat, e2: nat)
    requires
        e1 <= e2,
    ensures
        pow10(e1) <= pow10(e2),
    decreases e2,
{
    if e1 < e2 {
        lemma_pow10_increases(e1, (e2 - 1) as nat);
        lemma_pow10_positive((e2 - 1) as nat);
    }
}

/// Appending a digit at the significant end adds its positional value.
pub proof fn lemma_seq_value_push(s: Seq<u8>, d: u8)
    ensures
        seq_value(s.push(d)) == seq_value(s) + d * pow10(s.len()),
    decreases s.len(),
{
    if s.len() == 0 {
        assert(s.push(d) =~= seq![d]);
        assert(seq![d].drop_first() =~= Seq::<u8>::empty());
        assert(seq_value(Seq::<u8>::empty()) == 0);
        assert(seq_value(s.push(d)) == d + 10 * seq_value(Seq::<u8>::empty()));
        assert(seq_value(s) == 0);
        assert(pow10(s.len()) == 1);
    } else {
        assert(s.push(d).drop_first() =~= s.drop_first().push(d));
        lemma_seq_value_push(s.drop_first(), d);
        let sv = seq_value(s.drop_first());
        let p = pow10((s.len() - 1) as nat);
        assert(seq_value(s.push(d)) == s[0] + 10 * (sv + d * p));
        assert(10 * (sv + d * p) == 10 * sv + d * (10 * p)) by (nonlinear_arith);
        assert(seq_value(s) == s[0] + 10 * sv);
        assert(pow10(s.len()) == 10 * p);
        assert(d * (10 * p) == d * pow10(s.len())) by (nonlinear_arith)
            requires pow10(s.len()) == 10 * p;
    }
}

/// A digit string of length `n` denotes a number below `pow10(n)`.
pub proof fn lemma_seq_value_upper(s: Seq<u8>)
    requires
        all_digits(s),
    ensures
        seq_value(s) < pow10(s.len()),
    decreases s.len(),
{
    if s.len() > 0 {
        lemma_seq_value_upper(s.drop_first());
        assert(seq_value(s.drop_first()) <= pow10((s.len() - 1) as nat) - 1);
        assert(10 * seq_value(s.drop_first()) <= 10 * (pow10((s.len() - 1) as nat) - 1))
            by (nonlinear_arith)
            requires seq_value(s.drop_first()) <= pow10((s.len() - 1) as nat) - 1;
    }
}

/// A canonical nonempty digit string denotes at least `pow10(len - 1)`.
pub proof fn lemma_seq_value_lower(s: Seq<u8>)
    requires
        canonical(s),
        s.len() > 0,
    ensures
        seq_value(s) >= pow10((s.len() - 1) as nat),
    decreases s.len(),
{
    if s.len() == 1 {
        assert(s[0] >= 1);
    } else {
        let t = s.drop_first();
        assert(canonical(t));
        lemma_seq_value_lower(t);
        assert(10 * seq_value(t) >= 10 * pow10((t.len() - 1) as nat)) by (nonlinear_arith)
            requires seq_value(t) >= pow10((t.len() - 1) as nat);
    }
}

/// Splitting a digit string splits its value positionally.
pub proof fn lemma_seq_value_split(s: Seq<u8>, i: int)
    requires
        0 <= i <= s.len(),
    ensures
        seq_value(s) == seq_value(s.take(i)) + pow10(i as nat) * seq_value(s.skip(i)),
    decreases i,
{
    if i == 0 {
        assert(s.take(0) =~= Seq::<u8>::empty());
        assert(s.skip(0) =~= s);
        assert(seq_value(Seq::<u8>::empty()) == 0);
        assert(pow10(0) == 1);
        assert(pow10(0) * seq_value(s) == seq_value(s)) by (nonlinear_arith)
            requires pow10(0) == 1;
    } else {
        lemma_seq_value_split(s.drop_first(), i - 1);
        assert(s.take(i).drop_first() =~= s.drop_first().take(i - 1));
        assert(s.drop_first().skip(i - 1) =~= s.skip(i));
        // seq_value(s) == s[0] + 10 * seq_value(s.drop_first())
        //             == s[0] + 10 * (seq_value(take') + pow10(i-1) * seq_value(skip))
        let a = seq_value(s.drop_first().take(i - 1));
        let b = seq_value(s.skip(i));
        let p = pow10((i - 1) as nat);
        assert(seq_value(s.drop_first()) == a + p * b);
        assert(10 * (a + p * b) == 10 * a + (10 * p) * b) by (nonlinear_arith);
        assert(seq_value(s) == s[0] + 10 * seq_value(s.drop_first()));
        assert(s.take(i)[0] == s[0]);
        assert(s.take(i).len() == i);
        assert(seq_value(s.take(i)) == s[0] + 10 * a);
        assert(pow10(i as nat) == 10 * p);
        assert(seq_value(s) == (s[0] + 10 * a) + (10 * p) * b);
        assert(pow10(i as nat) * b == (10 * p) * b) by (nonlinear_arith)
            requires pow10(i as nat) == 10 * p;
    }
}

/// Removing high-order zeros does not change the value.
pub proof fn lemma_trim_value(s: Seq<u8>)
    ensures
        seq_value(trim(s)) == seq_value(s),
    decreases s.len(),
{
    if s.len() > 0 && s[s.len() - 1] == 0 {
        assert(s =~= s.drop_last().push(s[s.len() - 1]));
        lemma_seq_value_push(s.drop_last(), s[s.len() - 1]);
        lemma_trim_value(s.drop_last());
    }
}

/// Trimming yields a canonical digit string.
pub proof fn lemma_trim_canonical(s: Seq<u8>)
    requires
        all_digits(s),
    ensures
        canonical(trim(s)),
        trim(s).len() <= s.len(),
        canonical(s) ==> trim(s) == s,
    decreases s.len(),
{
    if s.len() > 0 && s[s.len() - 1] == 0 {
        assert(all_digits(s.drop_last()));
        lemma_trim_canonical(s.drop_last());
    }
}

/// `digits_of` produces a canonical digit string.
pub proof fn lemma_digits_of_canonical(v: nat)
    ensures
        canonical(digits_of(v)),
    decreases v,
{
    if v > 0 {
        lemma_digits_of_canonical(v / 10);
        let s = digits_of(v);
        let rest = digits_of(v / 10);
        assert(s == seq![(v % 10) as u8] + rest);
        assert(v % 10 < 10) by (nonlinear_arith);
        if rest.len() > 0 {
            assert(s[s.len() - 1] == rest[rest.len() - 1]);
        } else {
            assert(v / 10 == 0);
            assert(v % 10 == v) by (nonlinear_arith)
                requires v / 10 == 0, v > 0;
            assert(s[s.len() - 1] == (v % 10) as u8);
        }
    }
}

/// `digits_of` inverts `seq_value`.
pub proof fn lemma_digits_of_value(v: nat)
    ensures
        seq_value(digits_of(v)) == v,
    decreases v,
{
    if v > 0 {
        lemma_digits_of_value(v / 10);
        let s = digits_of(v);
        assert(s.drop_first() =~= digits_of(v / 10));
        assert(s[0] == (v % 10) as u8);
        assert(v % 10 + 10 * (v / 10) == v) by (nonlinear_arith);
    }
}

/// Two canonical digit strings of the same number are the same string.
pub proof fn lemma_canonical_unique(s: Seq<u8>, t: Seq<u8>)
    requires
        canonical(s),
        canonical(t),
        seq_value(s) == seq_value(t),
    ensures
        s == t,
    decreases s.len(),
{
    if s.len() == 0 || t.len() == 0 {
        if s.len() > 0 {
            lemma_seq_value_lower(s);
            lemma_pow10_positive((s.len() - 1) as nat);
        }
        if t.len() > 0 {
            lemma_seq_value_lower(t);
            lemma_pow10_positive((t.len() - 1) as nat);
        }
        assert(s.len() == 0 && t.len() == 0);
        assert(s =~= t);
    } else {
        let sv = seq_value(s);
        assert(sv == s[0] + 10 * seq_value(s.drop_first()));
        assert(sv == t[0] + 10 * seq_value(t.drop_first()));
        assert(s[0] == sv % 10 && seq_value(s.drop_first()) == sv / 10) by (nonlinear_arith)
            requires sv == s[0] + 10 * seq_value(s.drop_first()), s[0] < 10;
        assert(t[0] == sv % 10 && seq_value(t.drop_first()) == sv / 10) by (nonlinear_arith)
            requires sv == t[0] + 10 * seq_value(t.drop_first()), t[0] < 10;
        if s.len() == 1 && t.len() == 1 {
            assert(s =~= t);
        } else {
            if s.len() == 1 {
                assert(canonical(t.drop_first()));
                lemma_seq_value_lower(t.drop_first());
                lemma_pow10_positive((t.len() - 2) as nat);
            } else if t.len() == 1 {
                assert(canonical(s.drop_first()));
                lemma_seq_value_lower(s.drop_first());
                lemma_pow10_positive((s.len() - 2) as nat);
            } else {
                assert(canonical(s.drop_first()));
                assert(canonical(t.drop_first()));
                lemma_canonical_unique(s.drop_first(), t.drop_first());
                assert(s.len() == t.len());
                assert forall|i: int| 0 <= i < s.len() implies s[i] == t[i] by {
                    if i > 0 {
                        assert(s[i] == s.drop_first()[i - 1]);
                        assert(t[i] == t.drop_first()[i - 1]);
                    }
                }
                assert(s =~= t);
            }
        }
    }
}

/// A canonical digit string is recovered from its value.
pub proof fn lemma_digits_of_seq_value(s: Seq<u8>)
    requires
        canonical(s),
    ensures
        digits_of(seq_value(s)) == s,
{
    lemma_digits_of_canonical(seq_value(s));
    lemma_digits_of_value(seq_value(s));
    lemma_canonical_unique(digits_of(seq_value(s)), s);
}

/// The digit string of the decimal reversal of the number `s` denotes:
/// the digits read the other way round, with high-order zeros dropped.
pub open spec fn spec_reverse(s: Seq<u8>) -> Seq<u8> {
    trim(s.reverse())
}

/// The decimal reversal of `v` as a number.
pub open spec fn rev_nat(v: nat) -> nat {
    seq_value(spec_reverse(digits_of(v)))
}

/// `v` reads the same forwards and backwards in decimal.
pub open spec fn pal_nat(v: nat) -> bool {
    rev_nat(v) == v
}

/// Trimming either leaves a string unchanged or shortens it.
pub proof fn lemma_trim_len(s: Seq<u8>)
    ensures
        trim(s) == s || trim(s).len() < s.len(),
    decreases s.len(),
{
    if s.len() > 0 && s[s.len() - 1] == 0 {
        lemma_trim_len(s.drop_last());
    }
}

/// Reversing keeps all elements decimal digits.
pub proof fn lemma_reverse_all_digits(s: Seq<u8>)
    requires
        all_digits(s),
    ensures
        all_digits(s.reverse()),
{
}

/// The reversal of a digit string is canonical.
pub proof fn lemma_spec_reverse_canonical(s: Seq<u8>)
    requires
        all_digits(s),
    ensures
        canonical(spec_reverse(s)),
{
    lemma_reverse_all_digits(s);
    lemma_trim_canonical(s.reverse());
}

/// On canonical digits, the value-level reversal agrees with the
/// digit-string reversal.
pub proof fn lemma_rev_nat_of_canonical(s: Seq<u8>)
    requires
        canonical(s),
    ensures
        rev_nat(seq_value(s)) == seq_value(spec_reverse(s)),
{
    lemma_digits_of_seq_value(s);
}

/// Reversal computed by skipping the low-order zeros and reading the
/// remaining digits from the top down.
pub proof fn lemma_trim_reverse_skip(s: Seq<u8>, j: int)
    requires
        all_digits(s),
        0 <= j <= s.len(),
        forall|k: int| 0 <= k < j ==> s[k] == 0,
        j < s.len() ==> s[j] != 0,
    ensures
        trim(s.reverse()) == s.skip(j).reverse(),
    decreases j,
{
    if j == 0 {
        if s.len() == 0 {
            assert(s.reverse() =~= Seq::<u8>::empty());
            assert(s.skip(0) =~= s);
        } else {
            assert(s.reverse()[s.len() - 1] == s[0]);
            assert(s[0] != 0);
            assert(trim(s.reverse()) == s.reverse());
            assert(s.skip(0) =~= s);
        }
    } else {
        assert(s[0] == 0);
        assert(s.reverse()[s.len() - 1] == s[0]);
        assert(trim(s.reverse()) == trim(s.reverse().drop_last()));
        assert(s.reverse().drop_last() =~= s.drop_first().reverse());
        assert(forall|k: int| 0 <= k < j - 1 ==> s.drop_first()[k] == 0);
        lemma_trim_reverse_skip(s.drop_first(), j - 1);
        assert(s.drop_first().skip(j - 1) =~= s.skip(j));
    }
}

/// The digit string reads the same from either end.
pub open spec fn symmetric(s: Seq<u8>) -> bool {
    forall|i: int| 0 <= i < s.len() ==> #[trigger] s[i] == s[s.len() - 1 - i]
}

/// A canonical digit string equals its reversal exactly when it is
/// symmetric, and exactly when its value is a decimal palindrome.
pub proof fn lemma_pal_iff_symmetric(s: Seq<u8>)
    requires
        canonical(s),
    ensures
        symmetric(s) <==> (s == spec_reverse(s)),
        (s == spec_reverse(s)) <==> pal_nat(seq_value(s)),
{
    lemma_spec_reverse_canonical(s);
    lemma_rev_nat_of_canonical(s);
    if symmetric(s) {
        if s.len() == 0 {
            assert(s.reverse() =~= s);
            assert(spec_reverse(s) == s);
        } else {
            assert(s.reverse() =~= s);
            lemma_trim_canonical(s.reverse());
            assert(spec_reverse(s) == s);
        }
    }
    if s == spec_reverse(s) {
        lemma_trim_len(s.reverse());
        assert(trim(s.reverse()).len() == s.reverse().len());
        assert(s.reverse() == s);
        assert forall|i: int| 0 <= i < s.len() implies #[trigger] s[i] == s[s.len() - 1 - i] by {
            assert(s.reverse()[i] == s[s.len() - 1 - i]);
        }
        assert(symmetric(s));
    }
    if pal_nat(seq_value(s)) {
        assert(seq_value(spec_reverse(s)) == seq_value(s));
        lemma_canonical_unique(s, spec_reverse(s));
    }
}

/// How many zeros the digit string holds at its low-order end; in decimal
/// writing these are the number's trailing zeros.
pub open spec fn low_zeros(s: Seq<u8>) -> nat
    decreases s.len(),
{
    if s.len() > 0 && s[0] == 0 {
        (1 + low_zeros(s.drop_first())) as nat
    } else {
        0
    }
}

pub proof fn lemma_low_zeros_bounds(s: Seq<u8>)
    ensures
        low_zeros(s) <= s.len(),
        forall|k: int| 0 <= k < low_zeros(s) ==> s[k] == 0,
        low_zeros(s) < s.len() ==> s[low_zeros(s) as int] != 0,
    decreases s.len(),
{
    if s.len() > 0 && s[0] == 0 {
        lemma_low_zeros_bounds(s.drop_first());
        assert forall|k: int| 0 <= k < low_zeros(s) implies s[k] == 0 by {
            if k > 0 {
                assert(s.drop_first()[k - 1] == 0);
            }
        }
    }
}

/// Reversing a number's digits twice gives the number back with its
/// decimal-trailing zeros removed; a number without trailing zeros is
/// unchanged.
pub proof fn lemma_reverse_involutive(s: Seq<u8>)
    requires
        canonical(s),
    ensures
        spec_reverse(spec_reverse(s)) == s.skip(low_zeros(s) as int),
        (s.len() > 0 ==> s[0] != 0) ==> spec_reverse(spec_reverse(s)) == s,
{
    let j = low_zeros(s) as int;
    lemma_low_zeros_bounds(s);
    lemma_trim_reverse_skip(s, j);
    let t = s.skip(j).reverse();
    if j == s.len() {
        assert(s.skip(j) =~= Seq::<u8>::empty());
        assert(t =~= Seq::<u8>::empty());
        assert(t.reverse() =~= Seq::<u8>::empty());
    } else {
        assert(t.len() > 0);
        assert(t[t.len() - 1] == s.skip(j)[0]);
        assert(s.skip(j)[0] == s[j]);
        assert(t.reverse() =~= s.skip(j));
        assert(t.reverse()[t.len() - 1] == t[0]);
        assert(t[0] == s.skip(j)[s.skip(j).len() - 1]);
        assert(s.skip(j)[s.skip(j).len() - 1] == s[s.len() - 1]);
        assert(trim(t.reverse()) == t.reverse());
    }
    if s.len() > 0 && s[0] != 0 {
        assert(j == 0);
        assert(s.skip(0) =~= s);
    }
    if s.len() == 0 {
        assert(s.skip(0) =~= s);
    }
}

/// The decimal ASCII writing of the number with canonical digit string
/// `s`, most significant digit first; zero is written "0".
pub open spec fn dec_bytes_of(s: Seq<u8>) -> Seq<u8> {
    if s.len() == 0 {
        seq![48u8]
    } else {
        Seq::new(s.len(), |k: int| (s[s.len() - 1 - k] + 48) as u8)
    }
}

/// The bytes are a nonempty run of ASCII decimal digits.
pub open spec fn valid_dec_bytes(b: Seq<u8>) -> bool {
    b.len() > 0 && forall|i: int| 0 <= i < b.len() ==> 48 <= #[trigger] b[i] <= 57
}

/// The little-endian digit string read off a decimal ASCII writing,
/// before high-order zeros are trimmed.
pub open spec fn digits_from_dec_bytes(b: Seq<u8>) -> Seq<u8> {
    Seq::new(b.len(), |k: int| (b[b.len() - 1 - k] - 48) as u8)
}

/// Writing a number in decimal and reading it back yields the number.
pub proof fn lemma_dec_bytes_round_trip(s: Seq<u8>)
    requires
        canonical(s),
    ensures
        valid_dec_bytes(dec_bytes_of(s)),
        trim(digits_from_dec_bytes(dec_bytes_of(s))) == s,
{
    if s.len() == 0 {
        assert(dec_bytes_of(s) == seq![48u8]);
        assert(digits_from_dec_bytes(seq![48u8]) =~= seq![0u8]);
        assert(trim(seq![0u8]) == trim(seq![0u8].drop_last()));
        assert(seq![0u8].drop_last() =~= Seq::<u8>::empty());
    } else {
        assert(digits_from_dec_bytes(dec_bytes_of(s)) =~= s);
        lemma_trim_canonical(s);
    }
}

/// The smaller of two integers.
pub open spec fn spec_min(a: int, b: int) -> int {
    if a <= b {
        a
    } else {
        b
    }
}

/// Digit strings of equal length compare as their values do, decided at the
/// most significant position where they differ.
pub proof fn lemma_lex_less(s: Seq<u8>, t: Seq<u8>, j: int)
    requires
        all_digits(s),
        all_digits(t),
        s.len() == t.len(),
        0 <= j < s.len(),
        s[j] < t[j],
        forall|k: int| j < k < s.len() ==> s[k] == t[k],
    ensures
        seq_value(s) < seq_value(t),
{
    lemma_seq_value_split(s, j);
    lemma_seq_value_split(t, j);
    assert(s.skip(j).drop_first() =~= t.skip(j).drop_first());
    let rest = seq_value(s.skip(j).drop_first());
    assert(seq_value(s.skip(j)) == s[j] + 10 * rest);
    assert(seq_value(t.skip(j)) == t[j] + 10 * rest);
    assert(all_digits(s.take(j)));
    assert(all_digits(t.take(j)));
    lemma_seq_value_upper(s.take(j));
    lemma_seq_value_upper(t.take(j));
    let p = pow10(j as nat);
    let sv = seq_value(s.skip(j));
    let tv = seq_value(t.skip(j));
    assert(sv < tv);
    assert(p * sv + p <= p * tv) by (nonlinear_arith)
        requires sv < tv, p >= 1;
    lemma_pow10_positive(j as nat);
    assert(s.take(j).len() == j);
    assert(seq_value(s.take(j)) < p);
}

/// An arbitrary-precision non-negative integer stored as little-endian
/// decimal digits with no high-order zero.
#[derive(Debug)]
pub struct BigDecimalInt {
    digits: Vec<u8>,
}

impl View for BigDecimalInt {
    type V = Seq<u8>;

    closed spec fn view(&self) -> Seq<u8> {
        self.digits@
    }
}

impl BigDecimalInt {
    /// The digit vector is canonical.
    pub open spec fn wf(&self) -> bool {
        canonical(self@)
    }

    /// The number this value denotes.
    pub open spec fn value(&self) -> nat {
        seq_value(self@)
    }

    /// Wraps a canonical digit vector.
    pub fn from_digit_vec(digits: Vec<u8>) -> (r: Self)
        requires
            canonical(digits@),
        ensures
            r.wf(),
            r@ == digits@,
    {
        BigDecimalInt { digits }
    }

    /// The zero value.
    pub fn new_zero() -> (r: Self)
        ensures
            r.wf(),
            r.value() == 0,
            r@ == Seq::<u8>::empty(),
    {
        BigDecimalInt { digits: Vec::new() }
    }

    pub fn is_zero(&self) -> (r: bool)
        ensures
            r == (self@.len() == 0),
            self.wf() ==> r == (self.value() == 0),
    {
        proof {
            if self.wf() && self@.len() > 0 {
                lemma_seq_value_lower(self@);
                lemma_pow10_positive((self@.len() - 1) as nat);
            }
        }
        self.digits.len() == 0
    }

    /// Builds the number `n`.
    pub fn from_u64(n: u64) -> (r: Self)
        ensures
            r.wf(),
            r.value() == n,
    {
        let mut digits: Vec<u8> = Vec::new();
        let mut left: u64 = n;
        proof {
            assert(digits@ =~= Seq::<u8>::empty());
            assert(seq_value(digits@) == 0);
            assert(pow10(0) == 1);
        }
        while left != 0
            invariant
                all_digits(digits@),
                left == 0 ==> canonical(digits@),
                seq_value(digits@) + left * pow10(digits@.len()) == n,
            decreases left,
        {
            let d: u8 = (left % 10) as u8;
            let next = left / 10;
            proof {
                lemma_seq_value_push(digits@, d);
                let p = pow10(digits@.len());
                assert(d + 10 * next == left) by (nonlinear_arith)
                    requires d == left % 10, next == left / 10;
                assert((d + next * 10) * p == d * p + next * (10 * p)) by (nonlinear_arith);
                if next == 0 {
                    assert(d != 0) by (nonlinear_arith)
                        requires d == left % 10, left / 10 == 0, left != 0;
                }
            }
            digits.push(d);
            left = next;
        }
        BigDecimalInt { digits }
    }

    /// Compares by numerical value.
    pub fn less_than(&self, other: &Self) -> (r: bool)
        requires
            self.wf(),
            other.wf(),
        ensures
            r == (self.value() < other.value()),
    {
        let n = self.digits.len();
        let m = other.digits.len();
        if n < m {
            proof {
                lemma_seq_value_upper(self@);
                lemma_seq_value_lower(other@);
                lemma_pow10_increases(self@.len(), (other@.len() - 1) as nat);
            }
            return true;
        }
        if n > m {
            proof {
                lemma_seq_value_upper(other@);
                lemma_seq_value_lower(self@);
                lemma_pow10_increases(other@.len(), (self@.len() - 1) as nat);
            }
            return false;
        }
        let mut j = n;
        while j > 0
            invariant
                n == self@.len() == other@.len(),
                j <= n,
                all_digits(self@),
                all_digits(other@),
                forall|k: int| j <= k < n ==> self@[k] == other@[k],
            decreases j,
        {
            j -= 1;
            if self.digits[j] < other.digits[j] {
                proof {
                    lemma_lex_less(self@, other@, j as int);
                }
                return true;
            }
            if self.digits[j] > other.digits[j] {
                proof {
                    lemma_lex_less(other@, self@, j as int);
                }
                return false;
            }
        }
        proof {
            assert(self@ =~= other@);
        }
        false
    }

    /// Adds two numbers, carrying between digit positions.
    pub fn add_to(&self, other: &Self) -> (r: Self)
        requires
            self.wf(),
            other.wf(),
        ensures
            r.wf(),
            r.value() == self.value() + other.value(),
    {
        let (longer, shorter): (&Vec<u8>, &Vec<u8>) = if self.digits.len()
            >= other.digits.len() {
            (&self.digits, &other.digits)
        } else {
            (&other.digits, &self.digits)
        };
        let mut out: Vec<u8> = Vec::new();
        let mut carry: u8 = 0;
        let mut i: usize = 0;
        proof {
            assert(out@ =~= Seq::<u8>::empty());
            assert(longer@.take(0) =~= Seq::<u8>::empty());
            assert(shorter@.take(0) =~= Seq::<u8>::empty());
            assert(seq_value(Seq::<u8>::empty()) == 0);
        }
        while i < longer.len()
            invariant
                shorter@.len() <= longer@.len(),
                canonical(longer@),
                canonical(shorter@),
                i <= longer@.len(),
                out@.len() == i,
                carry <= 1,
                all_digits(out@),
                seq_value(out@) + carry * pow10(i as nat) == seq_value(longer@.take(i as int))
                    + seq_value(shorter@.take(spec_min(i as int, shorter@.len() as int))),
                i > 0 && carry == 0 ==> out@[i - 1] >= longer@[i - 1],
            decreases longer@.len() - i,
        {
            let da = longer[i];
            let db = if i < shorter.len() {
                shorter[i]
            } else {
                0
            };
            let sum = da + db + carry;
            let d = sum % 10;
            let new_carry = sum / 10;
            proof {
                lemma_seq_value_push(out@, d);
                let p = pow10(i as nat);
                assert(d + 10 * new_carry == sum);
                assert((d + 10 * new_carry) * p == d * p + new_carry * (10 * p))
                    by (nonlinear_arith);
                assert(sum * p == (da + db + carry) * p) by (nonlinear_arith)
                    requires sum == da + db + carry;
                assert((da + db + carry) * p == da * p + db * p + carry * p)
                    by (nonlinear_arith);
                assert(longer@.take(i + 1) =~= longer@.take(i as int).push(longer@[i as int]));
                lemma_seq_value_push(longer@.take(i as int), longer@[i as int]);
                assert(pow10((i + 1) as nat) == 10 * p);
                assert(new_carry * pow10((i + 1) as nat) == new_carry * (10 * p))
                    by (nonlinear_arith)
                    requires pow10((i + 1) as nat) == 10 * p;
                if i < shorter@.len() {
                    assert(shorter@.take(i + 1) =~= shorter@.take(i as int).push(
                        shorter@[i as int],
                    ));
                    lemma_seq_value_push(shorter@.take(i as int), shorter@[i as int]);
                    assert(spec_min(i as int, shorter@.len() as int) == i as int);
                    assert(spec_min(i + 1, shorter@.len() as int) == i + 1);
                } else {
                    assert(db == 0);
                    assert(spec_min(i as int, shorter@.len() as int) == shorter@.len() as int);
                    assert(spec_min(i + 1, shorter@.len() as int) == shorter@.len() as int);
                }
            }
            out.push(d);
            carry = new_carry;
            i += 1;
        }
        proof {
            assert(longer@.take(longer@.len() as int) =~= longer@);
            assert(shorter@.take(spec_min(longer@.len() as int, shorter@.len() as int))
                =~= shorter@);
        }
        if carry > 0 {
            proof {
                lemma_seq_value_push(out@, carry);
            }
            out.push(carry);
        } else {
            proof {
                if out@.len() > 0 {
                    assert(out@[out@.len() - 1] >= longer@[longer@.len() - 1]);
                    assert(longer@[longer@.len() - 1] != 0);
                }
            }
        }
        BigDecimalInt { digits: out }
    }

    /// The number with this number's decimal digits read the other way
    /// round; high-order zeros introduced by the reversal are dropped.
    pub fn reverse_digits(&self) -> (r: Self)
        requires
            self.wf(),
        ensures
            r.wf(),
            r@ == spec_reverse(self@),
            r.value() == rev_nat(self.value()),
    {
        let n = self.digits.len();
        let mut j: usize = 0;
        while j < n && self.digits[j] == 0
            invariant
                j <= n,
                n == self@.len(),
                forall|k: int| 0 <= k < j ==> self@[k] == 0,
            decreases n - j,
        {
            j += 1;
        }
        let mut out: Vec<u8> = Vec::new();
        let mut i: usize = n;
        proof {
            assert(out@ =~= self@.subrange(i as int, n as int).reverse());
        }
        while i > j
            invariant
                j <= i <= n,
                n == self@.len(),
                out@ =~= self@.subrange(i as int, n as int).reverse(),
            decreases i,
        {
            i -= 1;
            let d = self.digits[i];
            out.push(d);
            proof {
                assert(out@ =~= self@.subrange(i as int, n as int).reverse());
            }
        }
        proof {
            assert(out@ =~= self@.skip(j as int).reverse());
            lemma_trim_reverse_skip(self@, j as int);
            lemma_spec_reverse_canonical(self@);
            lemma_rev_nat_of_canonical(self@);
        }
        BigDecimalInt { digits: out }
    }

    /// Whether the decimal digits read the same forwards and backwards.
    pub fn is_palindrome_digits(&self) -> (r: bool)
        requires
            self.wf(),
        ensures
            r == (self@ == spec_reverse(self@)),
            r == pal_nat(self.value()),
    {
        let n = self.digits.len();
        let mut k: usize = 0;
        while k < n / 2
            invariant
                k <= n / 2,
                n == self@.len(),
                canonical(self@),
                forall|i: int| 0 <= i < k ==> #[trigger] self@[i] == self@[n - 1 - i],
            decreases n - k,
        {
            if self.digits[k] != self.digits[n - 1 - k] {
                proof {
                    assert(!symmetric(self@));
                    lemma_pal_iff_symmetric(self@);
                }
                return false;
            }
            k += 1;
        }
        proof {
            assert forall|i: int| 0 <= i < n implies #[trigger] self@[i] == self@[n - 1 - i] by {
                if i >= n / 2 {
                    assert(0 <= n - 1 - i < n);
                    if n - 1 - i < n / 2 {
                        assert(self@[n - 1 - i] == self@[n - 1 - (n - 1 - i)]);
                    } else {
                        assert(i == n - 1 - i);
                    }
                }
            }
            assert(symmetric(self@));
            lemma_pal_iff_symmetric(self@);
        }
        true
    }

    /// The number as a machine word, when it fits.
    pub fn to_u64(&self) -> (r: Option<u64>)
        requires
            self.wf(),
        ensures
            r matches Some(x) ==> x == self.value(),
            r.is_some() == (self.value() <= u64::MAX),
    {
        let n = self.digits.len();
        let mut acc: u64 = 0;
        let mut i: usize = n;
        proof {
            assert(self@.skip(n as int) =~= Seq::<u8>::empty());
        }
        while i > 0
            invariant
                n == self@.len(),
                i <= n,
                canonical(self@),
                acc == seq_value(self@.skip(i as int)),
            decreases i,
        {
            let d = self.digits[i - 1];
            proof {
                assert(self@.skip(i - 1).drop_first() =~= self@.skip(i as int));
                assert(seq_value(self@.skip(i - 1)) == d + 10 * seq_value(self@.skip(i as int)));
            }
            let scaled = match acc.checked_mul(10) {
                Some(s) => s,
                None => {
                    proof {
                        lemma_to_u64_overflow(self@, i - 1);
                    }
                    return None;
                },
            };
            let next = match scaled.checked_add(d as u64) {
                Some(s) => s,
                None => {
                    proof {
                        lemma_to_u64_overflow(self@, i - 1);
                    }
                    return None;
                },
            };
            acc = next;
            i -= 1;
        }
        proof {
            assert(self@.skip(0) =~= self@);
        }
        Some(acc)
    }

    /// The number of decimal digits ("0" counts one digit).
    pub fn digit_count(&self) -> (r: usize)
        ensures
            r == if self@.len() == 0 { 1int } else { self@.len() as int },
    {
        if self.digits.len() == 0 {
            1
        } else {
            self.digits.len()
        }
    }

    /// The ones digit; 0 for zero.
    pub fn least_significant_digit(&self) -> (r: u8)
        ensures
            r == if self@.len() == 0 { 0u8 } else { self@[0] },
    {
        if self.digits.len() == 0 {
            0
        } else {
            self.digits[0]
        }
    }

    /// The leading (highest-order) digit; 0 for zero.
    pub fn most_significant_digit(&self) -> (r: u8)
        ensures
            r == if self@.len() == 0 { 0u8 } else { self@[self@.len() - 1] },
    {
        if self.digits.len() == 0 {
            0
        } else {
            self.digits[self.digits.len() - 1]
        }
    }

    /// The decimal writing of the number, most significant digit first,
    /// as ASCII bytes; zero is written "0".
    pub fn to_decimal_bytes(&self) -> (r: Vec<u8>)
        requires
            self.wf(),
        ensures
            r@ == dec_bytes_of(self@),
    {
        let n = self.digits.len();
        if n == 0 {
            let mut out: Vec<u8> = Vec::new();
            out.push(48);
            proof {
                assert(out@ =~= dec_bytes_of(self@));
            }
            return out;
        }
        let mut out: Vec<u8> = Vec::new();
        let mut i: usize = n;
        while i > 0
            invariant
                i <= n,
                n == self@.len(),
                all_digits(self@),
                out@.len() == n - i,
                forall|k: int| 0 <= k < n - i ==> out@[k] == self@[n - 1 - k] + 48,
            decreases i,
        {
            i -= 1;
            let d = self.digits[i];
            out.push(d + 48);
        }
        proof {
            assert(out@ =~= dec_bytes_of(self@));
        }
        out
    }

    /// Reads a number from its decimal ASCII writing. Returns `None`
    /// exactly when the bytes are empty or hold a non-digit; leading
    /// zeros are accepted and ignored.
    pub fn from_decimal_bytes(bytes: &[u8]) -> (r: Option<Self>)
        ensures
            r.is_some() == valid_dec_bytes(bytes@),
            r matches Some(n) ==> n.wf() && n@ == trim(digits_from_dec_bytes(bytes@)),
    {
        let m = bytes.len();
        if m == 0 {
            return None;
        }
        let mut out: Vec<u8> = Vec::new();
        let mut i: usize = m;
        while i > 0
            invariant
                i <= m,
                m == bytes@.len(),
                out@.len() == m - i,
                forall|k: int| i <= k < m ==> 48 <= #[trigger] bytes@[k] <= 57,
                forall|k: int| 0 <= k < m - i ==> out@[k] == bytes@[m - 1 - k] - 48,
            decreases i,
        {
            i -= 1;
            let b = bytes[i];
            if b < 48 || b > 57 {
                return None;
            }
            out.push(b - 48);
        }
        proof {
            assert(out@ =~= digits_from_dec_bytes(bytes@));
            assert(all_digits(out@));
        }
        while out.len() > 0 && out[out.len() - 1] == 0
            invariant
                all_digits(out@),
                trim(out@) == trim(digits_from_dec_bytes(bytes@)),
            decreases out@.len(),
        {
            out.pop();
        }
        proof {
            lemma_trim_canonical(out@);
            assert(trim(out@) == out@);
        }
        Some(BigDecimalInt { digits: out })
    }
}

/// A number dominates the value of any of its high-order slices.
proof fn lemma_to_u64_overflow(s: Seq<u8>, i: int)
    requires
        0 <= i <= s.len(),
        seq_value(s.skip(i)) > u64::MAX,
    ensures
        seq_value(s) > u64::MAX,
{
    lemma_seq_value_split(s, i);
    lemma_pow10_positive(i as nat);
    let p = pow10(i as nat);
    let hi = seq_value(s.skip(i));
    assert(p * hi >= hi) by (nonlinear_arith)
        requires p >= 1, hi >= 0;
}

/// The fewest bits needed to express `v`: 0 for zero, otherwise the `r`
/// with `pow2(r - 1) <= v < pow2(r)`.
pub open spec fn spec_bit_length(v: nat, r: nat) -> bool {
    if v == 0 {
        r == 0
    } else {
        r >= 1 && vstd::arithmetic::power2::pow2((r - 1) as nat) <= v
            < vstd::arithmetic::power2::pow2(r)
    }
}

/// Relies on `num_bigint::BigUint::from_radix_le` (builds the number from
/// little-endian base-10 digits) and `num_bigint::BigUint::bits` (the
/// fewest bits necessary to express the number; zero needs none).
#[verifier::external_body]
pub fn bit_length(n: &BigDecimalInt) -> (r: u64)
    requires
        n.wf(),
    ensures
        spec_bit_length(n.value(), r as nat),
{
    let big = num_bigint::BigUint::from_radix_le(&n.digits, 10).unwrap_or_default();
    big.bits()
}

impl Clone for BigDecimalInt {
    fn clone(&self) -> (r: Self)
        ensures
            r@ == self@,
    {
        let digits = self.digits.clone();
        proof {
            assert(digits@ =~= self.digits@);
        }
        BigDecimalInt { digits }
    }
}

impl PartialEq for BigDecimalInt {
    fn eq(&self, other: &Self) -> (r: bool)
        ensures
            r == (self@ == other@),
    {
        let r = self.digits == other.digits;
        proof {
            if r {
                assert(self.digits@ =~= other.digits@);
            }
        }
        r
    }
}

impl Eq for BigDecimalInt {

}

impl vstd::std_specs::cmp::PartialEqSpecImpl for BigDecimalInt {
    open spec fn obeys_eq_spec() -> bool {
        true
    }

    open spec fn eq_spec(&self, other: &Self) -> bool {
        self@ == other@
    }
}

} // verus!
