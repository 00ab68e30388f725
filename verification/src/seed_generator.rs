//! Streams candidate seeds of a chosen digit width, gated by the
//! orbit-representative filter: a candidate is kept only when its decimal
//! reversal is at least the candidate itself, since the smaller of the
//! two reaches the same next iterate.

use vstd::prelude::*;
use crate::digits::BigDecimalInt;
use crate::digits::all_digits;
use crate::digits::canonical;
use crate::digits::pow10;
use crate::digits::rev_nat;
use crate::digits::spec_min;
use crate::digits::spec_reverse;
use crate::digits::seq_value;
use crate::digits::trim;
use crate::digits::lemma_lex_less;
use crate::digits::lemma_trim_canonical;
use crate::digits::lemma_trim_len;
use crate::digits::lemma_trim_value;
use crate::digits::lemma_seq_value_upper;
use crate::digits::lemma_seq_value_lower;
use crate::digits::lemma_pow10_increases;
use crate::digits::lemma_rev_nat_of_canonical;
use crate::digits::lemma_reverse_all_digits;
use crate::thread_cache::sat_inc;

verus! {

/// How the next candidate of a width is chosen.
#[derive(Clone, Copy, PartialEq, Eq, Structural, Debug)]
pub enum GeneratorMode {
    /// Every number of the width, in order.
    Sequential,
    /// Digits drawn at random, the leading one never zero.
    SmartRandom,
    /// Reserved; currently enumerates as `Sequential` does.
    PatternBased,
}

/// Counters describing a generator's filtering so far.
pub struct GeneratorStats {
    pub generated_count: u64,
    pub skip_count: u64,
}

/// A candidate is kept exactly when its reversal does not shrink it.
pub open spec fn admitted_seed(v: nat) -> bool {
    rev_nat(v) >= v
}

/// Whether `n` is the representative of its orbit family: its decimal
/// reversal is at least `n` itself. Palindromes pass. The leading and
/// trailing digits decide most cases at once; ties fall back to the full
/// comparison.
pub fn is_potential_seed(n: &BigDecimalInt) -> (r: bool)
    requires
        n.wf(),
    ensures
        r == admitted_seed(n.value()),
{
    proof {
        lemma_rev_nat_of_canonical(n@);
    }
    let lo = n.least_significant_digit();
    let hi = n.most_significant_digit();
    if lo > hi {
        proof {
            let s = n@;
            assert(s.len() > 0);
            let b = s.reverse();
            assert(b[b.len() - 1] == s[0]);
            assert(s[0] != 0);
            lemma_reverse_all_digits(s);
            lemma_trim_canonical(b);
            assert(trim(b) == b);
            assert(b.len() == s.len());
            lemma_lex_less(s, b, s.len() - 1);
            assert(seq_value(spec_reverse(s)) > seq_value(s));
        }
        return true;
    }
    if lo < hi {
        proof {
            let s = n@;
            assert(s.len() > 0);
            let b = s.reverse();
            lemma_reverse_all_digits(s);
            if s[0] == 0 {
                assert(b[b.len() - 1] == 0);
                assert(trim(b) == trim(b.drop_last()));
                lemma_trim_len(b.drop_last());
                assert(trim(b).len() <= b.len() - 1);
                lemma_trim_canonical(b);
                lemma_trim_value(b);
                lemma_seq_value_upper(trim(b));
                lemma_pow10_increases(trim(b).len(), (s.len() - 1) as nat);
                lemma_seq_value_lower(s);
                assert(seq_value(spec_reverse(s)) < seq_value(s));
            } else {
                lemma_trim_canonical(b);
                assert(trim(b) == b);
                lemma_lex_less(b, s, s.len() - 1);
                assert(seq_value(spec_reverse(s)) < seq_value(s));
            }
        }
        return false;
    }
    let reversed = n.reverse_digits();
    !reversed.less_than(n)
}

/// Builds `pow10(e)` as a number: a one after `e` zeros.
fn pow10_value(e: usize) -> (r: BigDecimalInt)
    requires
        e + 1 <= usize::MAX,
    ensures
        r.wf(),
        r.value() == pow10(e as nat),
        r@.len() == e + 1,
{
    let mut digits: Vec<u8> = Vec::new();
    let mut i: usize = 0;
    while i < e
        invariant
            i <= e,
            digits@.len() == i,
            forall|k: int| 0 <= k < i ==> digits@[k] == 0,
        decreases e - i,
    {
        digits.push(0);
        i += 1;
    }
    proof {
        crate::digits::lemma_seq_value_push(digits@, 1);
        lemma_zero_digits_value(digits@);
    }
    digits.push(1);
    BigDecimalInt::from_digit_vec(digits)
}

/// A run of zeros denotes zero.
proof fn lemma_zero_digits_value(s: Seq<u8>)
    requires
        forall|k: int| 0 <= k < s.len() ==> s[k] == 0,
    ensures
        seq_value(s) == 0,
    decreases s.len(),
{
    if s.len() > 0 {
        lemma_zero_digits_value(s.drop_first());
    }
}

#[verifier::external_type_specification]
#[verifier::external_body]
pub struct ExThreadRng(rand::rngs::ThreadRng);

/// Relies on `rand::thread_rng`: a lazily seeded random generator for the
/// calling thread.
#[verifier::external_body]
fn fresh_rng() -> rand::rngs::ThreadRng {
    rand::thread_rng()
}

/// Relies on `rand::Rng::gen_range` on an inclusive byte range: a value
/// drawn from the range; nothing more is promised of a random draw.
#[verifier::external_body]
fn random_digit_between(rng: &mut rand::rngs::ThreadRng, lo: u8, hi: u8) -> (r: u8)
    requires
        lo <= hi,
    ensures
        lo <= r <= hi,
{
    rand::Rng::gen_range(rng, lo..=hi)
}

/// How many random draws are tried before falling back to a fixed
/// admitted candidate.
pub const RANDOM_RETRY_BOUND: u32 = 100000;

/// The smallest palindrome of the width: 1 for one digit, otherwise a one
/// at each end with zeros between. The filter admits every palindrome.
fn smallest_palindrome_of_width(digits: usize) -> (r: BigDecimalInt)
    requires
        1 <= digits,
    ensures
        r.wf(),
        r@.len() == digits,
        admitted_seed(r.value()),
        pow10((digits - 1) as nat) <= r.value() < pow10(digits as nat),
{
    let mut out: Vec<u8> = Vec::new();
    out.push(1);
    let mut i: usize = 1;
    while i < digits
        invariant
            1 <= i <= digits || (digits == 1 && i == 1),
            out@.len() == i,
            out@[0] == 1,
            forall|k: int| 1 <= k < i ==> #[trigger] out@[k] == if k == digits - 1 {
                1u8
            } else {
                0u8
            },
        decreases digits - i,
    {
        let d: u8 = if i + 1 == digits {
            1
        } else {
            0
        };
        out.push(d);
        i += 1;
    }
    proof {
        let s = out@;
        assert(canonical(s));
        assert(crate::digits::symmetric(s)) by {
            assert forall|k: int| 0 <= k < s.len() implies #[trigger] s[k] == s[s.len() - 1 - k]
                by {
                if s.len() > 1 {
                    if k == 0 {
                        assert(s[s.len() - 1] == 1);
                    } else if k == s.len() - 1 {
                        assert(s[0] == 1);
                    }
                }
            }
        }
        crate::digits::lemma_pal_iff_symmetric(s);
        lemma_rev_nat_of_canonical(s);
        lemma_seq_value_lower(s);
        lemma_seq_value_upper(s);
    }
    BigDecimalInt::from_digit_vec(out)
}

/// Streams candidates of `digits` decimal digits in `[10^(digits-1),
/// 10^digits)`.
pub struct SeedGenerator {
    current: BigDecimalInt,
    max: BigDecimalInt,
    digits: usize,
    pub mode: GeneratorMode,
    skip_count: u64,
    generated_count: u64,
}

impl SeedGenerator {
    /// The position and bounds are sound for the width.
    pub closed spec fn wf(&self) -> bool {
        &&& self.current.wf()
        &&& self.max.wf()
        &&& self.digits >= 1
        &&& self.max.value() == pow10(self.digits as nat)
    }

    pub closed spec fn current_value(&self) -> nat {
        self.current.value()
    }

    pub closed spec fn max_value(&self) -> nat {
        self.max.value()
    }

    pub closed spec fn spec_digits(&self) -> nat {
        self.digits as nat
    }

    pub closed spec fn spec_mode(&self) -> GeneratorMode {
        self.mode
    }

    pub closed spec fn spec_generated(&self) -> u64 {
        self.generated_count
    }

    pub closed spec fn spec_skipped(&self) -> u64 {
        self.skip_count
    }

    /// A well-formed generator's bound is the power of ten of its width.
    pub proof fn lemma_wf_bounds(&self)
        requires
            self.wf(),
        ensures
            self.max_value() == pow10(self.spec_digits()),
    {
    }

    /// A generator at the bottom of the width: `current == 10^(digits-1)`.
    pub fn new(digits: usize, mode: GeneratorMode) -> (r: Self)
        requires
            1 <= digits,
            digits + 1 <= usize::MAX,
        ensures
            r.wf(),
            r.spec_digits() == digits,
            r.spec_mode() == mode,
            r.current_value() == pow10((digits - 1) as nat),
            r.max_value() == pow10(digits as nat),
            r.spec_generated() == 0,
            r.spec_skipped() == 0,
    {
        let min = pow10_value(digits - 1);
        let max = pow10_value(digits);
        SeedGenerator { current: min, max, digits, mode, skip_count: 0, generated_count: 0 }
    }

    /// A generator resumed at a stored position.
    pub fn from_checkpoint(digits: usize, mode: GeneratorMode, current: BigDecimalInt) -> (r: Self)
        requires
            1 <= digits,
            digits + 1 <= usize::MAX,
            current.wf(),
        ensures
            r.wf(),
            r.spec_digits() == digits,
            r.spec_mode() == mode,
            r.current_value() == current.value(),
            r.max_value() == pow10(digits as nat),
            r.spec_generated() == 0,
            r.spec_skipped() == 0,
    {
        let max = pow10_value(digits);
        SeedGenerator { current, max, digits, mode, skip_count: 0, generated_count: 0 }
    }

    /// Where the enumeration stands.
    pub fn current_position(&self) -> (r: BigDecimalInt)
        requires
            self.wf(),
        ensures
            r.wf(),
            r.value() == self.current_value(),
    {
        self.current.clone()
    }

    /// The width's lower bound, `10^(digits-1)`.
    pub fn current_p10_max(&self) -> (r: BigDecimalInt)
        requires
            self.wf(),
        ensures
            r.wf(),
            r.value() == pow10((self.spec_digits() - 1) as nat),
    {
        pow10_value(self.digits - 1)
    }

    /// The filter, as a method of the generator.
    pub fn is_potential_seed(&self, n: &BigDecimalInt) -> (r: bool)
        requires
            n.wf(),
        ensures
            r == admitted_seed(n.value()),
    {
        is_potential_seed(n)
    }

    /// The counters so far.
    pub fn get_stats(&self) -> (r: GeneratorStats)
        ensures
            r.generated_count == self.spec_generated(),
            r.skip_count == self.spec_skipped(),
    {
        GeneratorStats { generated_count: self.generated_count, skip_count: self.skip_count }
    }

    /// One candidate of the width with random digits, the leading digit
    /// never zero.
    fn generate_smart_random(&self) -> (r: BigDecimalInt)
        requires
            self.wf(),
        ensures
            r.wf(),
            r@.len() == self.spec_digits(),
            pow10((self.spec_digits() - 1) as nat) <= r.value() < pow10(self.spec_digits()),
    {
        let mut rng = fresh_rng();
        let d = self.digits;
        let mut out: Vec<u8> = Vec::new();
        let mut i: usize = 0;
        while i < d
            invariant
                i <= d,
                out@.len() == i,
                all_digits(out@),
                forall|k: int| 0 <= k < i ==> k == d - 1 ==> out@[k] >= 1,
            decreases d - i,
        {
            let lo: u8 = if i + 1 == d {
                1
            } else {
                0
            };
            let dig = random_digit_between(&mut rng, lo, 9);
            out.push(dig);
            i += 1;
        }
        proof {
            assert(canonical(out@));
            lemma_seq_value_lower(out@);
            lemma_seq_value_upper(out@);
        }
        BigDecimalInt::from_digit_vec(out)
    }

    /// The next admitted candidate: for the enumerating modes, the least
    /// admitted value at or past the current position, or `None` when the
    /// width is exhausted; for `SmartRandom`, an admitted random value of
    /// the width whenever the position has not reached the bound.
    pub fn next(&mut self) -> (r: Option<BigDecimalInt>)
        requires
            old(self).wf(),
        ensures
            final(self).wf(),
            final(self).spec_digits() == old(self).spec_digits(),
            final(self).spec_mode() == old(self).spec_mode(),
            final(self).max_value() == old(self).max_value(),
            old(self).spec_mode() != GeneratorMode::SmartRandom ==> {
                &&& (r is Some <==> exists|w: nat|
                    old(self).current_value() <= w < old(self).max_value() && admitted_seed(w))
                &&& (r matches Some(c) ==> {
                    &&& c.wf()
                    &&& admitted_seed(c.value())
                    &&& old(self).current_value() <= c.value() < old(self).max_value()
                    &&& (forall|w: nat|
                        old(self).current_value() <= w < c.value() ==> !admitted_seed(w))
                    &&& final(self).current_value() == c.value() + 1
                    &&& final(self).spec_generated() == sat_inc(old(self).spec_generated(), 1)
                    &&& final(self).spec_skipped() == sat_inc(
                        old(self).spec_skipped(),
                        (c.value() - old(self).current_value()) as nat,
                    )
                })
                &&& (r is None ==> final(self).spec_generated() == old(self).spec_generated()
                    && final(self).spec_skipped() == if old(self).current_value() >= old(
                    self,
                ).max_value() {
                    old(self).spec_skipped()
                } else {
                    sat_inc(
                        old(self).spec_skipped(),
                        (old(self).max_value() - old(self).current_value()) as nat,
                    )
                })
            },
            old(self).spec_mode() == GeneratorMode::SmartRandom ==> {
                &&& (r is Some <==> old(self).current_value() < old(self).max_value())
                &&& (r matches Some(c) ==> {
                    &&& c.wf()
                    &&& admitted_seed(c.value())
                    &&& pow10((old(self).spec_digits() - 1) as nat) <= c.value() < pow10(
                        old(self).spec_digits(),
                    )
                    &&& final(self).current_value() == old(self).current_value()
                    &&& final(self).spec_generated() == sat_inc(old(self).spec_generated(), 1)
                    &&& final(self).spec_skipped() >= old(self).spec_skipped()
                })
            },
    {
        let is_random = match self.mode {
            GeneratorMode::SmartRandom => true,
            GeneratorMode::Sequential => false,
            GeneratorMode::PatternBased => false,
        };
        proof {
            assert(is_random == (old(self).spec_mode() == GeneratorMode::SmartRandom));
        }
        if is_random {
            if !self.current.less_than(&self.max) {
                return None;
            }
            let mut tries: u32 = 0;
            while tries < RANDOM_RETRY_BOUND
                invariant
                    self.wf(),
                    self.spec_digits() == old(self).spec_digits(),
                    self.spec_mode() == old(self).spec_mode(),
                    self.max_value() == old(self).max_value(),
                    self.current_value() == old(self).current_value(),
                    self.spec_generated() == old(self).spec_generated(),
                    self.spec_skipped() >= old(self).spec_skipped(),
                    old(self).current_value() < old(self).max_value(),
                    old(self).spec_mode() == GeneratorMode::SmartRandom,
                decreases RANDOM_RETRY_BOUND - tries,
            {
                let candidate = self.generate_smart_random();
                if is_potential_seed(&candidate) {
                    self.generated_count = self.generated_count.saturating_add(1);
                    return Some(candidate);
                }
                self.skip_count = self.skip_count.saturating_add(1);
                tries += 1;
            }
            // An astronomically unlikely run of rejected draws ends at the
            // width's smallest palindrome, which the filter always admits.
            let fallback = smallest_palindrome_of_width(self.digits);
            self.generated_count = self.generated_count.saturating_add(1);
            Some(fallback)
        } else {
            let one = BigDecimalInt::from_u64(1);
            let ghost cur0 = self.current_value();
            while self.current.less_than(&self.max)
                invariant
                    self.wf(),
                    self.spec_digits() == old(self).spec_digits(),
                    self.spec_mode() == old(self).spec_mode(),
                    self.max_value() == old(self).max_value(),
                    self.spec_generated() == old(self).spec_generated(),
                    old(self).spec_mode() != GeneratorMode::SmartRandom,
                    one.wf() && one.value() == 1,
                    cur0 == old(self).current_value(),
                    cur0 <= self.current_value(),
                    self.current_value() <= self.max_value() || self.current_value() == cur0,
                    self.spec_skipped() == sat_inc(
                        old(self).spec_skipped(),
                        (self.current_value() - cur0) as nat,
                    ),
                    forall|w: nat| cur0 <= w < self.current_value() ==> !admitted_seed(w),
                decreases self.max_value() - self.current_value(),
            {
                let candidate = self.current.clone();
                let next_pos = self.current.add_to(&one);
                self.current = next_pos;
                if is_potential_seed(&candidate) {
                    self.generated_count = self.generated_count.saturating_add(1);
                    return Some(candidate);
                }
                self.skip_count = self.skip_count.saturating_add(1);
            }
            None
        }
    }

    /// Up to `batch_size` consecutive raw (unfiltered) candidates from the
    /// current position, which advances past them.
    pub fn next_raw_batch(&mut self, batch_size: usize) -> (r: Vec<BigDecimalInt>)
        requires
            old(self).wf(),
        ensures
            final(self).wf(),
            final(self).spec_digits() == old(self).spec_digits(),
            final(self).spec_mode() == old(self).spec_mode(),
            final(self).max_value() == old(self).max_value(),
            final(self).spec_generated() == old(self).spec_generated(),
            final(self).spec_skipped() == old(self).spec_skipped(),
            r@.len() == if old(self).current_value() >= old(self).max_value() {
                0int
            } else {
                spec_min(
                    batch_size as int,
                    old(self).max_value() - old(self).current_value(),
                )
            },
            forall|i: int| 0 <= i < r@.len() ==> (#[trigger] r@[i]).wf() && r@[i].value()
                == old(self).current_value() + i,
            final(self).current_value() == old(self).current_value() + r@.len(),
    {
        let one = BigDecimalInt::from_u64(1);
        let mut out: Vec<BigDecimalInt> = Vec::new();
        let mut k: usize = 0;
        while k < batch_size && self.current.less_than(&self.max)
            invariant
                self.wf(),
                self.spec_digits() == old(self).spec_digits(),
                self.spec_mode() == old(self).spec_mode(),
                self.max_value() == old(self).max_value(),
                self.spec_generated() == old(self).spec_generated(),
                self.spec_skipped() == old(self).spec_skipped(),
                one.wf() && one.value() == 1,
                k <= batch_size,
                out@.len() == k,
                forall|i: int| 0 <= i < k ==> (#[trigger] out@[i]).wf() && out@[i].value()
                    == old(self).current_value() + i,
                self.current_value() == old(self).current_value() + k,
                k > 0 ==> old(self).current_value() + k - 1 < old(self).max_value(),
                k < batch_size && k > 0 ==> self.current_value() <= self.max_value(),
            decreases batch_size - k,
        {
            out.push(self.current.clone());
            let next = self.current.add_to(&one);
            self.current = next;
            k += 1;
        }
        out
    }
}

} // verus!
