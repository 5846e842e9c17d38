use vstd::prelude::*;
use crate::census::{binom, boards, lemma_board_count_closed, lemma_boards_count};
use crate::optimal::count_zeros;
use crate::popcount::{
    gosper_step,
    lemma_gosper_least,
    lemma_gosper_pop,
    lemma_pop_bounded,
    lemma_pop_below_clear,
    lemma_pop_high_clear,
    lemma_pop_low_ones,
    lemma_pop_shr1_below,
    lemma_bit_shift,
    lemma_bits_determine,
    lemma_low_mask,
    lemma_one,
    pop_below,
    popcount,
};
use crate::codec::{
    digits_below,
    lemma_first_difference,
    lemma_value_bound,
    lemma_value_injective,
    lemma_value_mono,
    lemma_value_step,
    value_of,
};
use vstd::arithmetic::power::pow;

verus! {

/// The value of bit `bit_index` of `val`, counted from the least significant bit.
pub open spec fn bit_spec(val: u32, bit_index: u32) -> u32 {
    (val >> bit_index) & 1u32
}

/// 0-based bit index starting from the least significant bit.
pub fn bit_at(val: u32, bit_index: u32) -> (r: u32)
    requires
        bit_index < 32,
    ensures
        r == bit_spec(val, bit_index),
        r <= 1,
{
    proof {
        lemma_bit_shift(val, bit_index);
    }
    (val >> bit_index) & 1u32
}

/// Lazily yields the `n`-bit values with a fixed number of set bits, in increasing order
/// (or their complements, in flip mode).
pub struct FixedPopBitvalues {
    pub limit: u32,
    pub next_val: u32,
    pub flip: bool,
}

impl FixedPopBitvalues {
    pub open spec fn wf(&self) -> bool {
        self.next_val > 0 && self.limit <= 0x8000_0000u32
    }

    /// Whether the sequence has nothing more to yield.
    pub open spec fn done(&self) -> bool {
        self.next_val >= self.limit
    }

    /// Yields the next pattern, or `None` once every pattern below the limit was yielded.
    pub fn next(&mut self) -> (r: Option<u32>)
        requires
            old(self).wf(),
        ensures
            final(self).wf(),
            final(self).limit == old(self).limit,
            final(self).flip == old(self).flip,
            old(self).done() ==> r is None && *final(self) == *old(self),
            !old(self).done() ==> {
                &&& r == Some(if old(self).flip { !old(self).next_val } else { old(self).next_val })
                &&& final(self).next_val > old(self).next_val
                &&& final(self).next_val == gosper_step(old(self).next_val)
                &&& popcount(final(self).next_val) == popcount(old(self).next_val)
            },
    {
        if self.next_val >= self.limit {
            return None;
        }
        let curr = self.next_val;
        assert(!curr < u32::MAX) by (bit_vector)
            requires curr != 0;
        let neg = !curr + 1;
        let rightmost = curr & neg;
        assert(rightmost <= curr && rightmost != 0) by (bit_vector)
            requires rightmost == curr & neg, neg == !curr + 1, curr != 0;
        let moved = curr + rightmost;
        let next = (((moved ^ curr) >> 2u32) / rightmost) | moved;
        assert(next >= moved && next > 0) by (bit_vector)
            requires next == (((moved ^ curr) >> 2u32) / rightmost) | moved, moved > 0;
        proof {
            assert(neg == vstd::prelude::add(!curr, 1u32)) by (bit_vector)
                requires neg == !curr + 1, curr != 0u32;
            assert(next == gosper_step(curr));
            lemma_gosper_pop(curr);
        }
        self.next_val = next;
        if self.flip {
            Some(!curr)
        } else {
            Some(curr)
        }
    }
}

/// The `n`-bit values with exactly `k` set bits; in flip mode their complements.
pub fn fixed_pop_bitvalues(n: u32, k: u32, flip: bool) -> (r: FixedPopBitvalues)
    requires
        n <= 31,
        1 <= k <= n,
    ensures
        r.wf(),
        r.limit == 1u32 << n,
        r.next_val == (1u32 << k) - 1,
        r.flip == flip,
        popcount(r.next_val) == k,
{
    assert((1u32 << n) <= 0x8000_0000u32) by (bit_vector)
        requires n <= 31;
    proof {
        lemma_low_mask(k);
        lemma_pop_low_ones(k);
    }
    FixedPopBitvalues { limit: 1u32 << n, next_val: (1u32 << k) - 1, flip }
}

/// The sequence has `len` digits and a zero at position `len - 1 - i` exactly for each
/// clear bit `i` of `p` below `len`.
pub open spec fn follows_pattern(b: Seq<u32>, p: u32, len: nat) -> bool {
    &&& b.len() == len
    &&& forall|i: int| 0 <= i < len ==> (b[len - 1 - i] == 0) == (#[trigger] bit_spec(p, i as u32) == 0)
}

/// The `j`-th sequence comes before the `k`-th: by a smaller pattern, or by a smaller value
/// under one pattern.
spec fn in_order(out: Seq<Vec<u32>>, pats: Seq<u32>, base: nat, j: int, k: int) -> bool {
    pats[j] < pats[k] || (pats[j] == pats[k] && value_of(out[j]@, base) < value_of(out[k]@, base))
}

/// Both sequences have one length and hold a zero at the same positions.
pub open spec fn same_zeros(a: Seq<u32>, b: Seq<u32>) -> bool {
    &&& a.len() == b.len()
    &&& forall|i: int| 0 <= i < a.len() ==> (a[i] == 0) == (b[i] == 0)
}

pub proof fn lemma_same_zeros_count(a: Seq<u32>, b: Seq<u32>)
    requires
        same_zeros(a, b),
    ensures
        count_zeros(a) == count_zeros(b),
    decreases a.len(),
{
    if a.len() > 0 {
        lemma_same_zeros_count(a.drop_last(), b.drop_last());
    }
}

/// A sequence with a zero at position `len - 1 - i` exactly for each clear bit `i` of `p`
/// below `len` has as many zeros as `p` has clear bits below `len`.
pub proof fn lemma_zeros_of_pattern(b: Seq<u32>, p: u32, len: nat)
    requires
        b.len() == len,
        len <= 32,
        forall|i: int| 0 <= i < len ==> (b[len - 1 - i] == 0) == (#[trigger] bit_spec(p, i as u32) == 0),
    ensures
        count_zeros(b) + pop_below(p, len) == len,
    decreases len,
{
    if len > 0 {
        let q = p >> 1u32;
        let d = b.drop_last();
        assert forall|i: int| 0 <= i < len - 1 implies (d[len - 2 - i] == 0) == (#[trigger] bit_spec(
            q,
            i as u32,
        ) == 0) by {
            let iu = i as u32;
            let ju = (i + 1) as u32;
            lemma_bit_shift(p, iu);
            assert(bit_spec(p, ((i + 1) as int) as u32) == bit_spec(p, ju));
        }
        lemma_zeros_of_pattern(d, q, (len - 1) as nat);
        lemma_pop_shr1_below(p, (len - 1) as nat);
        assert(bit_spec(p, (0 as int) as u32) == bit_spec(p, 0));
        lemma_bit_shift(p, 0);
    }
}

/// The bit pattern of a board: bit `i` is set when the digit at position `len - 1 - i` is
/// not zero.
pub open spec fn pattern_of(b: Seq<u32>) -> u32
    decreases b.len(),
{
    if b.len() == 0 {
        0
    } else {
        (pattern_of(b.drop_last()) << 1u32) | (if b.last() != 0 { 1u32 } else { 0u32 })
    }
}

pub proof fn lemma_pattern_of(b: Seq<u32>)
    requires
        b.len() <= 31,
    ensures
        pattern_of(b) < (1u32 << (b.len() as u32)),
        follows_pattern(b, pattern_of(b), b.len()),
        popcount(pattern_of(b)) + count_zeros(b) == b.len(),
    decreases b.len(),
{
    let len = b.len();
    let p = pattern_of(b);
    if len == 0 {
        lemma_one();
    } else {
        let d = b.drop_last();
        let q = pattern_of(d);
        lemma_pattern_of(d);
        let lb: u32 = if b.last() != 0 { 1u32 } else { 0u32 };
        let n = len as u32;
        let n1 = (len - 1) as u32;
        assert(p == (q << 1u32) | lb);
        assert(p < (1u32 << n) && (p >> 0u32) & 1u32 == lb) by (bit_vector)
            requires q < (1u32 << n1), p == (q << 1u32) | lb, lb <= 1u32, 1u32 <= n <= 31u32, n1 == n
                - 1u32;
        assert forall|i: int| 0 <= i < len implies (b[len - 1 - i] == 0) == (#[trigger] bit_spec(
            p,
            i as u32,
        ) == 0) by {
            if i == 0 {
                assert(bit_spec(p, (0 as int) as u32) == bit_spec(p, 0));
            } else {
                let iu = i as u32;
                let ju = (i - 1) as u32;
                assert((p >> iu) & 1u32 == (q >> ju) & 1u32) by (bit_vector)
                    requires p == (q << 1u32) | lb, lb <= 1u32, 1u32 <= iu, iu < 31u32, ju == iu - 1u32;
                assert(bit_spec(q, ((i - 1) as int) as u32) == bit_spec(q, ju));
                assert(d[(len - 1) - 1 - (i - 1)] == b[len - 1 - i]);
            }
        }
    }
    lemma_zeros_of_pattern(b, p, len);
    lemma_pop_high_clear(p, len, 32);
}

/// Two boards that follow one pattern hold their zeros at the same positions.
pub proof fn lemma_same_pattern(a: Seq<u32>, b: Seq<u32>, p: u32, len: nat)
    requires
        follows_pattern(a, p, len),
        follows_pattern(b, p, len),
    ensures
        same_zeros(a, b),
{
    assert forall|i: int| 0 <= i < a.len() implies (a[i] == 0) == (b[i] == 0) by {
        let k: int = len - 1 - i;
        assert(0 <= k < len);
        assert((a[len - 1 - k] == 0) == (bit_spec(p, k as u32) == 0));
        assert((b[len - 1 - k] == 0) == (bit_spec(p, k as u32) == 0));
        assert(len - 1 - k == i);
    }
}

/// A board of zeros only.
pub proof fn lemma_all_zero_count(b: Seq<u32>)
    requires
        count_zeros(b) == b.len(),
    ensures
        forall|i: int| 0 <= i < b.len() ==> b[i] == 0,
    decreases b.len(),
{
    if b.len() > 0 {
        lemma_count_zeros_bound(b.drop_last());
        lemma_all_zero_count(b.drop_last());
        assert forall|i: int| 0 <= i < b.len() implies b[i] == 0 by {
            if i < b.len() - 1 {
                assert(b.drop_last()[i] == b[i]);
            }
        }
    }
}

pub proof fn lemma_count_zeros_bound(b: Seq<u32>)
    ensures
        count_zeros(b) <= b.len(),
    decreases b.len(),
{
    if b.len() > 0 {
        lemma_count_zeros_bound(b.drop_last());
    }
}

/// `t` follows `s` on the odometer: the last free digit of `s` below `base - 1` is raised by
/// one, and the free digits after it, all at `base - 1`, go back to one.
pub open spec fn odometer_step_at(s: Seq<u32>, t: Seq<u32>, base: nat, pos: int) -> bool {
    &&& s.len() == t.len()
    &&& 0 <= pos < s.len()
    &&& s[pos] != 0
    &&& s[pos] + 1 < base
    &&& t[pos] == s[pos] + 1
    &&& forall|i: int| 0 <= i < pos ==> t[i] == s[i]
    &&& forall|i: int|
        pos < i < s.len() ==> (s[i] == 0 && t[i] == 0) || (s[i] + 1 == base && t[i] == 1)
}

pub open spec fn odometer_succ(s: Seq<u32>, t: Seq<u32>, base: nat) -> bool {
    exists|pos: int| odometer_step_at(s, t, base, pos)
}

/// Every free digit of `s` stands at `base - 1`: the odometer's last reading.
pub open spec fn odometer_last(s: Seq<u32>, base: nat) -> bool {
    forall|i: int| 0 <= i < s.len() ==> s[i] == 0 || s[i] + 1 == base
}

/// No valid reading lies strictly between a reading and its successor.
pub proof fn lemma_odometer_succ_least(s: Seq<u32>, t: Seq<u32>, x: Seq<u32>, base: nat)
    requires
        odometer_succ(s, t, base),
        same_zeros(x, s),
        digits_below(x, base),
        digits_below(s, base),
        value_of(s, base) < value_of(x, base),
    ensures
        value_of(t, base) <= value_of(x, base),
{
    let pos = choose|pos: int| odometer_step_at(s, t, base, pos);
    let d = lemma_first_difference(s, x, 0);
    if x[d] < s[d] {
        lemma_value_step(x, s, d, base);
    }
    if d < pos {
        assert(t.subrange(0, d) =~= s.subrange(0, d));
        lemma_value_step(t, x, d, base);
    } else if d == pos {
        assert forall|i: int| 0 <= i < t.len() implies t[i] <= x[i] by {
            if i < d {
                assert(s.subrange(0, d)[i] == x.subrange(0, d)[i]);
            }
        }
        lemma_value_mono(t, x, base);
    }
}

/// The last reading has the greatest value among the readings of its pattern.
pub proof fn lemma_odometer_last_greatest(s: Seq<u32>, x: Seq<u32>, base: nat)
    requires
        odometer_last(s, base),
        same_zeros(x, s),
        digits_below(x, base),
    ensures
        value_of(x, base) <= value_of(s, base),
{
    lemma_value_mono(x, s, base);
}

/// The first reading, with every free digit at one, has the least value.
pub proof fn lemma_odometer_first_least(s: Seq<u32>, x: Seq<u32>, base: nat)
    requires
        forall|i: int| 0 <= i < s.len() ==> s[i] <= 1,
        same_zeros(x, s),
    ensures
        value_of(s, base) <= value_of(x, base),
{
    lemma_value_mono(s, x, base);
}

/// Lazily yields every digit sequence whose zeros stand at fixed positions and whose other
/// digits range over `1..base`, counting like an odometer over the free positions.
pub struct ZeroPatternNumbers {
    next_val: Vec<u32>,
    curr_digit: usize,
    base: u32,
}

impl ZeroPatternNumbers {
    pub closed spec fn wf(&self) -> bool {
        &&& 2 <= self.base
        &&& (self.curr_digit == 0 || self.curr_digit == self.next_val@.len())
        &&& digits_below(self.next_val@, self.base as nat)
    }

    /// The sequence that the next call yields, unless the odometer has run out.
    pub closed spec fn current(&self) -> Seq<u32> {
        self.next_val@
    }

    pub closed spec fn base_spec(&self) -> nat {
        self.base as nat
    }

    pub closed spec fn exhausted(&self) -> bool {
        self.curr_digit == self.next_val@.len()
    }

    /// Starts at the sequence with a zero at position `len - 1 - i` for every bit `i` of
    /// `zero_pattern` that is clear, and a one everywhere else.
    pub fn new(zero_pattern: u32, len: usize, base: u32) -> (r: Self)
        requires
            len <= 32,
            2 <= base,
        ensures
            r.wf(),
            !r.exhausted() || len == 0,
            r.base_spec() == base,
            r.current().len() == len,
            forall|i: int| 0 <= i < len ==> (r.current()[len - 1 - i] == 0) == (#[trigger] bit_spec(
                zero_pattern,
                i as u32,
            ) == 0),
            forall|i: int| 0 <= i < len ==> r.current()[i] <= 1,
    {
        let mut next_val: Vec<u32> = Vec::new();
        let mut j: usize = 0;
        while j < len
            invariant
                j <= len <= 32,
                next_val@.len() == j,
                forall|t: int| 0 <= t < j ==> next_val@[t] == 1,
            decreases len - j,
        {
            next_val.push(1);
            j = j + 1;
        }
        let mut i: usize = 0;
        while i < len
            invariant
                i <= len <= 32,
                next_val@.len() == len,
                forall|t: int| 0 <= t < len ==> next_val@[t] <= 1,
                forall|t: int| 0 <= t < i ==> (next_val@[len - 1 - t] == 0) == (#[trigger] bit_spec(
                    zero_pattern,
                    t as u32,
                ) == 0),
                forall|t: int| 0 <= t < len - i ==> next_val@[t] == 1,
            decreases len - i,
        {
            if bit_at(zero_pattern, i as u32) == 0 {
                next_val.set(len - i - 1, 0);
            }
            i = i + 1;
        }
        ZeroPatternNumbers { next_val, curr_digit: 0, base }
    }

    /// Yields the current sequence and advances the odometer, or `None` once every
    /// sequence of the pattern was yielded.
    pub fn next(&mut self) -> (r: Option<Vec<u32>>)
        requires
            old(self).wf(),
        ensures
            final(self).wf(),
            final(self).base_spec() == old(self).base_spec(),
            same_zeros(final(self).current(), old(self).current()),
            digits_below(final(self).current(), final(self).base_spec()),
            old(self).exhausted() ==> r is None && final(self).exhausted(),
            !old(self).exhausted() ==> (r matches Some(v) && v@ == old(self).current()),
            !old(self).exhausted() && !final(self).exhausted() ==> value_of(
                old(self).current(),
                old(self).base_spec(),
            ) < value_of(final(self).current(), final(self).base_spec()),
            !old(self).exhausted() && !final(self).exhausted() ==> odometer_succ(
                old(self).current(),
                final(self).current(),
                old(self).base_spec(),
            ),
            !old(self).exhausted() && final(self).exhausted() ==> odometer_last(
                old(self).current(),
                old(self).base_spec(),
            ),
    {
        let len = self.next_val.len();
        if self.curr_digit == len {
            return None;
        }
        let curr = self.next_val.clone();
        assert(curr@ =~= self.next_val@);
        let top = self.base - 1;
        while curr[len - self.curr_digit - 1] == top || curr[len - self.curr_digit - 1] == 0
            invariant
                2 <= self.base,
                digits_below(self.next_val@, self.base as nat),
                forall|i: int|
                    len - self.curr_digit <= i < len ==> (curr@[i] == 0 && self.next_val@[i] == 0) || (
                    curr@[i] + 1 == self.base && self.next_val@[i] == 1),
                self.base == old(self).base,
                curr@ == old(self).next_val@,
                len == self.next_val@.len(),
                top == self.base - 1,
                self.curr_digit < len,
                same_zeros(self.next_val@, curr@),
                forall|t: int| 0 <= t < len - self.curr_digit ==> self.next_val@[t] == curr@[t],
                old(self).curr_digit < old(self).next_val@.len(),
            decreases len - self.curr_digit,
        {
            if curr[len - self.curr_digit - 1] == top {
                self.next_val.set(len - self.curr_digit - 1, 1);
            }
            self.curr_digit = self.curr_digit + 1;
            if self.curr_digit == len {
                return Some(curr);
            }
        }
        let pos = len - self.curr_digit - 1;
        let d = self.next_val[pos];
        self.next_val.set(pos, d + 1);
        self.curr_digit = 0;
        proof {
            assert(curr@.subrange(0, pos as int) =~= self.next_val@.subrange(0, pos as int));
            lemma_value_step(curr@, self.next_val@, pos as int, self.base as nat);
            assert(odometer_step_at(curr@, self.next_val@, self.base as nat, pos as int));
        }
        Some(curr)
    }
}

/// `base` to the power `len`.
pub fn pow_usize(base: usize, len: usize) -> (r: usize)
    requires
        1 <= base,
        pow(base as int, len as nat) <= usize::MAX,
    ensures
        r == pow(base as int, len as nat),
{
    let mut acc: usize = 1;
    let mut i: usize = 0;
    proof {
        vstd::arithmetic::power::lemma_pow0(base as int);
    }
    while i < len
        invariant
            i <= len,
            1 <= base,
            pow(base as int, len as nat) <= usize::MAX,
            acc == pow(base as int, i as nat),
        decreases len - i,
    {
        proof {
            vstd::arithmetic::power::lemma_pow_increases(base as nat, (i + 1) as nat, len as nat);
            vstd::arithmetic::power::lemma_pow_adds(base as int, i as nat, 1);
            vstd::arithmetic::power::lemma_pow1(base as int);
        }
        acc = acc * base;
        i = i + 1;
    }
    acc
}

/// A well-formed digit sequence of the given length and base.
pub open spec fn is_board(digits: Seq<u32>, len: nat, base: nat) -> bool {
    digits.len() == len && digits_below(digits, base)
}

/// Some entry of `out` from index `from` on is `x`.
pub open spec fn yielded(out: Seq<Vec<u32>>, from: int, x: Seq<u32>) -> bool {
    exists|j: int| from <= j < out.len() && out[j]@ == x
}

/// Appends every sequence that `numbers` still yields to `out`.
fn drain_into(numbers: &mut ZeroPatternNumbers, out: &mut Vec<Vec<u32>>, len: usize)
    requires
        old(numbers).wf(),
        !old(numbers).exhausted(),
        forall|i: int| 0 <= i < len ==> old(numbers).current()[i] <= 1,
        digits_below(old(numbers).current(), old(numbers).base_spec()),
        old(numbers).current().len() == len,
        forall|j: int| 0 <= j < old(out)@.len() ==> is_board(
            #[trigger] old(out)@[j]@,
            len as nat,
            old(numbers).base_spec(),
        ),
    ensures
        final(out)@.len() >= old(out)@.len(),
        forall|j: int| 0 <= j < old(out)@.len() ==> final(out)@[j] == old(out)@[j],
        forall|j: int| 0 <= j < final(out)@.len() ==> is_board(
            #[trigger] final(out)@[j]@,
            len as nat,
            old(numbers).base_spec(),
        ),
        forall|j: int| old(out)@.len() <= j < final(out)@.len() ==> same_zeros(
            #[trigger] final(out)@[j]@,
            old(numbers).current(),
        ),
        forall|j: int, k: int|
            old(out)@.len() <= j < k < final(out)@.len() ==> value_of(
                #[trigger] final(out)@[j]@,
                old(numbers).base_spec(),
            ) < value_of(#[trigger] final(out)@[k]@, old(numbers).base_spec()),
        forall|x: Seq<u32>|
            same_zeros(x, old(numbers).current()) && digits_below(x, old(numbers).base_spec())
                ==> #[trigger] yielded(final(out)@, old(out)@.len() as int, x),
{
    let ghost start = old(numbers).current();
    let ghost base = old(numbers).base_spec();
    let ghost out0 = out@;
    proof {
        lemma_value_bound(numbers.current(), base);
        assert forall|x: Seq<u32>|
            same_zeros(x, start) && digits_below(x, base) && (numbers.exhausted() || value_of(
                x,
                base,
            ) < value_of(numbers.current(), base)) implies #[trigger] yielded(
                out@,
                out0.len() as int,
                x,
            ) by {
            lemma_odometer_first_least(start, x, base);
        }
    }
    loop
        invariant
            numbers.wf(),
            numbers.base_spec() == base,
            base >= 1,
            digits_below(numbers.current(), base),
            value_of(numbers.current(), base) < pow(base as int, len as nat),
            same_zeros(numbers.current(), start),
            start.len() == len,
            out@.len() >= out0.len(),
            forall|j: int| 0 <= j < out0.len() ==> out@[j] == out0[j],
            forall|j: int| 0 <= j < out@.len() ==> is_board(#[trigger] out@[j]@, len as nat, base),
            forall|j: int| out0.len() <= j < out@.len() ==> same_zeros(#[trigger] out@[j]@, start),
            forall|j: int, k: int|
                out0.len() <= j < k < out@.len() ==> value_of(#[trigger] out@[j]@, base) < value_of(
                    #[trigger] out@[k]@,
                    base,
                ),
            !numbers.exhausted() ==> forall|j: int|
                out0.len() <= j < out@.len() ==> value_of(#[trigger] out@[j]@, base) < value_of(
                    numbers.current(),
                    base,
                ),
            forall|x: Seq<u32>|
                same_zeros(x, start) && digits_below(x, base) && (numbers.exhausted() || value_of(
                    x,
                    base,
                ) < value_of(numbers.current(), base)) ==> #[trigger] yielded(
                    out@,
                    out0.len() as int,
                    x,
                ),
        ensures
            numbers.exhausted(),
        decreases (if numbers.exhausted() {
            0
        } else {
            pow(base as int, len as nat) - value_of(numbers.current(), base) + 1
        }),
    {
        let ghost s = numbers.current();
        let ghost out_before = out@;
        let next = numbers.next();
        proof {
            lemma_value_bound(numbers.current(), base);
        }
        match next {
            None => {
                break;
            },
            Some(v) => {
                let ghost before = out@;
                out.push(v);
                proof {
                    assert forall|j: int| 0 <= j < before.len() implies out@[j] == before[j] by {}
                    assert forall|x: Seq<u32>|
                        same_zeros(x, start) && digits_below(x, base) && (numbers.exhausted()
                            || value_of(x, base) < value_of(numbers.current(), base)) implies #[trigger] yielded(
                        out@,
                        out0.len() as int,
                        x,
                    ) by {
                        if numbers.exhausted() {
                            lemma_odometer_last_greatest(s, x, base);
                        } else if value_of(s, base) < value_of(x, base) {
                            lemma_odometer_succ_least(s, numbers.current(), x, base);
                        }
                        if value_of(x, base) == value_of(s, base) {
                            lemma_value_injective(x, s, base);
                            assert(out@[before.len() as int]@ == x);
                        } else {
                            assert(yielded(before, out0.len() as int, x));
                            let j = choose|j: int| out0.len() <= j < before.len() && before[j]@ == x;
                            assert(out@[j]@ == x);
                        }
                    }
                }
            },
        }
    }
}

/// Every `len`-digit number in base `base` that has `num_zeros` zeros among its digits.
pub fn digit_numbers(len: usize, base: usize, num_zeros: usize) -> (r: Vec<Vec<u32>>)
    requires
        1 <= len <= 31,
        2 <= base <= u32::MAX,
        num_zeros <= len,
        pow(base as int, len as nat) <= usize::MAX,
    ensures
        forall|j: int| 0 <= j < r@.len() ==> is_board(#[trigger] r@[j]@, len as nat, base as nat),
        forall|j: int| 0 <= j < r@.len() ==> count_zeros(#[trigger] r@[j]@) == num_zeros,
        forall|j: int, k: int| 0 <= j < k < r@.len() ==> #[trigger] r@[j]@ != #[trigger] r@[k]@,
        forall|b: Seq<u32>|
            is_board(b, len as nat, base as nat) && count_zeros(b) == num_zeros ==> #[trigger] yielded(
                r@,
                0,
                b,
            ),
        r@.len() == binom(len as nat, num_zeros as nat) * pow(
            (base - 1) as int,
            (len - num_zeros) as nat,
        ),
{
    // the bit trick needs at least one set bit, so a board of zeros only is reached
    // through the complement of the full pattern
    let flip = num_zeros == len;
    let num_ones: u32 = if flip { len as u32 } else { (len - num_zeros) as u32 };
    let mut patterns = fixed_pop_bitvalues(len as u32, num_ones, flip);
    let mut out: Vec<Vec<u32>> = Vec::new();
    let ghost mut pats: Seq<u32> = Seq::empty();
    proof {
        assert forall|b: Seq<u32>|
            is_board(b, len as nat, base as nat) && count_zeros(b) == num_zeros && (if flip {
                patterns.done()
            } else {
                pattern_of(b) < patterns.next_val
            }) implies #[trigger] yielded(out@, 0, b) by {
            if !flip {
                lemma_pattern_of(b);
                let pb = pattern_of(b);
                let k = num_ones;
                assert(pb < (1u32 << k)) by (bit_vector)
                    requires pb < (1u32 << k) - 1u32, 1u32 <= k <= 31u32;
                lemma_pop_bounded(pb, k);
                lemma_low_mask(k);
            }
        }
    }
    loop
        invariant
            pats.len() == out@.len(),
            forall|j: int| 0 <= j < out@.len() ==> follows_pattern(#[trigger] out@[j]@, pats[j], len as nat),
            !flip ==> forall|j: int|
                0 <= j < out@.len() ==> #[trigger] pats[j] < patterns.next_val && pats[j] < patterns.limit,
            flip && patterns.next_val == patterns.limit - 1 ==> out@.len() == 0,
            flip ==> forall|j: int| 0 <= j < out@.len() ==> #[trigger] pats[j] == !((patterns.limit - 1) as u32),
            forall|j: int, k: int|
                0 <= j < k < out@.len() ==> #[trigger] in_order(out@, pats, base as nat, j, k),
            patterns.wf(),
            1 <= len <= 31,
            2 <= base <= u32::MAX,
            num_zeros <= len,
            patterns.limit == 1u32 << len as u32,
            patterns.flip == flip,
            flip == (num_zeros == len),
            !flip ==> popcount(patterns.next_val) == len - num_zeros,
            flip ==> patterns.next_val == patterns.limit - 1 || patterns.done(),
            forall|j: int| 0 <= j < out@.len() ==> is_board(#[trigger] out@[j]@, len as nat, base as nat),
            forall|j: int| 0 <= j < out@.len() ==> count_zeros(#[trigger] out@[j]@) == num_zeros,
            forall|b: Seq<u32>|
                is_board(b, len as nat, base as nat) && count_zeros(b) == num_zeros && (if flip {
                    patterns.done()
                } else {
                    pattern_of(b) < patterns.next_val
                }) ==> #[trigger] yielded(out@, 0, b),
        ensures
            patterns.done(),
        decreases (if patterns.next_val < patterns.limit { patterns.limit - patterns.next_val } else { 0 }),
    {
        let ghost before = patterns.next_val;
        match patterns.next() {
            None => {
                break;
            },
            Some(pattern) => {
                assert(!flip ==> pattern == before && pattern < patterns.limit);
                assert(flip ==> pattern == !((patterns.limit - 1) as u32));
                let mut numbers = ZeroPatternNumbers::new(pattern, len, base as u32);
                proof {
                    let lu = len as u32;
                    if flip {
                        assert forall|i: u32| i < len implies #[trigger] bit_spec(pattern, i) == 0 by {
                            assert(((!vstd::prelude::sub(1u32 << lu, 1u32)) >> i) & 1u32 == 0u32)
                                by (bit_vector)
                                requires i < lu, lu <= 31u32;
                            lemma_low_mask(lu);
                        }
                        lemma_pop_below_clear(pattern, len as nat);
                    } else {
                        lemma_pop_high_clear(pattern, len as nat, 32);
                    }
                    lemma_zeros_of_pattern(numbers.current(), pattern, len as nat);
                }
                let ghost out0 = out@;
                let ghost start = numbers.current();
                drain_into(&mut numbers, &mut out, len);
                proof {
                    assert forall|b: Seq<u32>|
                        is_board(b, len as nat, base as nat) && count_zeros(b) == num_zeros && (if flip {
                            patterns.done()
                        } else {
                            pattern_of(b) < patterns.next_val
                        }) implies #[trigger] yielded(out@, 0, b) by {
                        lemma_pattern_of(b);
                        let pb = pattern_of(b);
                        assert(follows_pattern(start, pattern, len as nat));
                        if flip {
                            lemma_all_zero_count(b);
                            assert forall|i: int| 0 <= i < len implies start[i] == 0 by {
                                let k: int = len - 1 - i;
                                let ku = k as u32;
                                assert(ku < len);
                                assert(bit_spec(pattern, ku) == 0);
                                assert((start[len - 1 - k] == 0) == (bit_spec(pattern, k as u32) == 0));
                            }
                            assert(same_zeros(b, start));
                            assert(yielded(out@, out0.len() as int, b));
                        } else if pb == pattern {
                            lemma_same_pattern(b, start, pattern, len as nat);
                            assert(yielded(out@, out0.len() as int, b));
                        } else if pb < pattern {
                            assert(yielded(out0, 0, b));
                            let j = choose|j: int| 0 <= j < out0.len() && out0[j]@ == b;
                            assert(out@[j] == out0[j]);
                        } else {
                            lemma_gosper_least(pattern, pb);
                        }
                        if flip || pb == pattern {
                            let j = choose|j: int| out0.len() <= j < out@.len() && out@[j]@ == b;
                            assert(0 <= j < out@.len() && out@[j]@ == b);
                        }
                    }
                }
                proof {
                    let pats0 = pats;
                    pats = pats0 + Seq::new((out@.len() - out0.len()) as nat, |i: int| pattern);
                    assert forall|j: int| 0 <= j < out@.len() implies follows_pattern(
                        #[trigger] out@[j]@,
                        pats[j],
                        len as nat,
                    ) by {
                        if j >= out0.len() {
                            assert(same_zeros(out@[j]@, start));
                            assert(pats[j] == pattern);
                        } else {
                            assert(out@[j] == out0[j]);
                            assert(pats[j] == pats0[j]);
                        }
                    }
                    assert forall|j: int, k: int| 0 <= j < k < out@.len() implies #[trigger] in_order(
                        out@,
                        pats,
                        base as nat,
                        j,
                        k,
                    ) by {
                        if k < out0.len() {
                            assert(out@[j] == out0[j] && out@[k] == out0[k]);
                            assert(pats[j] == pats0[j] && pats[k] == pats0[k]);
                            assert(in_order(out0, pats0, base as nat, j, k));
                        } else if j < out0.len() {
                            assert(pats[j] == pats0[j] && pats[k] == pattern);
                            assert(out@[j] == out0[j]);
                        } else {
                            assert(pats[j] == pattern && pats[k] == pattern);
                        }
                    }
                }
                proof {
                    assert forall|j: int| 0 <= j < out@.len() implies count_zeros(#[trigger] out@[j]@)
                        == num_zeros by {
                        if j >= out0.len() {
                            lemma_same_zeros_count(out@[j]@, start);
                        } else {
                            assert(out@[j] == out0[j]);
                        }
                    }
                }
            },
        }
    }
    proof {
        assert forall|b: Seq<u32>|
            is_board(b, len as nat, base as nat) && count_zeros(b) == num_zeros implies #[trigger] yielded(
                out@,
                0,
                b,
            ) by {
            if !flip {
                lemma_pattern_of(b);
            }
        }
        assert forall|j: int, k: int| 0 <= j < k < out@.len() implies #[trigger] out@[j]@
            != #[trigger] out@[k]@ by {
            assert(in_order(out@, pats, base as nat, j, k));
            if out@[j]@ == out@[k]@ {
                if pats[j] != pats[k] {
                    let lu = len as u32;
                    assert(!flip);
                    assert forall|i: u32| i < len implies #[trigger] bit_spec(pats[j], i) == bit_spec(
                        pats[k],
                        i,
                    ) by {
                        let ii = i as int;
                        assert(follows_pattern(out@[j]@, pats[j], len as nat));
                        assert(follows_pattern(out@[k]@, pats[k], len as nat));
                        lemma_bit_shift(pats[j], i);
                        lemma_bit_shift(pats[k], i);
                        assert(bit_spec(pats[j], ii as u32) == bit_spec(pats[j], i));
                        assert(bit_spec(pats[k], ii as u32) == bit_spec(pats[k], i));
                    }
                    lemma_bits_determine(pats[j], pats[k], len as nat);
                }
            }
        }
        let rv = out@.map_values(|v: Vec<u32>| v@);
        assert forall|i: int, j: int| 0 <= i < rv.len() && 0 <= j < rv.len() && i != j implies rv[i]
            != rv[j] by {
            if i < j {
                assert(out@[i]@ != out@[j]@);
            } else {
                assert(out@[j]@ != out@[i]@);
            }
        }
        assert(rv.no_duplicates());
        let all = boards(len as nat, base as nat, num_zeros as nat);
        assert forall|x: Seq<u32>| rv.to_set().contains(x) <==> all.contains(x) by {
            if all.contains(x) {
                assert(yielded(out@, 0, x));
                let j = choose|j: int| 0 <= j < out@.len() && out@[j]@ == x;
                assert(rv[j] == x);
            }
            if rv.to_set().contains(x) {
                let j = choose|j: int| 0 <= j < rv.len() && rv[j] == x;
                assert(out@[j]@ == x);
            }
        }
        assert(rv.to_set() =~= all);
        rv.unique_seq_to_set();
        lemma_boards_count(len as nat, base as nat, num_zeros as nat);
        lemma_board_count_closed(len as nat, base as nat, num_zeros as nat);
    }
    out
}

/// Every `len`-digit number in base `base` without a zero among its digits.
pub fn digit_numbers_no_zero(len: usize, base: usize) -> (r: Vec<Vec<u32>>)
    requires
        1 <= len <= 31,
        2 <= base <= u32::MAX,
        pow(base as int, len as nat) <= usize::MAX,
    ensures
        forall|j: int| 0 <= j < r@.len() ==> is_board(#[trigger] r@[j]@, len as nat, base as nat),
        forall|j: int, i: int| 0 <= j < r@.len() && 0 <= i < len ==> 1 <= #[trigger] r@[j]@[i],
        forall|j: int, k: int| 0 <= j < k < r@.len() ==> #[trigger] r@[j]@ != #[trigger] r@[k]@,
        forall|x: Seq<u32>|
            is_board(x, len as nat, base as nat) && (forall|i: int| 0 <= i < len ==> x[i] != 0)
                ==> #[trigger] yielded(r@, 0, x),
{
    let all: u32 = 0xFFFF_FFFFu32;
    assert(forall|i: u32| i < 32 ==> #[trigger] bit_spec(all, i) == 1) by {
        assert forall|i: u32| i < 32 implies #[trigger] bit_spec(all, i) == 1 by {
            assert((0xFFFF_FFFFu32 >> i) & 1u32 == 1u32) by (bit_vector)
                requires i < 32;
        }
    }
    let mut numbers = ZeroPatternNumbers::new(all, len, base as u32);
    assert forall|i: int| 0 <= i < len implies numbers.current()[i] != 0 by {
        assert(bit_spec(all, (len - 1 - i) as u32) == 1);
    }
    let mut out: Vec<Vec<u32>> = Vec::new();
    let ghost start = numbers.current();
    drain_into(&mut numbers, &mut out, len);
    assert forall|x: Seq<u32>|
        is_board(x, len as nat, base as nat) && (forall|i: int| 0 <= i < len ==> x[i] != 0)
            implies #[trigger] yielded(out@, 0, x) by {
        assert(same_zeros(x, start));
    }
    assert forall|j: int, k: int| 0 <= j < k < out@.len() implies #[trigger] out@[j]@
        != #[trigger] out@[k]@ by {
        assert(value_of(out@[j]@, base as nat) < value_of(out@[k]@, base as nat));
    }
    out
}

} // verus!
