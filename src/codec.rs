use vstd::prelude::*;
use vstd::arithmetic::power::pow;

verus! {

/// The number that a digit sequence spells in the given base, most significant digit first.
pub open spec fn value_of(digits: Seq<u32>, base: nat) -> nat
    decreases digits.len(),
{
    if digits.len() == 0 {
        0
    } else {
        value_of(digits.drop_last(), base) * base + digits.last() as nat
    }
}

/// Every digit of the sequence is below the base.
pub open spec fn digits_below(digits: Seq<u32>, base: nat) -> bool {
    forall|i: int| 0 <= i < digits.len() ==> (digits[i] as nat) < base
}

/// The `len` digits, most significant first, of `v` in the given base.
pub open spec fn digits_of(v: nat, len: nat, base: nat) -> Seq<u32>
    decreases len,
{
    if len == 0 {
        Seq::empty()
    } else {
        digits_of(v / base, (len - 1) as nat, base).push((v % base) as u32)
    }
}

pub proof fn lemma_value_bound(digits: Seq<u32>, base: nat)
    requires
        base >= 1,
        digits_below(digits, base),
    ensures
        value_of(digits, base) < pow(base as int, digits.len()),
    decreases digits.len(),
{
    if digits.len() > 0 {
        let d = digits.drop_last();
        lemma_value_bound(d, base);
        let v = value_of(d, base);
        let p = pow(base as int, d.len());
        assert(digits.len() == d.len() + 1);
        vstd::arithmetic::power::lemma_pow_adds(base as int, d.len(), 1);
        vstd::arithmetic::power::lemma_pow1(base as int);
        assert(v + 1 <= p);
        assert((v + 1) * base <= p * base) by (nonlinear_arith)
            requires v + 1 <= p, base >= 1;
        assert(value_of(digits, base) == v * base + digits.last() as nat);
        assert(v * base + digits.last() < (v + 1) * base) by (nonlinear_arith)
            requires digits.last() < base;
    } else {
        vstd::arithmetic::power::lemma_pow0(base as int);
    }
}

/// Decoding the value of a sequence of valid digits gives the sequence back.
pub proof fn lemma_round_trip(digits: Seq<u32>, base: nat)
    requires
        2 <= base <= u32::MAX,
        digits_below(digits, base),
    ensures
        digits_of(value_of(digits, base), digits.len(), base) == digits,
    decreases digits.len(),
{
    if digits.len() > 0 {
        let d = digits.drop_last();
        let v = value_of(d, base);
        let last = digits.last() as nat;
        lemma_round_trip(d, base);
        vstd::arithmetic::div_mod::lemma_fundamental_div_mod_converse(
            (v * base + last) as int, base as int, v as int, last as int);
        assert(digits_of(value_of(digits, base), digits.len(), base) =~= digits);
    }
}

/// Every value below `base^len` is the value of its `len` digits, and those digits are valid.
pub proof fn lemma_digits_round_trip(v: nat, len: nat, base: nat)
    requires
        2 <= base <= u32::MAX,
        v < pow(base as int, len),
    ensures
        digits_of(v, len, base).len() == len,
        digits_below(digits_of(v, len, base), base),
        value_of(digits_of(v, len, base), base) == v,
    decreases len,
{
    if len == 0 {
        vstd::arithmetic::power::lemma_pow0(base as int);
    } else {
        let q = v / base;
        let d = digits_of(v, len, base);
        vstd::arithmetic::power::lemma_pow_adds(base as int, (len - 1) as nat, 1);
        vstd::arithmetic::power::lemma_pow1(base as int);
        let p = pow(base as int, (len - 1) as nat);
        assert(q < p) by (nonlinear_arith)
            requires v < p * base, q == v / base, base >= 2;
        lemma_digits_round_trip(q, (len - 1) as nat, base);
        assert(d.drop_last() =~= digits_of(q, (len - 1) as nat, base));
        vstd::arithmetic::div_mod::lemma_fundamental_div_mod(v as int, base as int);
        vstd::arithmetic::div_mod::lemma_mod_bound(v as int, base as int);
        assert(d.last() as nat == v % base);
        assert(value_of(d, base) == q * base + v % base);
        let rm = v % base;
        assert(q * base + rm == v) by (nonlinear_arith)
            requires v == base * q + rm;
        assert forall|i: int| 0 <= i < d.len() implies (d[i] as nat) < base by {
            if i < d.len() - 1 {
                assert(d.drop_last()[i] == d[i]);
            }
        }
    }
}

/// Two sequences of valid digits of one length with the same value are equal.
pub proof fn lemma_value_injective(a: Seq<u32>, b: Seq<u32>, base: nat)
    requires
        2 <= base <= u32::MAX,
        digits_below(a, base),
        digits_below(b, base),
        a.len() == b.len(),
        value_of(a, base) == value_of(b, base),
    ensures
        a == b,
{
    lemma_round_trip(a, base);
    lemma_round_trip(b, base);
}

pub proof fn lemma_value_concat(a: Seq<u32>, b: Seq<u32>, base: nat)
    ensures
        value_of(a + b, base) == value_of(a, base) * pow(base as int, b.len()) + value_of(b, base),
    decreases b.len(),
{
    if b.len() == 0 {
        assert(a + b =~= a);
        vstd::arithmetic::power::lemma_pow0(base as int);
    } else {
        let bd = b.drop_last();
        lemma_value_concat(a, bd, base);
        assert((a + b).drop_last() =~= a + bd);
        vstd::arithmetic::power::lemma_pow_adds(base as int, bd.len(), 1);
        vstd::arithmetic::power::lemma_pow1(base as int);
        let va = value_of(a, base);
        let p = pow(base as int, bd.len());
        let vb = value_of(bd, base);
        assert((va * p + vb) * base + b.last() == va * (p * base) + (vb * base + b.last()))
            by (nonlinear_arith);
    }
}

/// Of two sequences that agree before `pos`, the one with the larger digit at `pos` has the
/// larger value, whatever valid digits follow.
pub proof fn lemma_value_step(s: Seq<u32>, t: Seq<u32>, pos: int, base: nat)
    requires
        base >= 1,
        s.len() == t.len(),
        0 <= pos < s.len(),
        digits_below(s, base),
        digits_below(t, base),
        s.subrange(0, pos) == t.subrange(0, pos),
        s[pos] < t[pos],
    ensures
        value_of(s, base) < value_of(t, base),
{
    let pre = s.subrange(0, pos);
    let ss = s.subrange(pos + 1, s.len() as int);
    let ts = t.subrange(pos + 1, t.len() as int);
    let hs = pre.push(s[pos]);
    let ht = pre.push(t[pos]);
    assert(s =~= hs + ss);
    assert(t =~= ht + ts);
    lemma_value_concat(hs, ss, base);
    lemma_value_concat(ht, ts, base);
    assert(hs.drop_last() =~= pre);
    assert(ht.drop_last() =~= pre);
    assert(digits_below(ss, base));
    lemma_value_bound(ss, base);
    let k = pow(base as int, ss.len());
    let vp = value_of(pre, base);
    let vs = value_of(ss, base);
    let vt = value_of(ts, base);
    let d = s[pos] as int;
    let e = t[pos] as int;
    assert((vp * base + d) * k + vs < (vp * base + e) * k + vt) by (nonlinear_arith)
        requires vs < k, vt >= 0, d + 1 <= e, k >= 0;
}

/// A sequence that is digit by digit at most another has at most its value.
pub proof fn lemma_value_mono(s: Seq<u32>, t: Seq<u32>, base: nat)
    requires
        s.len() == t.len(),
        forall|i: int| 0 <= i < s.len() ==> s[i] <= t[i],
    ensures
        value_of(s, base) <= value_of(t, base),
    decreases s.len(),
{
    if s.len() > 0 {
        lemma_value_mono(s.drop_last(), t.drop_last(), base);
        let a = value_of(s.drop_last(), base);
        let b = value_of(t.drop_last(), base);
        assert(a * base <= b * base) by (nonlinear_arith)
            requires a <= b;
    }
}

/// The first position at or after `n` at which two sequences that agree before `n` differ.
pub proof fn lemma_first_difference(s: Seq<u32>, t: Seq<u32>, n: int) -> (d: int)
    requires
        s.len() == t.len(),
        s != t,
        0 <= n <= s.len(),
        forall|e: int| 0 <= e < n ==> s[e] == t[e],
    ensures
        n <= d < s.len(),
        s[d] != t[d],
        s.subrange(0, d) == t.subrange(0, d),
    decreases s.len() - n,
{
    if n == s.len() {
        assert(s =~= t);
        n
    } else if s[n] != t[n] {
        assert(s.subrange(0, n) =~= t.subrange(0, n));
        n
    } else {
        lemma_first_difference(s, t, n + 1)
    }
}

/// Reads `digits` as a number in base `base`, most significant digit first.
pub fn to_value(digits: &[u32], base: usize) -> (r: usize)
    requires
        2 <= base <= u32::MAX,
        digits_below(digits@, base as nat),
        pow(base as int, digits@.len()) <= usize::MAX,
    ensures
        r == value_of(digits@, base as nat),
{
    let mut acc: usize = 0;
    let mut i: usize = 0;
    while i < digits.len()
        invariant
            i <= digits@.len(),
            2 <= base <= u32::MAX,
            digits_below(digits@, base as nat),
            pow(base as int, digits@.len()) <= usize::MAX,
            acc == value_of(digits@.subrange(0, i as int), base as nat),
        decreases digits@.len() - i,
    {
        let ghost pre = digits@.subrange(0, i as int);
        let ghost next = digits@.subrange(0, i + 1);
        assert(next.drop_last() =~= pre);
        proof {
            assert(digits_below(next, base as nat));
            lemma_value_bound(next, base as nat);
            vstd::arithmetic::power::lemma_pow_increases(base as nat, next.len(), digits@.len());
        }
        acc = acc * base + digits[i] as usize;
        i = i + 1;
    }
    assert(digits@.subrange(0, i as int) =~= digits@);
    acc
}

/// The `len` digits, most significant first, of `v` in base `base`.
pub fn from_value(v: usize, len: usize, base: usize) -> (r: Vec<u32>)
    requires
        2 <= base <= u32::MAX,
    ensures
        r@ == digits_of(v as nat, len as nat, base as nat),
        digits_below(r@, base as nat),
{
    let mut digits: Vec<u32> = Vec::new();
    let mut rest: usize = v;
    let mut k: usize = 0;
    while k < len
        invariant
            k <= len,
            2 <= base <= u32::MAX,
            digits_of(v as nat, len as nat, base as nat)
                == digits_of(rest as nat, (len - k) as nat, base as nat) + digits@,
            digits_below(digits@, base as nat),
        decreases len - k,
    {
        let d = (rest % base) as u32;
        proof {
            assert(digits_of(rest as nat, (len - k) as nat, base as nat)
                == digits_of((rest / base) as nat, (len - k - 1) as nat, base as nat).push(d));
        }
        let ghost old_digits = digits@;
        digits.insert(0, d);
        assert(digits@ =~= seq![d] + old_digits);
        assert(digits_of((rest / base) as nat, (len - k - 1) as nat, base as nat).push(d)
            + old_digits =~= digits_of((rest / base) as nat, (len - k - 1) as nat, base as nat)
            + digits@);
        rest = rest / base;
        k = k + 1;
    }
    assert(digits_of(rest as nat, 0, base as nat) + digits@ =~= digits@);
    digits
}

} // verus!
