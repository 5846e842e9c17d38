use vstd::prelude::*;
use crate::counting::bit_spec;

verus! {

/// The number of set bits of `x` among its `n` lowest bits.
pub open spec fn pop_below(x: u32, n: nat) -> nat
    decreases n,
{
    if n == 0 {
        0
    } else {
        pop_below(x, (n - 1) as nat) + bit_spec(x, (n - 1) as u32) as nat
    }
}

/// A bit is zero or one, and shifting right by one moves bit `i + 1` to `i`.
pub proof fn lemma_bit_shift(x: u32, i: u32)
    requires
        i < 32,
    ensures
        bit_spec(x, i) <= 1,
        i < 31 ==> bit_spec(x >> 1u32, i) == bit_spec(x, (i + 1) as u32),
{
    let j = (i + 1) as u32;
    assert((x >> i) & 1u32 <= 1u32 && (i < 31u32 ==> ((x >> 1u32) >> i) & 1u32 == (x >> j) & 1u32))
        by (bit_vector)
        requires i < 32u32, i < 31u32 ==> j == i + 1u32;
}

/// Facts on the value one.
pub proof fn lemma_one()
    ensures
        1u32 << 0u32 == 1u32,
        1u32 >> 1u32 == 0u32,
        (1u32 >> 0u32) & 1u32 == 1u32,
        vstd::prelude::sub(1u32 << 0u32, 1u32) == 0u32,
{
    assert(1u32 << 0u32 == 1u32 && 1u32 >> 1u32 == 0u32 && (1u32 >> 0u32) & 1u32 == 1u32
        && vstd::prelude::sub(1u32 << 0u32, 1u32) == 0u32) by (bit_vector);
}

/// `2^k - 1` does not wrap for a positive `k` below 32.
pub proof fn lemma_low_mask(k: u32)
    requires
        1 <= k <= 31,
    ensures
        (1u32 << k) >= 2,
        vstd::prelude::sub(1u32 << k, 1u32) == (1u32 << k) - 1,
{
    assert((1u32 << k) >= 2u32 && vstd::prelude::sub(1u32 << k, 1u32) == (1u32 << k) - 1u32)
        by (bit_vector)
        requires 1u32 <= k <= 31u32;
}

/// The lowest set bit `r` of a nonzero `c` is a single bit no larger than `c`, and below
/// `2^31` adding it to `c` does not wrap.
pub proof fn lemma_lowest_bit(c: u32)
    requires
        c != 0,
    ensures
        ({
            let r = c & vstd::prelude::add(!c, 1u32);
            &&& r <= c
            &&& r != 0
            &&& r & vstd::prelude::sub(r, 1u32) == 0
            &&& c < 0x8000_0000 ==> (c + r) as u32 == vstd::prelude::add(c, r)
        }),
{
    let r = c & vstd::prelude::add(!c, 1u32);
    assert(r <= c && r != 0 && r & vstd::prelude::sub(r, 1u32) == 0) by (bit_vector)
        requires r == c & vstd::prelude::add(!c, 1u32), c != 0u32;
}

/// The number of set bits of `x`.
pub open spec fn popcount(x: u32) -> nat {
    pop_below(x, 32)
}

pub proof fn lemma_pop_or(x: u32, y: u32, n: nat)
    requires
        x & y == 0,
        n <= 32,
    ensures
        pop_below(x | y, n) == pop_below(x, n) + pop_below(y, n),
    decreases n,
{
    if n > 0 {
        lemma_pop_or(x, y, (n - 1) as nat);
        let i = (n - 1) as u32;
        assert((((x | y) >> i) & 1u32) == ((x >> i) & 1u32) + ((y >> i) & 1u32)) by (bit_vector)
            requires x & y == 0u32, i < 32u32;
    }
}

pub proof fn lemma_pop_shr1_below(x: u32, n: nat)
    requires
        n <= 31,
    ensures
        pop_below(x >> 1u32, n) + bit_spec(x, 0) == pop_below(x, n + 1),
    decreases n,
{
    if n > 0 {
        lemma_pop_shr1_below(x, (n - 1) as nat);
        let i = (n - 1) as u32;
        let j = n as u32;
        lemma_bit_shift(x, i);
        assert(pop_below(x, n + 1) == pop_below(x, n) + bit_spec(x, j));
        assert(pop_below(x >> 1u32, n) == pop_below(x >> 1u32, (n - 1) as nat) + bit_spec(
            x >> 1u32,
            i,
        ));
    } else {
        assert(pop_below(x, 1) == pop_below(x, 0) + bit_spec(x, 0));
    }
}

pub proof fn lemma_pop_shr1(x: u32)
    ensures
        popcount(x >> 1u32) + bit_spec(x, 0) == popcount(x),
{
    lemma_pop_shr1_below(x, 31);
    assert((((x >> 1u32) >> 31u32) & 1u32) == 0u32) by (bit_vector);
}

pub proof fn lemma_pop_zero(n: nat)
    requires
        n <= 32,
    ensures
        pop_below(0, n) == 0,
    decreases n,
{
    if n > 0 {
        lemma_pop_zero((n - 1) as nat);
        let i = (n - 1) as u32;
        assert(((0u32 >> i) & 1u32) == 0u32) by (bit_vector);
    }
}

/// A value with a single set bit has one set bit.
pub proof fn lemma_pop_single(x: u32)
    requires
        x != 0,
        x & vstd::prelude::sub(x, 1) == 0,
    ensures
        popcount(x) == 1,
    decreases x,
{
    lemma_pop_shr1(x);
    if x == 1 {
        lemma_one();
        lemma_pop_zero(32);
    } else {
        let y = x >> 1u32;
        assert(y != 0 && y & vstd::prelude::sub(y, 1) == 0 && y < x && (x >> 0u32) & 1u32 == 0u32) by (bit_vector)
            requires x != 0u32, x != 1u32, x & vstd::prelude::sub(x, 1u32) == 0u32, y == x >> 1u32;
        lemma_pop_single(y);
    }
}

/// `2^k - 1` has `k` set bits.
pub proof fn lemma_pop_low_ones(k: u32)
    requires
        1 <= k <= 31,
    ensures
        popcount(vstd::prelude::sub(1u32 << k, 1)) == k,
    decreases k,
{
    let x = vstd::prelude::sub(1u32 << k, 1);
    lemma_pop_shr1(x);
    assert((x >> 0u32) & 1u32 == 1u32) by (bit_vector)
        requires x == vstd::prelude::sub(1u32 << k, 1u32), 1u32 <= k <= 31u32;
    if k == 1 {
        assert(x >> 1u32 == 0u32) by (bit_vector)
            requires x == vstd::prelude::sub(1u32 << k, 1u32), k == 1u32;
        lemma_pop_zero(32);
    } else {
        assert(x >> 1u32 == vstd::prelude::sub(1u32 << vstd::prelude::sub(k, 1), 1u32)) by (bit_vector)
            requires x == vstd::prelude::sub(1u32 << k, 1u32), 2u32 <= k <= 31u32;
        lemma_pop_low_ones((k - 1) as u32);
    }
}

/// Dividing by the lowest set bit shifts the bits down and keeps their number.
proof fn lemma_pop_div_lowest(x: u32, r: u32)
    requires
        x != 0,
        r == x & vstd::prelude::add(!x, 1u32),
    ensures
        popcount(x / r) == popcount(x),
    decreases r,
{
    lemma_lowest_bit(x);
    if r != 1 {
        let y = x >> 1u32;
        let q = r >> 1u32;
        assert((x >> 0u32) & 1u32 == 0u32 && y != 0 && q == y & vstd::prelude::add(!y, 1u32) && q < r
            && q != 0) by (bit_vector)
            requires
                x != 0u32,
                r == x & vstd::prelude::add(!x, 1u32),
                r != 1u32,
                y == x >> 1u32,
                q == r >> 1u32;
        assert(x == y * 2 && r == q * 2) by (bit_vector)
            requires
                x != 0u32,
                r == x & vstd::prelude::add(!x, 1u32),
                r != 1u32,
                y == x >> 1u32,
                q == r >> 1u32;
        vstd::arithmetic::div_mod::lemma_div_multiples_vanish_quotient(2, y as int, q as int);
        assert(x / r == y / q) by (nonlinear_arith)
            requires x == y * 2, r == q * 2, (y as int) / (q as int) == (2 * y) / (2 * q);
        lemma_pop_shr1(x);
        lemma_pop_div_lowest(y, q);
    }
}

/// One step of the bit trick that moves to the next value with as many set bits.
pub open spec fn gosper_step(c: u32) -> u32 {
    let r = c & vstd::prelude::add(!c, 1u32);
    let m = (c + r) as u32;
    (((m ^ c) >> 2u32) / r) | m
}

/// The step keeps the number of set bits.
pub proof fn lemma_gosper_pop(c: u32)
    requires
        c != 0,
        c < 0x8000_0000,
    ensures
        popcount(gosper_step(c)) == popcount(c),
{
    let r = c & vstd::prelude::add(!c, 1u32);
    lemma_lowest_bit(c);
    let m = (c + r) as u32;
    let x = m ^ c;
    let y = x / r;
    let low = (x >> 2u32) / r;
    let top = m & !c;
    assert((c & m) & (c & !m) == 0 && c == (c & m) | (c & !m) && (c & m) & top == 0 && m == (c & m)
        | top) by (bit_vector)
        requires top == m & !c;
    assert(top != 0 && top & vstd::prelude::sub(top, 1u32) == 0) by (bit_vector)
        requires
            c != 0u32,
            c < 0x8000_0000u32,
            r == c & vstd::prelude::add(!c, 1u32),
            m == vstd::prelude::add(c, r),
            top == m & !c;
    assert((c & !m) & top == 0 && x == (c & !m) | top) by (bit_vector)
        requires top == m & !c, x == m ^ c;
    assert(x != 0 && r == x & vstd::prelude::add(!x, 1u32)) by (bit_vector)
        requires
            c != 0u32,
            c < 0x8000_0000u32,
            r == c & vstd::prelude::add(!c, 1u32),
            m == vstd::prelude::add(c, r),
            x == m ^ c;
    assert(low == (y >> 1u32) >> 1u32 && (y >> 0u32) & 1u32 == 1u32 && ((y >> 1u32) >> 0u32) & 1u32
        == 1u32 && low & m == 0) by (bit_vector)
        requires
            c != 0u32,
            c < 0x8000_0000u32,
            r == c & vstd::prelude::add(!c, 1u32),
            m == vstd::prelude::add(c, r),
            x == m ^ c,
            y == x / r,
            low == (x >> 2u32) / r;
    lemma_pop_or(c & m, c & !m, 32);
    lemma_pop_or(c & m, top, 32);
    lemma_pop_single(top);
    lemma_pop_or(c & !m, top, 32);
    lemma_pop_div_lowest(x, r);
    lemma_pop_shr1(y);
    lemma_pop_shr1(y >> 1u32);
    lemma_pop_or(low, m, 32);
    assert(gosper_step(c) == low | m);
}

/// Bits at or above `n` are clear in a value below `2^n`.
pub proof fn lemma_pop_high_clear(x: u32, n: nat, m: nat)
    requires
        n <= m <= 32,
        n <= 31,
        x < (1u32 << (n as u32)),
    ensures
        pop_below(x, m) == pop_below(x, n),
    decreases m,
{
    if m > n {
        lemma_pop_high_clear(x, n, (m - 1) as nat);
        let i = (m - 1) as u32;
        let nn = n as u32;
        assert((x >> i) & 1u32 == 0u32) by (bit_vector)
            requires x < (1u32 << nn), nn <= i, i < 32u32, nn <= 31u32;
    }
}

/// A value none of whose `n` lowest bits is set has no set bit below `n`.
pub proof fn lemma_pop_below_clear(x: u32, n: nat)
    requires
        n <= 32,
        forall|i: u32| i < n ==> #[trigger] bit_spec(x, i) == 0,
    ensures
        pop_below(x, n) == 0,
    decreases n,
{
    if n > 0 {
        lemma_pop_below_clear(x, (n - 1) as nat);
    }
}

/// Two values below `2^n` that agree on their `n` lowest bits are equal.
pub proof fn lemma_bits_determine(x: u32, y: u32, n: nat)
    requires
        n <= 31,
        x < (1u32 << (n as u32)),
        y < (1u32 << (n as u32)),
        forall|i: u32| i < n ==> #[trigger] bit_spec(x, i) == bit_spec(y, i),
    ensures
        x == y,
    decreases n,
{
    let nn = n as u32;
    if n == 0 {
        lemma_one();
    } else {
        let xs = x >> 1u32;
        let ys = y >> 1u32;
        let mm = (n - 1) as u32;
        assert(xs < (1u32 << mm) && ys < (1u32 << mm)) by (bit_vector)
            requires xs == x >> 1u32, ys == y >> 1u32, x < (1u32 << nn), y < (1u32 << nn), 1u32 <= nn
                <= 31u32, mm == nn - 1u32;
        assert forall|i: u32| i < n - 1 implies #[trigger] bit_spec(xs, i) == bit_spec(ys, i) by {
            let j = (i + 1) as u32;
            assert(bit_spec(x, j) == bit_spec(y, j));
            lemma_bit_shift(x, i);
            lemma_bit_shift(y, i);
        }
        lemma_bits_determine(xs, ys, (n - 1) as nat);
        assert(bit_spec(x, 0) == bit_spec(y, 0));
        assert(x == y) by (bit_vector)
            requires x >> 1u32 == y >> 1u32, (x >> 0u32) & 1u32 == (y >> 0u32) & 1u32;
    }
}

/// The position of the single set bit of `r`.
pub proof fn lemma_log2(r: u32) -> (t: u32)
    requires
        r != 0,
        r & vstd::prelude::sub(r, 1u32) == 0,
    ensures
        t < 32,
        r == 1u32 << t,
    decreases r,
{
    if r == 1 {
        lemma_one();
        0
    } else {
        let q = r >> 1u32;
        assert(q != 0 && q & vstd::prelude::sub(q, 1u32) == 0 && q < r && r == q << 1u32) by (bit_vector)
            requires r != 0u32, r != 1u32, r & vstd::prelude::sub(r, 1u32) == 0u32, q == r >> 1u32;
        let t = lemma_log2(q);
        assert(t < 31 && r == 1u32 << vstd::prelude::add(t, 1u32)) by (bit_vector)
            requires q == 1u32 << t, t < 32u32, r == q << 1u32, q != 0u32, r != 0u32;
        (t + 1) as u32
    }
}

/// A nonzero value has a set bit.
pub proof fn lemma_pop_nonzero(x: u32)
    requires
        x != 0,
    ensures
        popcount(x) >= 1,
    decreases x,
{
    lemma_pop_shr1(x);
    let y = x >> 1u32;
    if (x >> 0u32) & 1u32 == 0 {
        assert(y != 0 && y < x) by (bit_vector)
            requires x != 0u32, (x >> 0u32) & 1u32 == 0u32, y == x >> 1u32;
        lemma_pop_nonzero(y);
    }
}

/// The bits of `x` split at position `j` into those of `x >> j` and those of the low part.
pub proof fn lemma_pop_split(x: u32, j: u32)
    requires
        j <= 31,
    ensures
        popcount(x) == popcount(x >> j) + popcount(x & vstd::prelude::sub(1u32 << j, 1u32)),
    decreases j,
{
    if j == 0 {
        assert(x >> 0u32 == x && x & vstd::prelude::sub(1u32 << 0u32, 1u32) == 0u32) by (bit_vector);
        lemma_pop_zero(32);
    } else {
        let i = (j - 1) as u32;
        let y = x >> 1u32;
        let lo = x & vstd::prelude::sub(1u32 << j, 1u32);
        let lo1 = y & vstd::prelude::sub(1u32 << i, 1u32);
        lemma_pop_split(y, i);
        lemma_pop_shr1(x);
        lemma_pop_shr1(lo);
        assert(y >> i == x >> j && lo >> 1u32 == lo1 && (lo >> 0u32) & 1u32 == (x >> 0u32) & 1u32)
            by (bit_vector)
            requires
                1u32 <= j <= 31u32,
                i == j - 1u32,
                y == x >> 1u32,
                lo == x & vstd::prelude::sub(1u32 << j, 1u32),
                lo1 == y & vstd::prelude::sub(1u32 << i, 1u32);
    }
}

/// A value below `2^j` has at most `j` set bits, and `j` only when it is `2^j - 1`.
pub proof fn lemma_pop_bounded(y: u32, j: u32)
    requires
        j <= 31,
        y < (1u32 << j),
    ensures
        popcount(y) <= j,
        popcount(y) == j ==> y == vstd::prelude::sub(1u32 << j, 1u32),
    decreases j,
{
    if j == 0 {
        assert(y == 0 && vstd::prelude::sub(1u32 << 0u32, 1u32) == 0u32) by (bit_vector)
            requires y < (1u32 << 0u32);
        lemma_pop_zero(32);
    } else {
        let i = (j - 1) as u32;
        let z = y >> 1u32;
        assert(z < (1u32 << i)) by (bit_vector)
            requires y < (1u32 << j), 1u32 <= j <= 31u32, i == j - 1u32, z == y >> 1u32;
        lemma_pop_bounded(z, i);
        lemma_pop_shr1(y);
        lemma_bit_shift(y, 0);
        if popcount(y) == j {
            assert(y == vstd::prelude::sub(1u32 << j, 1u32)) by (bit_vector)
                requires
                    z == vstd::prelude::sub(1u32 << i, 1u32),
                    (y >> 0u32) & 1u32 == 1u32,
                    z == y >> 1u32,
                    1u32 <= j <= 31u32,
                    i == j - 1u32;
        }
    }
}

/// No value strictly between `c` and its step has as many set bits as `c`.
pub proof fn lemma_gosper_least(c: u32, x: u32)
    requires
        c != 0,
        c < 0x8000_0000,
        c < x,
        x < gosper_step(c),
    ensures
        popcount(x) != popcount(c),
{
    let r = c & vstd::prelude::add(!c, 1u32);
    let m = (c + r) as u32;
    lemma_lowest_bit(c);
    let t = lemma_log2(r);
    let sm = m & vstd::prelude::add(!m, 1u32);
    assert(m != 0 && sm != 0 && sm & vstd::prelude::sub(sm, 1u32) == 0) by (bit_vector)
        requires
            sm == m & vstd::prelude::add(!m, 1u32),
            m == vstd::prelude::add(c, r),
            r <= c,
            c != 0u32,
            c < 0x8000_0000u32;
    let u = lemma_log2(sm);
    let mu = vstd::prelude::sub(1u32 << u, 1u32);
    let mt = vstd::prelude::sub(1u32 << t, 1u32);
    let cl = c & mu;
    let a = (u - t) as u32;
    // the shape of `c`, `m` and the step around the positions `t` and `u`
    assert(t < u && u <= 31 && c >> u == vstd::prelude::sub(m >> u, 1u32) && (m >> u) & 1u32 == 1u32
        && m & mu == 0u32 && cl >> t == vstd::prelude::sub(1u32 << vstd::prelude::sub(u, t), 1u32)
        && cl & mt == 0u32) by (bit_vector)
        requires
            r == c & vstd::prelude::add(!c, 1u32),
            r == 1u32 << t,
            t < 32u32,
            m == vstd::prelude::add(c, r),
            sm == m & vstd::prelude::add(!m, 1u32),
            sm == 1u32 << u,
            u < 32u32,
            mu == vstd::prelude::sub(1u32 << u, 1u32),
            mt == vstd::prelude::sub(1u32 << t, 1u32),
            cl == c & mu,
            c != 0u32,
            c < 0x8000_0000u32;
    let low = vstd::prelude::sub(1u32 << vstd::prelude::sub(a, 1u32), 1u32);
    assert(gosper_step(c) == m | low && low < (1u32 << u)) by (bit_vector)
        requires
            r == c & vstd::prelude::add(!c, 1u32),
            r == 1u32 << t,
            m == vstd::prelude::add(c, r),
            sm == m & vstd::prelude::add(!m, 1u32),
            sm == 1u32 << u,
            t < u,
            u <= 31u32,
            a == u - t,
            low == vstd::prelude::sub(1u32 << vstd::prelude::sub(a, 1u32), 1u32),
            c != 0u32,
            c < 0x8000_0000u32,
            gosper_step(c) == (((m ^ c) >> 2u32) / r) | m;
    lemma_pop_split(c, u);
    lemma_pop_split(cl, t);
    lemma_pop_zero(32);
    lemma_pop_low_ones(a);
    assert(popcount(c) == popcount(c >> u) + a);
    if x < m {
        let y = x & mu;
        assert(x >> u == c >> u && y > cl && y >> t == vstd::prelude::sub(1u32 << a, 1u32) && y & mt
            != 0u32) by (bit_vector)
            requires
                c < x,
                x < m,
                c >> u == vstd::prelude::sub(m >> u, 1u32),
                m & mu == 0u32,
                mu == vstd::prelude::sub(1u32 << u, 1u32),
                mt == vstd::prelude::sub(1u32 << t, 1u32),
                cl == c & mu,
                y == x & mu,
                cl >> t == vstd::prelude::sub(1u32 << a, 1u32),
                cl & mt == 0u32,
                t < u,
                u <= 31u32,
                a == u - t;
        lemma_pop_split(x, u);
        lemma_pop_split(y, t);
        lemma_pop_nonzero(y & mt);
    } else {
        let y = x & mu;
        assert(x >> u == m >> u && y < low) by (bit_vector)
            requires
                m <= x,
                x < m | low,
                low < (1u32 << u),
                m & mu == 0u32,
                mu == vstd::prelude::sub(1u32 << u, 1u32),
                y == x & mu,
                u <= 31u32;
        lemma_pop_split(x, u);
        let cu = c >> u;
        let mh = m >> u;
        lemma_pop_shr1(cu);
        lemma_pop_shr1(mh);
        assert(mh >> 1u32 == cu >> 1u32 && (cu >> 0u32) & 1u32 == 0u32 && (mh >> 0u32) & 1u32 == 1u32)
            by (bit_vector)
            requires cu == vstd::prelude::sub(mh, 1u32), mh & 1u32 == 1u32;
        let a1 = vstd::prelude::sub(a, 1u32);
        assert(a1 <= 31 && y < (1u32 << a1) && low == vstd::prelude::sub(1u32 << a1, 1u32)) by (bit_vector)
            requires y < low, low == vstd::prelude::sub(1u32 << vstd::prelude::sub(a, 1u32), 1u32),
                a1 == vstd::prelude::sub(a, 1u32), 1u32 <= a <= 31u32;
        lemma_pop_bounded(y, a1);
    }
}

} // verus!
