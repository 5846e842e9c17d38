use vstd::prelude::*;
use vstd::arithmetic::power::pow;
use crate::counting::is_board;
use crate::optimal::count_zeros;

verus! {

/// The binomial coefficient, by Pascal's rule.
pub open spec fn binom(n: nat, k: nat) -> nat
    decreases n,
{
    if k == 0 {
        1
    } else if n == 0 {
        0
    } else {
        binom((n - 1) as nat, (k - 1) as nat) + binom((n - 1) as nat, k)
    }
}

/// The boards of `len` digits below `base` with `z` zeros.
pub open spec fn boards(len: nat, base: nat, z: nat) -> Set<Seq<u32>> {
    Set::new(|b: Seq<u32>| is_board(b, len, base) && count_zeros(b) == z)
}

/// The boards of `boards(len, base, z)` whose last digit lies in `1..=d`.
spec fn boards_ending_in(len: nat, base: nat, z: nat, d: nat) -> Set<Seq<u32>> {
    Set::new(
        |b: Seq<u32>|
            is_board(b, len, base) && count_zeros(b) == z && 1 <= b.last() && b.last() <= d,
    )
}

spec fn push_digit(d: u32) -> spec_fn(Seq<u32>) -> Seq<u32> {
    |s: Seq<u32>| s.push(d)
}

proof fn lemma_push_injective(x: Set<Seq<u32>>, d: u32)
    ensures
        vstd::relations::injective_on(push_digit(d), x),
{
    assert forall|a: Seq<u32>, b: Seq<u32>|
        x.contains(a) && x.contains(b) && #[trigger] push_digit(d)(a) == #[trigger] push_digit(d)(b)
        implies a == b by {
        assert(a =~= a.push(d).drop_last());
        assert(b =~= b.push(d).drop_last());
    }
}

proof fn lemma_push_boards(len: nat, base: nat, z: nat, d: u32)
    requires
        (d as nat) < base,
    ensures
        boards(len, base, z).map(push_digit(d)) == Set::new(
            |b: Seq<u32>| is_board(b, len + 1, base) && count_zeros(b) == z + (if d == 0 {
                1nat
            } else {
                0nat
            }) && b.last() == d,
        ),
{
    let lhs = boards(len, base, z).map(push_digit(d));
    let rhs = Set::new(
        |b: Seq<u32>| is_board(b, len + 1, base) && count_zeros(b) == z + (if d == 0 {
            1nat
        } else {
            0nat
        }) && b.last() == d,
    );
    assert forall|b: Seq<u32>| lhs.contains(b) implies rhs.contains(b) by {
        let s = choose|s: Seq<u32>| boards(len, base, z).contains(s) && push_digit(d)(s) == b;
        assert(b.drop_last() =~= s);
    }
    assert forall|b: Seq<u32>| rhs.contains(b) implies lhs.contains(b) by {
        let s = b.drop_last();
        assert(boards(len, base, z).contains(s));
        assert(push_digit(d)(s) =~= b);
    }
    assert(lhs =~= rhs);
}

/// The number of boards of `len` digits below `base` with `z` zeros, by the last digit.
pub open spec fn board_count(len: nat, base: nat, z: nat) -> nat
    decreases len,
{
    if len == 0 {
        if z == 0 {
            1
        } else {
            0
        }
    } else {
        (if z > 0 {
            board_count((len - 1) as nat, base, (z - 1) as nat)
        } else {
            0
        }) + (base - 1) as nat * board_count((len - 1) as nat, base, z)
    }
}

proof fn lemma_ending_count(len: nat, base: nat, z: nat, d: nat)
    requires
        len >= 1,
        1 <= base <= u32::MAX,
        d < base,
        boards((len - 1) as nat, base, z).finite(),
    ensures
        boards_ending_in(len, base, z, d).finite(),
        boards_ending_in(len, base, z, d).len() == d * boards((len - 1) as nat, base, z).len(),
    decreases d,
{
    let l1 = (len - 1) as nat;
    let n = boards(l1, base, z).len();
    if d == 0 {
        assert(boards_ending_in(len, base, z, d) =~= Set::empty());
        assert(d * n == 0) by (nonlinear_arith)
            requires d == 0;
    } else {
        lemma_ending_count(len, base, z, (d - 1) as nat);
        let du = d as u32;
        lemma_push_boards(l1, base, z, du);
        lemma_push_injective(boards(l1, base, z), du);
        let img = boards(l1, base, z).map(push_digit(du));
        vstd::set_lib::lemma_map_size(boards(l1, base, z), img, push_digit(du));
        let prev = boards_ending_in(len, base, z, (d - 1) as nat);
        assert(boards_ending_in(len, base, z, d) =~= prev + img);
        assert(prev.disjoint(img));
        vstd::set_lib::lemma_set_disjoint_lens(prev, img);
        assert(d * n == (d - 1) * n + n) by (nonlinear_arith);
    }
}

/// The boards with `z` zeros are finite, and `board_count` counts them.
pub proof fn lemma_boards_count(len: nat, base: nat, z: nat)
    requires
        1 <= base <= u32::MAX,
    ensures
        boards(len, base, z).finite(),
        boards(len, base, z).len() == board_count(len, base, z),
    decreases len,
{
    if len == 0 {
        if z == 0 {
            assert forall|b: Seq<u32>| boards(len, base, z).contains(b) implies b == Seq::<u32>::empty() by {
                assert(b =~= Seq::<u32>::empty());
            }
            assert(boards(len, base, z).contains(Seq::<u32>::empty()));
            assert(boards(len, base, z) =~= Set::empty().insert(Seq::<u32>::empty()));
        } else {
            assert(boards(len, base, z) =~= Set::empty());
        }
    } else {
        let l1 = (len - 1) as nat;
        lemma_boards_count(l1, base, z);
        let ends = boards_ending_in(len, base, z, (base - 1) as nat);
        lemma_ending_count(len, base, z, (base - 1) as nat);
        if z > 0 {
            lemma_boards_count(l1, base, (z - 1) as nat);
            lemma_push_boards(l1, base, (z - 1) as nat, 0);
            lemma_push_injective(boards(l1, base, (z - 1) as nat), 0);
            let zs = boards(l1, base, (z - 1) as nat).map(push_digit(0));
            vstd::set_lib::lemma_map_size(boards(l1, base, (z - 1) as nat), zs, push_digit(0));
            assert(boards(len, base, z) =~= zs + ends);
            assert(zs.disjoint(ends));
            vstd::set_lib::lemma_set_disjoint_lens(zs, ends);
        } else {
            assert forall|b: Seq<u32>| boards(len, base, z).contains(b) implies ends.contains(b) by {
                if b.last() == 0 {
                    assert(count_zeros(b) >= 1);
                }
            }
            assert(boards(len, base, z) =~= ends);
        }
    }
}

proof fn lemma_binom_above(n: nat, k: nat)
    requires
        k > n,
    ensures
        binom(n, k) == 0,
    decreases n,
{
    if n > 0 {
        lemma_binom_above((n - 1) as nat, (k - 1) as nat);
        lemma_binom_above((n - 1) as nat, k);
    }
}

/// The count in closed form: choose the empty cells, then a nonzero digit for each other.
pub proof fn lemma_board_count_closed(len: nat, base: nat, z: nat)
    requires
        base >= 1,
    ensures
        board_count(len, base, z) == if z <= len {
            binom(len, z) * pow(base - 1, (len - z) as nat)
        } else {
            0
        },
    decreases len,
{
    let m = base - 1;
    if len == 0 {
        vstd::arithmetic::power::lemma_pow0(m);
    } else {
        let l1 = (len - 1) as nat;
        lemma_board_count_closed(l1, base, z);
        if z > 0 {
            lemma_board_count_closed(l1, base, (z - 1) as nat);
        }
        if z <= len {
            let e = (len - z) as nat;
            let b1 = binom(l1, z);
            let b0 = if z > 0 { binom(l1, (z - 1) as nat) } else { 0 };
            if z <= l1 {
                vstd::arithmetic::power::lemma_pow_adds(m, (l1 - z) as nat, 1);
                vstd::arithmetic::power::lemma_pow1(m);
                let p = pow(m, (l1 - z) as nat);
                assert(m * (b1 * p) == b1 * (p * m)) by (nonlinear_arith);
                assert(board_count(l1, base, z) == b1 * p);
            } else {
                lemma_binom_above(l1, z);
                assert(board_count(l1, base, z) == 0);
            }
            if z > 0 {
                assert(board_count(l1, base, (z - 1) as nat) == b0 * pow(m, e));
                assert(binom(len, z) == b0 + b1);
            } else {
                assert(binom(len, z) == 1);
            }
            let pe = pow(m, e);
            assert(board_count(len, base, z) == b0 * pe + (base - 1) as nat * board_count(l1, base, z));
            if z <= l1 {
                assert((b0 + b1) * pe == b0 * pe + b1 * pe) by (nonlinear_arith);
            } else {
                assert((b0 + b1) * pe == b0 * pe) by (nonlinear_arith)
                    requires b1 == 0;
            }
        } else {
            assert(board_count(l1, base, z) == 0);
        }
    }
}

} // verus!
