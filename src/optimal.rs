use vstd::prelude::*;
use vstd::arithmetic::power::pow;
use crate::codec::value_of;
use crate::counting::is_board;
use crate::game::score_spec;

verus! {

/// The number of empty cells (zeros) of a board.
pub open spec fn count_zeros(b: Seq<u32>) -> nat
    decreases b.len(),
{
    if b.len() == 0 {
        0
    } else {
        count_zeros(b.drop_last()) + if b.last() == 0 { 1nat } else { 0nat }
    }
}

/// The optimal total over all die rolls of a board with `z` empty cells: the expected final
/// penalty under expectation-minimising play, times `(base - 1)` to the power `z`.
pub open spec fn total(b: Seq<u32>, base: nat, z: nat) -> int
    decreases z, 3nat, 0nat,
{
    if z == 0 {
        score_spec(b)
    } else {
        roll_sum(b, base, z, (base - 1) as nat)
    }
}

/// The sum, over the rolls `1..=v`, of the best child's total.
pub open spec fn roll_sum(b: Seq<u32>, base: nat, z: nat, v: nat) -> int
    decreases z, 2nat, v,
{
    if v == 0 || z == 0 {
        0
    } else {
        roll_sum(b, base, z, (v - 1) as nat) + child_total(
            b,
            base,
            z,
            v as u32,
            best_cell(b, base, z, v as u32, b.len()),
        )
    }
}

/// The total of the board reached by placing `v` at cell `p`.
pub open spec fn child_total(b: Seq<u32>, base: nat, z: nat, v: u32, p: int) -> int
    decreases z, 0nat, 0nat,
{
    if z == 0 {
        0
    } else {
        total(b.update(p, v), base, (z - 1) as nat)
    }
}

/// The first empty cell below `n` whose child has the least total for roll `v`; -1 if no
/// cell below `n` is empty.
pub open spec fn best_cell(b: Seq<u32>, base: nat, z: nat, v: u32, n: nat) -> int
    decreases z, 1nat, n,
{
    if n == 0 || z == 0 {
        -1
    } else {
        let prev = best_cell(b, base, z, v, (n - 1) as nat);
        if b[n - 1] != 0 {
            prev
        } else if prev < 0 {
            (n - 1) as int
        } else if child_total(b, base, z, v, n - 1) < child_total(b, base, z, v, prev) {
            (n - 1) as int
        } else {
            prev
        }
    }
}

pub proof fn lemma_count_zeros_update(b: Seq<u32>, p: int, v: u32)
    requires
        0 <= p < b.len(),
        b[p] == 0,
        v != 0,
    ensures
        count_zeros(b.update(p, v)) + 1 == count_zeros(b),
    decreases b.len(),
{
    let c = b.update(p, v);
    if p == b.len() - 1 {
        assert(c.drop_last() =~= b.drop_last());
    } else {
        assert(c.drop_last() =~= b.drop_last().update(p, v));
        lemma_count_zeros_update(b.drop_last(), p, v);
    }
}

/// A board has an empty cell below `n` exactly when some cell below `n` is zero.
pub open spec fn has_empty_below(b: Seq<u32>, n: nat) -> bool {
    exists|p: int| 0 <= p < n && b[p] == 0
}

pub proof fn lemma_count_zeros_pos(b: Seq<u32>)
    requires
        count_zeros(b) > 0,
    ensures
        has_empty_below(b, b.len()),
    decreases b.len(),
{
    if b.last() != 0 {
        lemma_count_zeros_pos(b.drop_last());
        let p = choose|p: int| 0 <= p < b.len() - 1 && b.drop_last()[p] == 0;
        assert(b[p] == 0);
    } else {
        assert(b[b.len() - 1] == 0);
    }
}

pub proof fn lemma_best_cell_empty(b: Seq<u32>, base: nat, z: nat, v: u32, n: nat)
    requires
        z > 0,
        n <= b.len(),
    ensures
        has_empty_below(b, n) ==> {
            let p = best_cell(b, base, z, v, n);
            0 <= p < n && b[p] == 0
        },
        !has_empty_below(b, n) ==> best_cell(b, base, z, v, n) == -1,
        -1 <= best_cell(b, base, z, v, n) < n,
    decreases n,
{
    if n > 0 {
        lemma_best_cell_empty(b, base, z, v, (n - 1) as nat);
        if has_empty_below(b, n) && !has_empty_below(b, (n - 1) as nat) {
            let p = choose|p: int| 0 <= p < n && b[p] == 0;
            assert(p == n - 1);
        }
        if has_empty_below(b, (n - 1) as nat) {
            let p = choose|p: int| 0 <= p < n - 1 && b[p] == 0;
            assert(has_empty_below(b, n));
        }
    }
}

/// The bound on the magnitude of a total with `z` empty cells.
pub open spec fn total_bound(base: nat, z: nat) -> int {
    1000 * pow(base - 1, z)
}

pub proof fn lemma_score_bound(b: Seq<u32>)
    requires
        is_board(b, 9, 7),
    ensures
        -120 <= score_spec(b) <= 1000,
{
    assert(b[0] < 7 && b[1] < 7 && b[2] < 7 && b[3] < 7 && b[4] < 7 && b[5] < 7 && b[6] < 7
        && b[7] < 7 && b[8] < 7);
}

pub proof fn lemma_total_bound(b: Seq<u32>, base: nat, z: nat)
    requires
        2 <= base <= 7,
        is_board(b, 9, base),
        count_zeros(b) == z,
    ensures
        -total_bound(base, z) <= total(b, base, z) <= total_bound(base, z),
    decreases z, 1nat, 0nat,
{
    if z == 0 {
        lemma_score_bound(b);
        vstd::arithmetic::power::lemma_pow0(base - 1);
    } else {
        let m = (base - 1) as nat;
        lemma_roll_sum_bound(b, base, z, m);
        let k = total_bound(base, (z - 1) as nat);
        vstd::arithmetic::power::lemma_pow_adds(base - 1, (z - 1) as nat, 1);
        vstd::arithmetic::power::lemma_pow1(base - 1);
        assert(total_bound(base, z) == m * k) by (nonlinear_arith)
            requires
                total_bound(base, z) == 1000 * pow(base - 1, z),
                k == 1000 * pow(base - 1, (z - 1) as nat),
                pow(base - 1, z) == pow(base - 1, (z - 1) as nat) * (base - 1),
                m == base - 1;
    }
}

pub proof fn lemma_roll_sum_bound(b: Seq<u32>, base: nat, z: nat, v: nat)
    requires
        2 <= base <= 7,
        is_board(b, 9, base),
        count_zeros(b) == z,
        z > 0,
        v < base,
    ensures
        -(v * total_bound(base, (z - 1) as nat)) <= roll_sum(b, base, z, v) <= v * total_bound(
            base,
            (z - 1) as nat,
        ),
    decreases z, 0nat, v,
{
    let k = total_bound(base, (z - 1) as nat);
    if v > 0 {
        lemma_roll_sum_bound(b, base, z, (v - 1) as nat);
        let p = best_cell(b, base, z, v as u32, b.len());
        lemma_count_zeros_pos(b);
        lemma_best_cell_empty(b, base, z, v as u32, b.len());
        let c = b.update(p, v as u32);
        lemma_count_zeros_update(b, p, v as u32);
        assert(is_board(c, 9, base));
        lemma_total_bound(c, base, (z - 1) as nat);
        assert(child_total(b, base, z, v as u32, p) == total(c, base, (z - 1) as nat));
        assert(roll_sum(b, base, z, v) == roll_sum(b, base, z, (v - 1) as nat) + total(
            c,
            base,
            (z - 1) as nat,
        ));
        let prev = roll_sum(b, base, z, (v - 1) as nat);
        let t = total(c, base, (z - 1) as nat);
        assert(-(v * k) <= prev + t <= v * k) by (nonlinear_arith)
            requires
                -(((v - 1) as nat) * k) <= prev <= ((v - 1) as nat) * k,
                -k <= t <= k,
                v >= 1;
    } else {
        assert(v * k == 0) by (nonlinear_arith)
            requires v == 0;
    }
}

pub proof fn lemma_pow_base_le(m: nat, c: nat, z: nat)
    requires
        m <= c,
    ensures
        0 <= pow(m as int, z) <= pow(c as int, z),
    decreases z,
{
    reveal(pow);
    if z > 0 {
        lemma_pow_base_le(m, c, (z - 1) as nat);
        let a = pow(m as int, (z - 1) as nat);
        let d = pow(c as int, (z - 1) as nat);
        assert(0 <= m * a <= c * d) by (nonlinear_arith)
            requires 0 <= a <= d, m <= c;
    }
}

/// Every board of nine cells in a base of at most seven has an index that fits a table of
/// `7^9` entries, and every total fits an `i64`.
pub proof fn lemma_sizes(base: nat, z: nat)
    requires
        2 <= base <= 7,
        z <= 9,
    ensures
        pow(base as int, 9) <= 40353607,
        0 <= total_bound(base, z) <= 10077696000,
{
    lemma_pow_base_le(base, 7, 9);
    lemma_pow_base_le((base - 1) as nat, 6, z);
    vstd::arithmetic::power::lemma_pow_increases(6, z, 9);
    reveal_with_fuel(pow, 10);
    assert(pow(7, 9) == 40353607);
    assert(pow(6, 9) == 10077696);
}

/// The expectation table and the decision table, indexed by board value.
pub struct Output {
    /// The optimal total of each board whose entry was computed; divided by `(base - 1)` to
    /// the power of the board's number of empty cells, it is the expected final penalty.
    pub scores: Vec<Option<i64>>,
    /// For each board and each roll `v`, the cell chosen for `v` at entry `v - 1`.
    pub moves: Vec<[u8; 6]>,
}

/// Every computed entry of the tables holds the optimal total of its board and, for each
/// roll, the first cell that attains the optimum.
pub open spec fn table_sound(scores: Seq<Option<i64>>, moves: Seq<[u8; 6]>, base: nat) -> bool {
    &&& scores.len() == pow(base as int, 9)
    &&& moves.len() == scores.len()
    &&& forall|b: Seq<u32>|
        is_board(b, 9, base) && count_zeros(b) >= 1 && (scores[#[trigger] value_of(b, base) as int] is Some) ==> {
            &&& scores[value_of(b, base) as int]->0 == total(b, base, count_zeros(b))
            &&& forall|v: int|
                1 <= v < base ==> moves[value_of(b, base) as int][v - 1] as int == #[trigger] best_cell(
                    b,
                    base,
                    count_zeros(b),
                    v as u32,
                    9,
                )
        }
}

/// `c` keeps every filled cell of `b`: it is `b`, or a board that play can reach from `b`.
pub open spec fn extends(b: Seq<u32>, c: Seq<u32>) -> bool {
    &&& b.len() == c.len()
    &&& forall|i: int| 0 <= i < b.len() && b[i] != 0 ==> c[i] == b[i]
}

/// The table holds an entry for board `b`.
pub open spec fn present(scores: Seq<Option<i64>>, b: Seq<u32>, base: nat) -> bool {
    scores[value_of(b, base) as int] is Some
}

/// Only boards with an empty cell have entries, decisions outside the rolls are zero (all
/// of them, for a board without an entry), and each board with an entry brings the entries
/// of all boards that extend it and have an empty cell.
pub open spec fn table_closed(scores: Seq<Option<i64>>, moves: Seq<[u8; 6]>, base: nat) -> bool {
    &&& forall|b: Seq<u32>|
        is_board(b, 9, base) && #[trigger] present(scores, b, base) ==> count_zeros(b) >= 1
    &&& forall|b: Seq<u32>, j: int|
        is_board(b, 9, base) && (if present(scores, b, base) {
            base - 1
        } else {
            0
        }) <= j < 6 ==> #[trigger] moves[value_of(b, base) as int][j] == 0
    &&& forall|b: Seq<u32>, c: Seq<u32>|
        is_board(b, 9, base) && is_board(c, 9, base) && #[trigger] extends(b, c) && present(
            scores,
            b,
            base,
        ) && count_zeros(c) >= 1 ==> present(scores, c, base)
}

/// Every entry of `old` is still in `new`.
pub open spec fn grows(old: Seq<Option<i64>>, new: Seq<Option<i64>>, base: nat) -> bool {
    forall|b: Seq<u32>| is_board(b, 9, base) && present(old, b, base) ==> #[trigger] present(new, b, base)
}

/// Exactly the boards with an empty cell have entries.
pub open spec fn table_complete(scores: Seq<Option<i64>>, base: nat) -> bool {
    forall|b: Seq<u32>| is_board(b, 9, base) ==> (#[trigger] present(scores, b, base) <==> count_zeros(b) >= 1)
}

/// A board that differs from a board it extends fills one of its empty cells.
pub proof fn lemma_extends_step(b: Seq<u32>, c: Seq<u32>) -> (p: int)
    requires
        extends(b, c),
        b != c,
    ensures
        0 <= p < b.len(),
        b[p] == 0,
        c[p] != 0,
        extends(b.update(p, c[p]), c),
{
    let p = crate::codec::lemma_first_difference(b, c, 0);
    assert(extends(b.update(p, c[p]), c));
    p
}

/// The board of nine empty cells.
pub open spec fn empty_board() -> Seq<u32> {
    Seq::new(9, |i: int| 0u32)
}

pub proof fn lemma_all_zeros(b: Seq<u32>, base: nat)
    requires
        forall|i: int| 0 <= i < b.len() ==> b[i] == 0,
    ensures
        count_zeros(b) == b.len(),
        value_of(b, base) == 0,
    decreases b.len(),
{
    if b.len() > 0 {
        lemma_all_zeros(b.drop_last(), base);
        let v = value_of(b.drop_last(), base);
        assert(v * base == 0) by (nonlinear_arith)
            requires v == 0;
    }
}

impl Output {
    /// The cell recorded for `roll` on `board`, if the board's entry was computed.
    pub fn decision(&self, board: &[u32], roll: u32, base: usize) -> (r: Option<u8>)
        requires
            2 <= base <= 7,
            table_sound(self.scores@, self.moves@, base as nat),
            is_board(board@, 9, base as nat),
            count_zeros(board@) >= 1,
            1 <= roll < base,
        ensures
            r is Some <==> self.scores@[value_of(board@, base as nat) as int] is Some,
            r matches Some(p) ==> p as int == best_cell(board@, base as nat, count_zeros(board@), roll, 9),
    {
        proof {
            lemma_sizes(base as nat, 0);
            crate::codec::lemma_value_bound(board@, base as nat);
        }
        let idx = crate::codec::to_value(board, base);
        match self.scores[idx] {
            Some(_) => {
                let ghost ri = roll as int;
                assert(self.moves@[idx as int][ri - 1] as int == best_cell(
                    board@,
                    base as nat,
                    count_zeros(board@),
                    ri as u32,
                    9,
                ));
                Some(self.moves[idx][(roll - 1) as usize])
            },
            None => None,
        }
    }

    /// Tables of `base^9` entries with nothing computed yet.
    pub fn new(base: usize) -> (r: Output)
        requires
            2 <= base <= 7,
        ensures
            table_sound(r.scores@, r.moves@, base as nat),
            table_closed(r.scores@, r.moves@, base as nat),
            forall|i: int| 0 <= i < r.scores@.len() ==> r.scores@[i] is None,
    {
        proof {
            lemma_sizes(base as nat, 0);
        }
        let size = crate::counting::pow_usize(base, 9);
        let mut scores: Vec<Option<i64>> = Vec::new();
        let mut moves: Vec<[u8; 6]> = Vec::new();
        let mut i: usize = 0;
        while i < size
            invariant
                i <= size,
                scores@.len() == i,
                moves@.len() == i,
                forall|j: int| 0 <= j < i ==> scores@[j] is None,
                forall|j: int, k: int| 0 <= j < i && 0 <= k < 6 ==> #[trigger] moves@[j][k] == 0,
            decreases size - i,
        {
            scores.push(None);
            let zeros: [u8; 6] = [0u8; 6];
            assert(forall|k: int| 0 <= k < 6 ==> zeros[k] == 0);
            moves.push(zeros);
            i = i + 1;
        }
        proof {
            assert forall|b: Seq<u32>|
                is_board(b, 9, base as nat) implies !(scores@[#[trigger] value_of(b, base as nat) as int] is Some) by {
                crate::codec::lemma_value_bound(b, base as nat);
            }
            assert forall|b: Seq<u32>, j: int|
                is_board(b, 9, base as nat) && (if present(scores@, b, base as nat) {
                    base - 1
                } else {
                    0
                }) <= j < 6 implies #[trigger] moves@[value_of(b, base as nat) as int][j] == 0 by {
                crate::codec::lemma_value_bound(b, base as nat);
            }
        }
        Output { scores, moves }
    }
}

} // verus!
