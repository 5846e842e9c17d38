use vstd::prelude::*;
use crate::codec::{digits_of, lemma_digits_round_trip, lemma_value_bound, value_of};
use crate::counting::is_board;
use crate::game::score_spec;
use crate::optimal::{
    best_cell,
    child_total,
    count_zeros,
    has_empty_below,
    lemma_best_cell_empty,
    lemma_count_zeros_update,
    present,
    roll_sum,
    table_closed,
    table_complete,
    table_sound,
    total,
};

verus! {

/// The sum of the penalties of the boards reached by placing each roll `1..=v` at cell `p`.
pub open spec fn placed_score_sum(b: Seq<u32>, p: int, v: nat) -> int
    decreases v,
{
    if v == 0 {
        0
    } else {
        placed_score_sum(b, p, (v - 1) as nat) + score_spec(b.update(p, v as u32))
    }
}

proof fn lemma_no_zeros(b: Seq<u32>)
    requires
        forall|q: int| 0 <= q < b.len() ==> b[q] != 0,
    ensures
        count_zeros(b) == 0,
    decreases b.len(),
{
    if b.len() > 0 {
        lemma_no_zeros(b.drop_last());
    }
}

proof fn lemma_best_cell_min(b: Seq<u32>, base: nat, z: nat, v: u32, n: nat)
    requires
        z > 0,
        n <= b.len(),
    ensures
        forall|q: int|
            0 <= q < n && b[q] == 0 ==> child_total(b, base, z, v, best_cell(b, base, z, v, n))
                <= #[trigger] child_total(b, base, z, v, q),
    decreases n,
{
    if n > 0 {
        lemma_best_cell_min(b, base, z, v, (n - 1) as nat);
        lemma_best_cell_empty(b, base, z, v, (n - 1) as nat);
        assert forall|q: int|
            0 <= q < n && b[q] == 0 implies child_total(b, base, z, v, best_cell(b, base, z, v, n))
                <= #[trigger] child_total(b, base, z, v, q) by {
            if q < n - 1 {
                assert(has_empty_below(b, (n - 1) as nat));
            }
        }
    }
}

/// On a board with a single empty cell `p`, the optimal total is the sum over all rolls of
/// the penalty of the board with that roll placed at `p`, and a computed table entry for
/// the board holds exactly that sum.
pub proof fn lemma_single_empty_cell(
    scores: Seq<Option<i64>>,
    moves: Seq<[u8; 6]>,
    base: nat,
    b: Seq<u32>,
    p: int,
)
    requires
        2 <= base <= 7,
        is_board(b, 9, base),
        0 <= p < 9,
        b[p] == 0,
        forall|q: int| 0 <= q < 9 && q != p ==> b[q] != 0,
    ensures
        count_zeros(b) == 1,
        total(b, base, 1) == placed_score_sum(b, p, (base - 1) as nat),
        table_sound(scores, moves, base) && scores[value_of(b, base) as int] is Some
            ==> scores[value_of(b, base) as int]->0 == placed_score_sum(b, p, (base - 1) as nat),
{
    lemma_count_zeros_update(b, p, 1);
    lemma_no_zeros(b.update(p, 1));
    lemma_value_bound(b, base);
    lemma_roll_sum_single(b, base, p, (base - 1) as nat);
}

proof fn lemma_roll_sum_single(b: Seq<u32>, base: nat, p: int, v: nat)
    requires
        2 <= base <= 7,
        v < base,
        is_board(b, 9, base),
        0 <= p < 9,
        b[p] == 0,
        forall|q: int| 0 <= q < 9 && q != p ==> b[q] != 0,
    ensures
        roll_sum(b, base, 1, v) == placed_score_sum(b, p, v),
    decreases v,
{
    if v > 0 {
        lemma_roll_sum_single(b, base, p, (v - 1) as nat);
        lemma_best_cell_empty(b, base, 1, v as u32, 9);
        assert(has_empty_below(b, 9));
        assert(best_cell(b, base, 1, v as u32, 9) == p);
        assert(child_total(b, base, 1, v as u32, p) == total(b.update(p, v as u32), base, 0));
        assert(total(b.update(p, v as u32), base, 0) == score_spec(b.update(p, v as u32)));
        assert(roll_sum(b, base, 1, v) == roll_sum(b, base, 1, (v - 1) as nat) + child_total(
            b,
            base,
            1,
            v as u32,
            best_cell(b, base, 1, v as u32, b.len()),
        ));
    }
}

/// Every computed decision names an empty cell, and placing the roll there leads to a board
/// whose optimal total is at most that of placing it in any other empty cell.
pub proof fn lemma_decision_consistent(
    scores: Seq<Option<i64>>,
    moves: Seq<[u8; 6]>,
    base: nat,
    b: Seq<u32>,
    v: u32,
)
    requires
        2 <= base <= 7,
        table_sound(scores, moves, base),
        is_board(b, 9, base),
        count_zeros(b) >= 1,
        scores[value_of(b, base) as int] is Some,
        1 <= v < base,
    ensures
        ({
            let p = moves[value_of(b, base) as int][v - 1] as int;
            &&& 0 <= p < 9
            &&& b[p] == 0
            &&& forall|q: int|
                0 <= q < 9 && b[q] == 0 ==> total(b.update(p, v), base, (count_zeros(b) - 1) as nat)
                    <= #[trigger] total(b.update(q, v), base, (count_zeros(b) - 1) as nat)
        }),
{
    let z = count_zeros(b);
    lemma_value_bound(b, base);
    let p = moves[value_of(b, base) as int][v - 1] as int;
    let vi = v as int;
    assert(moves[value_of(b, base) as int][vi - 1] as int == best_cell(b, base, z, vi as u32, 9));
    assert(p == best_cell(b, base, z, v, 9));
    crate::optimal::lemma_count_zeros_pos(b);
    lemma_best_cell_empty(b, base, z, v, 9);
    lemma_best_cell_min(b, base, z, v, 9);
    assert forall|q: int|
        0 <= q < 9 && b[q] == 0 implies total(b.update(p, v), base, (z - 1) as nat)
            <= #[trigger] total(b.update(q, v), base, (z - 1) as nat) by {
        assert(child_total(b, base, z, v, q) == total(b.update(q, v), base, (z - 1) as nat));
    }
}

/// Two tables that every builder of this library produces for the same base are
/// identical: the same entries and the same decisions.
pub proof fn lemma_builders_agree(
    scores1: Seq<Option<i64>>,
    moves1: Seq<[u8; 6]>,
    scores2: Seq<Option<i64>>,
    moves2: Seq<[u8; 6]>,
    base: nat,
)
    requires
        2 <= base <= 7,
        table_sound(scores1, moves1, base),
        table_closed(scores1, moves1, base),
        table_complete(scores1, base),
        table_sound(scores2, moves2, base),
        table_closed(scores2, moves2, base),
        table_complete(scores2, base),
    ensures
        scores1 == scores2,
        moves1.len() == moves2.len(),
        forall|i: int, j: int| 0 <= i < moves1.len() && 0 <= j < 6 ==> #[trigger] moves1[i][j] == moves2[i][j],
{
    assert forall|i: int| 0 <= i < scores1.len() implies #[trigger] scores1[i] == scores2[i] by {
        let b = digits_of(i as nat, 9, base);
        lemma_digits_round_trip(i as nat, 9, base);
        assert(is_board(b, 9, base));
        assert(present(scores1, b, base) == present(scores2, b, base));
    }
    assert forall|i: int, j: int| 0 <= i < moves1.len() && 0 <= j < 6 implies #[trigger] moves1[i][j]
        == moves2[i][j] by {
        let b = digits_of(i as nat, 9, base);
        lemma_digits_round_trip(i as nat, 9, base);
        assert(is_board(b, 9, base));
        assert(value_of(b, base) == i);
        assert(present(scores1, b, base) == present(scores2, b, base));
        if present(scores1, b, base) && j < base - 1 {
            let v = j + 1;
            assert(moves1[value_of(b, base) as int][v - 1] as int == best_cell(b, base, count_zeros(b), v as u32, 9));
            assert(moves2[value_of(b, base) as int][v - 1] as int == best_cell(b, base, count_zeros(b), v as u32, 9));
        } else {
            assert(moves1[value_of(b, base) as int][j] == 0);
            assert(moves2[value_of(b, base) as int][j] == 0);
        }
    }
    assert(scores1 =~= scores2);
}

} // verus!
