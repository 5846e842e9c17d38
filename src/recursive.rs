use vstd::prelude::*;
use crate::codec::{lemma_value_bound, lemma_value_injective, to_value, value_of};
use crate::counting::is_board;
use crate::game::score;
use crate::optimal::{
    Output,
    best_cell,
    child_total,
    count_zeros,
    empty_board,
    extends,
    grows,
    lemma_extends_step,
    present,
    table_closed,
    table_complete,
    lemma_all_zeros,
    lemma_best_cell_empty,
    lemma_count_zeros_pos,
    lemma_count_zeros_update,
    lemma_roll_sum_bound,
    lemma_sizes,
    lemma_total_bound,
    roll_sum,
    table_sound,
    total,
    total_bound,
};

verus! {

/// A board without empty cells has a digit in every cell.
proof fn lemma_zero_free(b: Seq<u32>)
    requires
        count_zeros(b) == 0,
    ensures
        forall|i: int| 0 <= i < b.len() ==> b[i] != 0,
    decreases b.len(),
{
    if b.len() > 0 {
        lemma_zero_free(b.drop_last());
        assert forall|i: int| 0 <= i < b.len() implies b[i] != 0 by {
            if i < b.len() - 1 {
                assert(b.drop_last()[i] == b[i]);
            }
        }
    }
}

/// Recording the entry of `b0` after all boards that extend it by one placement keeps the
/// table closed, and brings the entries of all boards that extend `b0`.
proof fn lemma_table_update(
    scores: Seq<Option<i64>>,
    moves: Seq<[u8; 6]>,
    new_scores: Seq<Option<i64>>,
    new_moves: Seq<[u8; 6]>,
    base: nat,
    b0: Seq<u32>,
    z: nat,
    v: int,
)
    requires
        2 <= base <= 7,
        v == base,
        is_board(b0, 9, base),
        count_zeros(b0) == z,
        z >= 1,
        table_closed(scores, moves, base),
        scores.len() == vstd::arithmetic::power::pow(base as int, 9),
        scores.len() == new_scores.len(),
        moves.len() == scores.len(),
        moves.len() == new_moves.len(),
        value_of(b0, base) < scores.len(),
        new_scores == scores.update(value_of(b0, base) as int, new_scores[value_of(b0, base) as int]),
        new_scores[value_of(b0, base) as int] is Some,
        new_moves == moves.update(value_of(b0, base) as int, new_moves[value_of(b0, base) as int]),
        forall|j: int| base - 1 <= j < 6 ==> new_moves[value_of(b0, base) as int][j] == 0,
        forall|w: int, q: int, c: Seq<u32>|
            1 <= w < v && 0 <= q < 9 && b0[q] == 0 && is_board(c, 9, base) && #[trigger] extends(
                b0.update(q, w as u32),
                c,
            ) && count_zeros(c) >= 1 ==> present(scores, c, base),
    ensures
        table_closed(new_scores, new_moves, base),
        grows(scores, new_scores, base),
        forall|c: Seq<u32>|
            is_board(c, 9, base) && #[trigger] extends(b0, c) && count_zeros(c) >= 1 ==> present(
                new_scores,
                c,
                base,
            ),
{
    let idx = value_of(b0, base) as int;
    assert forall|b: Seq<u32>| is_board(b, 9, base) implies (present(new_scores, b, base) <==> (
    value_of(b, base) == idx || present(scores, b, base))) by {
        lemma_value_bound(b, base);
    }
    assert forall|c: Seq<u32>|
        is_board(c, 9, base) && #[trigger] extends(b0, c) && count_zeros(c) >= 1 implies present(
            new_scores,
            c,
            base,
        ) by {
        if c != b0 {
            let p = lemma_extends_step(b0, c);
            let w = c[p] as int;
            assert(w as u32 == c[p]);
            assert(present(scores, c, base));
        }
    }
    assert forall|b: Seq<u32>| is_board(b, 9, base) && #[trigger] present(new_scores, b, base) implies count_zeros(b) >= 1 by {
        if value_of(b, base) == idx {
            lemma_value_injective(b, b0, base);
        }
    }
    assert forall|b: Seq<u32>, j: int|
        is_board(b, 9, base) && (if present(new_scores, b, base) {
            base - 1
        } else {
            0
        }) <= j < 6 implies #[trigger] new_moves[value_of(b, base) as int][j] == 0 by {
        lemma_value_bound(b, base);
        if value_of(b, base) == idx {
            lemma_value_injective(b, b0, base);
        } else {
            assert(present(new_scores, b, base) == present(scores, b, base));
            assert(new_moves[value_of(b, base) as int] == moves[value_of(b, base) as int]);
            assert(moves[value_of(b, base) as int][j] == 0);
        }
    }
    assert forall|b: Seq<u32>, c: Seq<u32>|
        is_board(b, 9, base) && is_board(c, 9, base) && #[trigger] extends(b, c) && present(
            new_scores,
            b,
            base,
        ) && count_zeros(c) >= 1 implies present(new_scores, c, base) by {
        if value_of(b, base) == idx {
            lemma_value_injective(b, b0, base);
        } else {
            assert(present(scores, c, base));
        }
    }
}

/// The best cell for `roll` on `board`, with the optimal total of the board it leads to.
fn player_choice(
    roll: u32,
    z: usize,
    board: &mut Vec<u32>,
    base: usize,
    out: &mut Output,
    use_cache: bool,
) -> (r: (i64, u8))
    requires
        2 <= base <= 7,
        1 <= roll < base,
        1 <= z <= 9,
        is_board(old(board)@, 9, base as nat),
        count_zeros(old(board)@) == z,
        table_sound(old(out).scores@, old(out).moves@, base as nat),
        table_closed(old(out).scores@, old(out).moves@, base as nat),
    ensures
        final(board)@ == old(board)@,
        table_sound(final(out).scores@, final(out).moves@, base as nat),
        table_closed(final(out).scores@, final(out).moves@, base as nat),
        grows(old(out).scores@, final(out).scores@, base as nat),
        forall|q: int, c: Seq<u32>|
            0 <= q < 9 && old(board)@[q] == 0 && is_board(c, 9, base as nat) && #[trigger] extends(
                old(board)@.update(q, roll),
                c,
            ) && count_zeros(c) >= 1 ==> present(final(out).scores@, c, base as nat),
        r.1 as int == best_cell(old(board)@, base as nat, z as nat, roll, 9),
        r.0 == child_total(old(board)@, base as nat, z as nat, roll, r.1 as int),
    decreases z, 0nat,
{
    let ghost b0 = board@;
    let ghost s0 = out.scores@;
    let mut found = false;
    let mut best_pos: usize = 0;
    let mut best_val: i64 = 0;
    let mut p: usize = 0;
    while p < 9
        invariant
            p <= 9,
            2 <= base <= 7,
            1 <= roll < base,
            1 <= z <= 9,
            board@ == b0,
            is_board(b0, 9, base as nat),
            count_zeros(b0) == z,
            table_sound(out.scores@, out.moves@, base as nat),
            table_closed(out.scores@, out.moves@, base as nat),
            grows(s0, out.scores@, base as nat),
            forall|q: int, c: Seq<u32>|
                0 <= q < p && b0[q] == 0 && is_board(c, 9, base as nat) && #[trigger] extends(
                    b0.update(q, roll),
                    c,
                ) && count_zeros(c) >= 1 ==> present(out.scores@, c, base as nat),
            found ==> best_pos as int == best_cell(b0, base as nat, z as nat, roll, p as nat)
                && best_val == child_total(b0, base as nat, z as nat, roll, best_pos as int),
            !found ==> best_cell(b0, base as nat, z as nat, roll, p as nat) == -1,
        decreases 9 - p,
    {
        if board[p] == 0 {
            board.set(p, roll);
            proof {
                lemma_count_zeros_update(b0, p as int, roll);
                assert(is_board(board@, 9, base as nat));
                lemma_total_bound(board@, base as nat, (z - 1) as nat);
                lemma_sizes(base as nat, (z - 1) as nat);
            }
            let ghost mid = out.scores@;
            let c: i64 = if z == 1 {
                score(board.as_slice())
            } else {
                roll_dice(z - 1, board, base, out, use_cache)
            };
            proof {
                let child = b0.update(p as int, roll);
                assert forall|q: int, d: Seq<u32>|
                    0 <= q <= p && b0[q] == 0 && is_board(d, 9, base as nat) && #[trigger] extends(
                        b0.update(q, roll),
                        d,
                    ) && count_zeros(d) >= 1 implies present(out.scores@, d, base as nat) by {
                    if q < p {
                        assert(present(mid, d, base as nat));
                    } else if z == 1 {
                        lemma_zero_free(child);
                        assert(d =~= child);
                    }
                }
            }
            assert(c == child_total(b0, base as nat, z as nat, roll, p as int));
            board.set(p, 0);
            assert(board@ =~= b0);
            if !found || c < best_val {
                found = true;
                best_pos = p;
                best_val = c;
            }
        }
        proof {
            let prev = best_cell(b0, base as nat, z as nat, roll, p as nat);
            assert(best_cell(b0, base as nat, z as nat, roll, (p + 1) as nat) == if b0[p as int] != 0 {
                prev
            } else if prev < 0 {
                p as int
            } else if child_total(b0, base as nat, z as nat, roll, p as int) < child_total(
                b0,
                base as nat,
                z as nat,
                roll,
                prev,
            ) {
                p as int
            } else {
                prev
            });
        }
        p = p + 1;
    }
    proof {
        lemma_count_zeros_pos(b0);
        lemma_best_cell_empty(b0, base as nat, z as nat, roll, 9);
    }
    (best_val, best_pos as u8)
}

/// The optimal total of `board`, which has `z` empty cells; records it and the best cell
/// for every roll in `out`. With `use_cache`, an entry computed before is reused.
fn roll_dice(z: usize, board: &mut Vec<u32>, base: usize, out: &mut Output, use_cache: bool) -> (r: i64)
    requires
        2 <= base <= 7,
        1 <= z <= 9,
        is_board(old(board)@, 9, base as nat),
        count_zeros(old(board)@) == z,
        table_sound(old(out).scores@, old(out).moves@, base as nat),
        table_closed(old(out).scores@, old(out).moves@, base as nat),
    ensures
        final(board)@ == old(board)@,
        table_sound(final(out).scores@, final(out).moves@, base as nat),
        table_closed(final(out).scores@, final(out).moves@, base as nat),
        grows(old(out).scores@, final(out).scores@, base as nat),
        forall|c: Seq<u32>|
            is_board(c, 9, base as nat) && #[trigger] extends(old(board)@, c) && count_zeros(c) >= 1
                ==> present(final(out).scores@, c, base as nat),
        r == total(old(board)@, base as nat, z as nat),
        final(out).scores@[value_of(old(board)@, base as nat) as int] == Some(r),
    decreases z, 1nat,
{
    let ghost b0 = board@;
    proof {
        lemma_sizes(base as nat, z as nat);
        lemma_value_bound(b0, base as nat);
    }
    let idx = to_value(board.as_slice(), base);
    if use_cache {
        if let Some(x) = out.scores[idx] {
            assert(present(out.scores@, b0, base as nat));
            return x;
        }
    }
    let ghost s0 = out.scores@;
    let mut decisions: [u8; 6] = out.moves[idx];
    proof {
        assert forall|j: int| base - 1 <= j < 6 implies decisions@[j] == 0 by {
            assert(out.moves@[value_of(b0, base as nat) as int][j] == 0);
        }
    }
    let mut sum: i64 = 0;
    let mut v: u32 = 1;
    while v < base as u32
        invariant
            1 <= v <= base,
            2 <= base <= 7,
            1 <= z <= 9,
            board@ == b0,
            is_board(b0, 9, base as nat),
            count_zeros(b0) == z,
            idx == value_of(b0, base as nat),
            idx < out.scores@.len(),
            table_sound(out.scores@, out.moves@, base as nat),
            table_closed(out.scores@, out.moves@, base as nat),
            grows(s0, out.scores@, base as nat),
            forall|j: int| base - 1 <= j < 6 ==> decisions@[j] == 0,
            forall|w: int, q: int, c: Seq<u32>|
                1 <= w < v && 0 <= q < 9 && b0[q] == 0 && is_board(c, 9, base as nat) && #[trigger] extends(
                    b0.update(q, w as u32),
                    c,
                ) && count_zeros(c) >= 1 ==> present(out.scores@, c, base as nat),
            sum == roll_sum(b0, base as nat, z as nat, (v - 1) as nat),
            forall|j: int|
                1 <= j < v ==> decisions@[j - 1] as int == #[trigger] best_cell(b0, base as nat, z as nat, j as u32, 9),
        decreases base - v,
    {
        let ghost mid = out.scores@;
        let (best, pos) = player_choice(v, z, board, base, out, use_cache);
        proof {
            assert forall|w: int, q: int, c: Seq<u32>|
                1 <= w <= v && 0 <= q < 9 && b0[q] == 0 && is_board(c, 9, base as nat) && #[trigger] extends(
                    b0.update(q, w as u32),
                    c,
                ) && count_zeros(c) >= 1 implies present(out.scores@, c, base as nat) by {
                if w < v {
                    assert(present(mid, c, base as nat));
                } else {
                    assert(w as u32 == v);
                }
            }
            lemma_roll_sum_bound(b0, base as nat, z as nat, v as nat);
            lemma_sizes(base as nat, (z - 1) as nat);
            let k = total_bound(base as nat, (z - 1) as nat);
            assert(v * k <= 60500000000) by (nonlinear_arith)
                requires v <= 6, 0 <= k <= 10077696000;
            assert(roll_sum(b0, base as nat, z as nat, v as nat) == sum + best);
        }
        sum = sum + best;
        decisions[(v - 1) as usize] = pos;
        v = v + 1;
    }
    let ghost old_scores = out.scores@;
    let ghost old_moves = out.moves@;
    assert(table_sound(old_scores, old_moves, base as nat));
    out.moves.set(idx, decisions);
    out.scores.set(idx, Some(sum));
    proof {
        assert forall|b: Seq<u32>|
            is_board(b, 9, base as nat) && count_zeros(b) >= 1 && (out.scores@[
                #[trigger] value_of(b, base as nat) as int] is Some) implies {
            &&& out.scores@[value_of(b, base as nat) as int]->0 == total(b, base as nat, count_zeros(b))
            &&& forall|w: int|
                1 <= w < base ==> out.moves@[value_of(b, base as nat) as int][w - 1] as int == #[trigger] best_cell(
                    b,
                    base as nat,
                    count_zeros(b),
                    w as u32,
                    9,
                )
        } by {
            lemma_value_bound(b, base as nat);
            if value_of(b, base as nat) == idx {
                lemma_value_injective(b, b0, base as nat);
            }
        }
        lemma_table_update(old_scores, old_moves, out.scores@, out.moves@, base as nat, b0, z as nat, v as int);
    }
    sum
}

/// The optimal total of `board`, which has `z` empty cells, computed through the tables of
/// `out`: entries already present are reused, and missing ones are filled on the way.
pub fn resolve(z: usize, board: &mut Vec<u32>, base: usize, out: &mut Output) -> (r: i64)
    requires
        2 <= base <= 7,
        1 <= z <= 9,
        is_board(old(board)@, 9, base as nat),
        count_zeros(old(board)@) == z,
        table_sound(old(out).scores@, old(out).moves@, base as nat),
        table_closed(old(out).scores@, old(out).moves@, base as nat),
    ensures
        final(board)@ == old(board)@,
        table_sound(final(out).scores@, final(out).moves@, base as nat),
        table_closed(final(out).scores@, final(out).moves@, base as nat),
        grows(old(out).scores@, final(out).scores@, base as nat),
        forall|c: Seq<u32>|
            is_board(c, 9, base as nat) && #[trigger] extends(old(board)@, c) && count_zeros(c) >= 1
                ==> present(final(out).scores@, c, base as nat),
        r == total(old(board)@, base as nat, z as nat),
        final(out).scores@[value_of(old(board)@, base as nat) as int] == Some(r),
{
    roll_dice(z, board, base, out, true)
}

/// Solves the game from the empty board by plain recursion over every order of play.
pub fn naive(base: usize) -> (r: Output)
    requires
        2 <= base <= 7,
    ensures
        table_sound(r.scores@, r.moves@, base as nat),
        table_closed(r.scores@, r.moves@, base as nat),
        table_complete(r.scores@, base as nat),
        r.scores@[0] matches Some(x) && x == total(empty_board(), base as nat, 9),
{
    build_from_empty(base, false)
}

/// Solves the game from the empty board by recursion that reuses every board's entry once
/// it has been computed.
pub fn with_cache(base: usize) -> (r: Output)
    requires
        2 <= base <= 7,
    ensures
        table_sound(r.scores@, r.moves@, base as nat),
        table_closed(r.scores@, r.moves@, base as nat),
        table_complete(r.scores@, base as nat),
        r.scores@[0] matches Some(x) && x == total(empty_board(), base as nat, 9),
{
    build_from_empty(base, true)
}

fn build_from_empty(base: usize, use_cache: bool) -> (r: Output)
    requires
        2 <= base <= 7,
    ensures
        table_sound(r.scores@, r.moves@, base as nat),
        table_closed(r.scores@, r.moves@, base as nat),
        table_complete(r.scores@, base as nat),
        r.scores@[0] matches Some(x) && x == total(empty_board(), base as nat, 9),
{
    let mut out = Output::new(base);
    let mut board: Vec<u32> = vec![0u32, 0, 0, 0, 0, 0, 0, 0, 0];
    proof {
        assert(board@ =~= empty_board());
        lemma_all_zeros(board@, base as nat);
    }
    roll_dice(9, &mut board, base, &mut out, use_cache);
    proof {
        assert forall|c: Seq<u32>| is_board(c, 9, base as nat) implies (#[trigger] present(
            out.scores@,
            c,
            base as nat,
        ) <==> count_zeros(c) >= 1) by {
            assert(extends(empty_board(), c));
        }
    }
    out
}

} // verus!
