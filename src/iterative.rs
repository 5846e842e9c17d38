use vstd::prelude::*;
use crate::counting::{digit_numbers, is_board};
use crate::optimal::{
    Output,
    count_zeros,
    empty_board,
    lemma_all_zeros,
    lemma_sizes,
    present,
    table_closed,
    table_complete,
    table_sound,
    total,
};
use crate::recursive::resolve;

verus! {

/// Solves the game by backward induction: the boards are taken class by class in
/// increasing number of empty cells, so that each board is resolved from the entries of
/// the boards one placement further on.
pub fn explicit_dynamic_programming(base: usize) -> (r: Output)
    requires
        2 <= base <= 7,
    ensures
        table_sound(r.scores@, r.moves@, base as nat),
        table_closed(r.scores@, r.moves@, base as nat),
        table_complete(r.scores@, base as nat),
        r.scores@[0] matches Some(x) && x == total(empty_board(), base as nat, 9),
{
    proof {
        lemma_sizes(base as nat, 9);
    }
    let mut out = Output::new(base);
    let mut num_zeros: usize = 1;
    while num_zeros <= 9
        invariant
            2 <= base <= 7,
            1 <= num_zeros <= 10,
            vstd::arithmetic::power::pow(base as int, 9) <= 40353607,
            table_sound(out.scores@, out.moves@, base as nat),
            table_closed(out.scores@, out.moves@, base as nat),
            forall|b: Seq<u32>|
                is_board(b, 9, base as nat) && 1 <= count_zeros(b) < num_zeros ==> #[trigger] present(
                    out.scores@,
                    b,
                    base as nat,
                ),
        decreases 10 - num_zeros,
    {
        let boards = digit_numbers(9, base, num_zeros);
        let mut j: usize = 0;
        while j < boards.len()
            invariant
                2 <= base <= 7,
                j <= boards@.len(),
                1 <= num_zeros <= 9,
                forall|t: int| 0 <= t < boards@.len() ==> is_board(#[trigger] boards@[t]@, 9, base as nat),
                forall|t: int| 0 <= t < boards@.len() ==> count_zeros(#[trigger] boards@[t]@) == num_zeros,
                table_sound(out.scores@, out.moves@, base as nat),
                table_closed(out.scores@, out.moves@, base as nat),
                forall|b: Seq<u32>|
                    is_board(b, 9, base as nat) && 1 <= count_zeros(b) < num_zeros ==> #[trigger] present(
                        out.scores@,
                        b,
                        base as nat,
                    ),
                forall|t: int| 0 <= t < j ==> #[trigger] present(out.scores@, boards@[t]@, base as nat),
            decreases boards@.len() - j,
        {
            let mut board = boards[j].clone();
            assert(board@ =~= boards@[j as int]@);
            let ghost before = out.scores@;
            resolve(num_zeros, &mut board, base, &mut out);
            proof {
                assert forall|t: int| 0 <= t <= j implies #[trigger] present(
                    out.scores@,
                    boards@[t]@,
                    base as nat,
                ) by {
                    if t < j {
                        assert(present(before, boards@[t]@, base as nat));
                    }
                }
            }
            j = j + 1;
        }
        proof {
            assert forall|b: Seq<u32>|
                is_board(b, 9, base as nat) && 1 <= count_zeros(b) < num_zeros + 1 implies #[trigger] present(
                    out.scores@,
                    b,
                    base as nat,
                ) by {
                if count_zeros(b) == num_zeros {
                    assert(crate::counting::yielded(boards@, 0, b));
                    let t = choose|t: int| 0 <= t < boards@.len() && boards@[t]@ == b;
                    assert(present(out.scores@, boards@[t]@, base as nat));
                }
            }
        }
        num_zeros = num_zeros + 1;
    }
    proof {
        lemma_all_zeros(empty_board(), base as nat);
        assert(present(out.scores@, empty_board(), base as nat));
        assert forall|c: Seq<u32>| is_board(c, 9, base as nat) implies (#[trigger] present(
            out.scores@,
            c,
            base as nat,
        ) <==> count_zeros(c) >= 1) by {
            crate::counting::lemma_count_zeros_bound(c);
        }
    }
    out
}

} // verus!
