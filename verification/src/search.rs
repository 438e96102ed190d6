//! Exhaustive depth-first enumeration over board states: every capture
//! sequence that clears the board is collected, and the number of candidate
//! moves examined is tallied in total and per move index.

use vstd::prelude::*;

use crate::bits::{in_range, lemma_count_zero, pawn_count, sq_occupied};
use crate::board::{
    apply_move, board_wf, lemma_apply_move, lemma_next_moves_valid, moves_valid, next_moves_spec,
    Board,
};

verus! {

/// Aggregate outcome of a search: the capture sequences found, the total
/// number of candidate moves examined, and that count split by move index.
pub struct Results {
    /// Every complete capture sequence found, in discovery order.
    pub solutions: Vec<Vec<(u8, u8)>>,
    /// Total number of candidate moves examined over the whole search.
    pub games: u64,
    /// Candidate moves examined per move index: entry d counts the searches
    /// expanded while 16 - d pawns were left to take.
    pub depth_games: [u64; 16],
}

/// The move sequences held by a list of solutions.
pub open spec fn solution_views(s: Seq<Vec<(u8, u8)>>) -> Seq<Seq<(u8, u8)>> {
    Seq::new(s.len(), |i: int| s[i]@)
}

/// Number of candidate moves the search examines from board b with `left`
/// captures still to make: the branch count of this node plus the counts of
/// all deeper nodes.
pub open spec fn expansions(b: Board, left: nat) -> nat
    decreases left, 9int,
{
    if left == 0 {
        0
    } else {
        next_moves_spec(b).len() + expansions_sum(b, next_moves_spec(b), left)
    }
}

/// Sum of `expansions` over the subtrees rooted at each move of ms.
pub open spec fn expansions_sum(b: Board, ms: Seq<(u8, u8)>, left: nat) -> nat
    decreases left, ms.len() as int,
{
    if ms.len() == 0 || left < 2 {
        0
    } else {
        expansions(apply_move(b, ms[0].0, ms[0].1), (left - 1) as nat) + expansions_sum(
            b,
            ms.drop_first(),
            left,
        )
    }
}

/// The part of `expansions` examined at move index d + 1, that is at nodes
/// where 16 - d captures were still to make.
pub open spec fn depth_expansions(b: Board, left: nat, d: int) -> nat
    decreases left, 9int,
{
    if left == 0 {
        0
    } else {
        (if d == 16 - left {
            next_moves_spec(b).len()
        } else {
            0nat
        }) + depth_sum(b, next_moves_spec(b), left, d)
    }
}

/// Sum of `depth_expansions` over the subtrees rooted at each move of ms.
pub open spec fn depth_sum(b: Board, ms: Seq<(u8, u8)>, left: nat, d: int) -> nat
    decreases left, ms.len() as int,
{
    if ms.len() == 0 || left < 2 {
        0
    } else {
        depth_expansions(apply_move(b, ms[0].0, ms[0].1), (left - 1) as nat, d) + depth_sum(
            b,
            ms.drop_first(),
            left,
            d,
        )
    }
}

/// Every complete capture sequence the search discovers from board b, each
/// extending `prefix`, with `left` captures still to make; in discovery
/// order.
pub open spec fn solutions_from(b: Board, prefix: Seq<(u8, u8)>, left: nat) -> Seq<Seq<(u8, u8)>>
    decreases left, 9int,
{
    if left == 0 {
        Seq::empty()
    } else {
        sols_sum(b, next_moves_spec(b), prefix, left)
    }
}

/// Concatenation of the solutions discovered under each move of ms, in order.
pub open spec fn sols_sum(b: Board, ms: Seq<(u8, u8)>, prefix: Seq<(u8, u8)>, left: nat) -> Seq<
    Seq<(u8, u8)>,
>
    decreases left, ms.len() as int,
{
    if ms.len() == 0 || left == 0 {
        Seq::empty()
    } else {
        (if left == 1 {
            seq![prefix.push(ms[0])]
        } else {
            solutions_from(apply_move(b, ms[0].0, ms[0].1), prefix.push(ms[0]), (left - 1) as nat)
        }) + sols_sum(b, ms.drop_first(), prefix, left)
    }
}

/// The board reached by applying a move sequence in order.
pub open spec fn replay(b: Board, moves: Seq<(u8, u8)>) -> Board
    decreases moves.len(),
{
    if moves.len() == 0 {
        b
    } else {
        replay(apply_move(b, moves[0].0, moves[0].1), moves.drop_first())
    }
}

proof fn lemma_expansions_sum_push(b: Board, ms: Seq<(u8, u8)>, m: (u8, u8), left: nat)
    requires
        left >= 2,
    ensures
        expansions_sum(b, ms.push(m), left) == expansions_sum(b, ms, left) + expansions(
            apply_move(b, m.0, m.1),
            (left - 1) as nat,
        ),
    decreases ms.len(),
{
    reveal_with_fuel(expansions_sum, 3);
    if ms.len() == 0 {
        assert(ms.push(m)[0] == m);
        assert(ms.push(m).drop_first() =~= Seq::<(u8, u8)>::empty());
    } else {
        assert(ms.push(m)[0] == ms[0]);
        assert(ms.push(m).drop_first() =~= ms.drop_first().push(m));
        lemma_expansions_sum_push(b, ms.drop_first(), m, left);
    }
}

proof fn lemma_depth_sum_push(b: Board, ms: Seq<(u8, u8)>, m: (u8, u8), left: nat, d: int)
    requires
        left >= 2,
    ensures
        depth_sum(b, ms.push(m), left, d) == depth_sum(b, ms, left, d) + depth_expansions(
            apply_move(b, m.0, m.1),
            (left - 1) as nat,
            d,
        ),
    decreases ms.len(),
{
    reveal_with_fuel(depth_sum, 3);
    if ms.len() == 0 {
        assert(ms.push(m)[0] == m);
        assert(ms.push(m).drop_first() =~= Seq::<(u8, u8)>::empty());
    } else {
        assert(ms.push(m)[0] == ms[0]);
        assert(ms.push(m).drop_first() =~= ms.drop_first().push(m));
        lemma_depth_sum_push(b, ms.drop_first(), m, left, d);
    }
}

proof fn lemma_sols_sum_push(b: Board, ms: Seq<(u8, u8)>, m: (u8, u8), prefix: Seq<(u8, u8)>, left: nat)
    requires
        left >= 1,
    ensures
        sols_sum(b, ms.push(m), prefix, left) == sols_sum(b, ms, prefix, left) + (if left == 1 {
            seq![prefix.push(m)]
        } else {
            solutions_from(apply_move(b, m.0, m.1), prefix.push(m), (left - 1) as nat)
        }),
    decreases ms.len(),
{
    reveal_with_fuel(sols_sum, 3);
    if ms.len() == 0 {
        assert(ms.push(m)[0] == m);
        assert(ms.push(m).drop_first() =~= Seq::<(u8, u8)>::empty());
        assert(sols_sum(b, ms.push(m), prefix, left) =~= sols_sum(b, ms, prefix, left) + (if left
            == 1 {
            seq![prefix.push(m)]
        } else {
            solutions_from(apply_move(b, m.0, m.1), prefix.push(m), (left - 1) as nat)
        }));
    } else {
        assert(ms.push(m)[0] == ms[0]);
        assert(ms.push(m).drop_first() =~= ms.drop_first().push(m));
        lemma_sols_sum_push(b, ms.drop_first(), m, prefix, left);
        assert(sols_sum(b, ms.push(m), prefix, left) =~= sols_sum(b, ms, prefix, left) + (if left
            == 1 {
            seq![prefix.push(m)]
        } else {
            solutions_from(apply_move(b, m.0, m.1), prefix.push(m), (left - 1) as nat)
        }));
    }
}

proof fn lemma_expansions_sum_take_le(b: Board, ms: Seq<(u8, u8)>, left: nat, j: int)
    requires
        0 <= j <= ms.len(),
    ensures
        expansions_sum(b, ms.take(j), left) <= expansions_sum(b, ms, left),
    decreases ms.len() - j,
{
    if j == ms.len() {
        assert(ms.take(j) =~= ms);
    } else {
        assert(ms.take(j + 1) =~= ms.take(j).push(ms[j]));
        if left >= 2 {
            lemma_expansions_sum_push(b, ms.take(j), ms[j], left);
        }
        lemma_expansions_sum_take_le(b, ms, left, j + 1);
    }
}

proof fn lemma_depth_le_total(b: Board, left: nat, d: int)
    ensures
        depth_expansions(b, left, d) <= expansions(b, left),
    decreases left, 9int,
{
    if left > 0 {
        lemma_depth_sum_le(b, next_moves_spec(b), left, d);
    }
}

proof fn lemma_depth_sum_le(b: Board, ms: Seq<(u8, u8)>, left: nat, d: int)
    ensures
        depth_sum(b, ms, left, d) <= expansions_sum(b, ms, left),
    decreases left, ms.len() as int,
{
    if ms.len() != 0 && left >= 2 {
        lemma_depth_le_total(apply_move(b, ms[0].0, ms[0].1), (left - 1) as nat, d);
        lemma_depth_sum_le(b, ms.drop_first(), left, d);
    }
}

/// An exact copy of a move list.
fn clone_moves(src: &Vec<(u8, u8)>) -> (out: Vec<(u8, u8)>)
    ensures
        out@ == src@,
{
    let mut out: Vec<(u8, u8)> = Vec::new();
    let mut i: usize = 0;
    while i < src.len()
        invariant
            i <= src@.len(),
            out@ == src@.take(i as int),
        decreases src@.len() - i,
    {
        out.push(src[i]);
        proof {
            assert(out@ =~= src@.take(i as int + 1));
        }
        i += 1;
    }
    proof {
        assert(out@ =~= src@);
    }
    out
}

impl Results {
    /// A fresh accumulator: no solutions yet, every count zero.
    pub fn new() -> (r: Results)
        ensures
            r.solutions@ =~= Seq::<Vec<(u8, u8)>>::empty(),
            r.games == 0,
            forall|d: int| 0 <= d < 16 ==> #[trigger] r.depth_games@[d] == 0,
    {
        Results { solutions: Vec::new(), games: 0, depth_games: [0u64;16] }
    }
}

impl Default for Results {
    fn default() -> (r: Results)
        ensures
            r.solutions@ =~= Seq::<Vec<(u8, u8)>>::empty(),
            r.games == 0,
            forall|d: int| 0 <= d < 16 ==> #[trigger] r.depth_games@[d] == 0,
    {
        Results::new()
    }
}

/// Explores every legal continuation of `board` with `left` captures still
/// to make: `moves` is the move prefix that led here, and `results` takes
/// the discovered solutions, the total branch count and the per-index branch
/// counts.
pub fn recurse(board: Board, moves: Vec<(u8, u8)>, left: u8, results: &mut Results)
    requires
        board_wf(board),
        1 <= left <= 16,
        old(results).games + expansions(board, left as nat) <= u64::MAX,
        forall|d: int|
            0 <= d < 16 ==> #[trigger] old(results).depth_games@[d] + expansions(
                board,
                left as nat,
            ) <= u64::MAX,
    ensures
        final(results).games == old(results).games + expansions(board, left as nat),
        forall|d: int|
            0 <= d < 16 ==> #[trigger] final(results).depth_games@[d] == old(
                results,
            ).depth_games@[d] + depth_expansions(board, left as nat, d),
        solution_views(final(results).solutions@) == solution_views(old(results).solutions@)
            + solutions_from(board, moves@, left as nat),
    decreases left,
{
    proof {
        lemma_next_moves_valid(board);
    }
    let ghost res0 = *results;
    let ghost ms = next_moves_spec(board);

    // Get all possible next moves
    let available_moves = board.next_moves();
    let n = available_moves.len();

    results.games = results.games + n as u64;
    let di = (16 - left) as usize;
    let cur = results.depth_games[di];
    results.depth_games[di] = cur + n as u64;

    proof {
        assert(ms.take(0) =~= Seq::<(u8, u8)>::empty());
        assert(solution_views(results.solutions@) =~= solution_views(res0.solutions@) + sols_sum(
            board,
            ms.take(0),
            moves@,
            left as nat,
        ));
    }

    // Iterate next moves
    let mut i: usize = 0;
    while i < n
        invariant
            board_wf(board),
            1 <= left <= 16,
            ms == next_moves_spec(board),
            available_moves@ == ms,
            n == ms.len(),
            moves_valid(board.board, ms),
            i <= n,
            res0.games + expansions(board, left as nat) <= u64::MAX,
            forall|d: int|
                0 <= d < 16 ==> #[trigger] res0.depth_games@[d] + expansions(board, left as nat)
                    <= u64::MAX,
            results.games == res0.games + n + expansions_sum(board, ms.take(i as int), left as nat),
            forall|d: int|
                0 <= d < 16 ==> #[trigger] results.depth_games@[d] == res0.depth_games@[d] + (if d
                    == 16 - left {
                    n as nat
                } else {
                    0nat
                }) + depth_sum(board, ms.take(i as int), left as nat, d),
            solution_views(results.solutions@) == solution_views(res0.solutions@) + sols_sum(
                board,
                ms.take(i as int),
                moves@,
                left as nat,
            ),
        decreases n - i,
    {
        let (row, col) = available_moves[i];
        proof {
            assert(ms[i as int] == (row, col));
            assert(in_range(row as int, col as int) && sq_occupied(
                board.board,
                row as int,
                col as int,
            ));
            assert(ms.take(i as int + 1) =~= ms.take(i as int).push((row, col)));
        }

        // Build next board
        let mut next_board = board.clone();
        next_board.move_to(row, col);
        let ghost child = apply_move(board, row, col);

        // Add this move to a copy of the moves vector
        let mut next_move_list = clone_moves(&moves);
        next_move_list.push((row, col));
        proof {
            assert(next_move_list@ =~= moves@.push((row, col)));
        }

        if left == 1 {
            // Taking the last pawn
            let ghost pre = results.solutions@;
            results.solutions.push(next_move_list);
            proof {
                lemma_sols_sum_push(board, ms.take(i as int), (row, col), moves@, 1nat);
                assert(solution_views(pre.push(next_move_list)) =~= solution_views(pre).push(
                    moves@.push((row, col)),
                ));
                assert((solution_views(res0.solutions@) + sols_sum(
                    board,
                    ms.take(i as int),
                    moves@,
                    1nat,
                )).push(moves@.push((row, col))) =~= solution_views(res0.solutions@) + sols_sum(
                    board,
                    ms.take(i as int + 1),
                    moves@,
                    1nat,
                ));
            }
        } else {
            proof {
                lemma_expansions_sum_push(board, ms.take(i as int), (row, col), left as nat);
                lemma_expansions_sum_take_le(board, ms, left as nat, i as int + 1);
                assert(expansions_sum(board, ms.take(i as int), left as nat) + expansions(
                    child,
                    (left - 1) as nat,
                ) <= expansions_sum(board, ms, left as nat));
                assert forall|d: int| 0 <= d < 16 implies #[trigger] results.depth_games@[d]
                    + expansions(child, (left - 1) as nat) <= u64::MAX by {
                    lemma_depth_sum_le(board, ms.take(i as int), left as nat, d);
                }
            }
            // Recurse
            recurse(next_board, next_move_list, left - 1, results);
            proof {
                lemma_sols_sum_push(board, ms.take(i as int), (row, col), moves@, left as nat);
                assert(solution_views(results.solutions@) =~= solution_views(res0.solutions@)
                    + sols_sum(board, ms.take(i as int + 1), moves@, left as nat));
                assert forall|d: int| 0 <= d < 16 implies #[trigger] results.depth_games@[d]
                    == res0.depth_games@[d] + (if d == 16 - left {
                    n as nat
                } else {
                    0nat
                }) + depth_sum(board, ms.take(i as int + 1), left as nat, d) by {
                    lemma_depth_sum_push(board, ms.take(i as int), (row, col), left as nat, d);
                }
            }
        }
        i += 1;
    }
    proof {
        assert(ms.take(n as int) =~= ms);
        assert(solution_views(results.solutions@) =~= solution_views(res0.solutions@)
            + solutions_from(board, moves@, left as nat));
    }
}


/// A closed-form ceiling on `expansions`: at most eight moves per node, over
/// at most `left` levels.
pub open spec fn expansions_bound(left: nat) -> nat
    decreases left,
{
    if left == 0 {
        0
    } else {
        8 + 8 * expansions_bound((left - 1) as nat)
    }
}

proof fn lemma_expansions_le_bound(b: Board, left: nat)
    ensures
        expansions(b, left) <= expansions_bound(left),
    decreases left, 9int,
{
    if left > 0 {
        let ms = next_moves_spec(b);
        lemma_expansions_sum_le_bound(b, ms, left);
        assert(ms.len() <= 8);
        let bb = expansions_bound((left - 1) as nat);
        assert(ms.len() * bb <= 8 * bb) by (nonlinear_arith)
            requires
                ms.len() <= 8,
                bb >= 0,
        ;
    }
}

proof fn lemma_expansions_sum_le_bound(b: Board, ms: Seq<(u8, u8)>, left: nat)
    requires
        left >= 1,
    ensures
        expansions_sum(b, ms, left) <= ms.len() * expansions_bound((left - 1) as nat),
    decreases left, ms.len() as int,
{
    let bb = expansions_bound((left - 1) as nat);
    if ms.len() == 0 || left < 2 {
        assert(ms.len() * bb >= 0) by (nonlinear_arith)
            requires
                bb >= 0,
                ms.len() >= 0,
        ;
    } else {
        lemma_expansions_le_bound(apply_move(b, ms[0].0, ms[0].1), (left - 1) as nat);
        lemma_expansions_sum_le_bound(b, ms.drop_first(), left);
        assert((ms.len() - 1) * bb + bb == ms.len() * bb) by (nonlinear_arith)
            requires
                ms.len() >= 1,
        ;
    }
}

proof fn lemma_expansions_bound_mono(a: nat, c: nat)
    requires
        a <= c,
    ensures
        expansions_bound(a) <= expansions_bound(c),
    decreases c,
{
    if a < c {
        lemma_expansions_bound_mono(a, (c - 1) as nat);
        let bb = expansions_bound((c - 1) as nat);
        assert(bb <= 8 * bb) by (nonlinear_arith)
            requires
                bb >= 0,
        ;
    }
}

proof fn lemma_expansions_bound_16()
    ensures
        expansions_bound(16) < 0x2_0000_0000_0000,
{
    assert(expansions_bound(0) == 0);
    assert(expansions_bound(1) == 8);
    assert(expansions_bound(2) == 72);
    assert(expansions_bound(3) == 584);
    assert(expansions_bound(4) == 4680);
    assert(expansions_bound(5) == 37448);
    assert(expansions_bound(6) == 299592);
    assert(expansions_bound(7) == 2396744);
    assert(expansions_bound(8) == 19173960);
    assert(expansions_bound(9) == 153391688);
    assert(expansions_bound(10) == 1227133512);
    assert(expansions_bound(11) == 9817068104);
    assert(expansions_bound(12) == 78536544840);
    assert(expansions_bound(13) == 628292358728);
    assert(expansions_bound(14) == 5026338869832);
    assert(expansions_bound(15) == 40210710958664);
    assert(expansions_bound(16) == 321685687669320);
}

/// Runs the whole search from a starting board holding `pawns` pawns, with a
/// fresh accumulator: afterwards the accumulator holds exactly the branch
/// counts and the solutions of the full game tree.
pub fn solve(board: Board, pawns: u8) -> (results: Results)
    requires
        board_wf(board),
        1 <= pawns <= 16,
    ensures
        results.games == expansions(board, pawns as nat),
        forall|d: int|
            0 <= d < 16 ==> #[trigger] results.depth_games@[d] == depth_expansions(
                board,
                pawns as nat,
                d,
            ),
        solution_views(results.solutions@) == solutions_from(board, Seq::empty(), pawns as nat),
    {
    let mut results = Results::new();
    proof {
        lemma_expansions_le_bound(board, pawns as nat);
        lemma_expansions_bound_mono(pawns as nat, 16);
        lemma_expansions_bound_16();
        assert(solution_views(results.solutions@) =~= Seq::<Seq<(u8, u8)>>::empty());
    }
    let start_moves: Vec<(u8, u8)> = Vec::new();
    recurse(board, start_moves, pawns, &mut results);
    proof {
        assert(solution_views(results.solutions@) =~= solutions_from(
            board,
            Seq::empty(),
            pawns as nat,
        ));
    }
    results
}


/// The move sequence s extends `prefix` by exactly `left` further moves, and
/// replaying those further moves from board b takes every pawn off.
pub open spec fn solution_ok(b: Board, prefix: Seq<(u8, u8)>, left: nat, s: Seq<(u8, u8)>) -> bool {
    &&& s.len() == prefix.len() + left
    &&& s.take(prefix.len() as int) == prefix
    &&& replay(b, s.skip(prefix.len() as int)).board == 0
}

proof fn lemma_solutions_from_ok(b: Board, prefix: Seq<(u8, u8)>, left: nat)
    requires
        board_wf(b),
        left >= 1,
        pawn_count(b.board) == left,
    ensures
        forall|i: int|
            0 <= i < solutions_from(b, prefix, left).len() ==> solution_ok(
                b,
                prefix,
                left,
                #[trigger] solutions_from(b, prefix, left)[i],
            ),
    decreases left, 9int,
{
    lemma_next_moves_valid(b);
    lemma_sols_sum_ok(b, next_moves_spec(b), prefix, left);
    assert forall|i: int| 0 <= i < solutions_from(b, prefix, left).len() implies solution_ok(
        b,
        prefix,
        left,
        #[trigger] solutions_from(b, prefix, left)[i],
    ) by {
        assert(solutions_from(b, prefix, left)[i] == sols_sum(
            b,
            next_moves_spec(b),
            prefix,
            left,
        )[i]);
    }
}

proof fn lemma_sols_sum_ok(b: Board, ms: Seq<(u8, u8)>, prefix: Seq<(u8, u8)>, left: nat)
    requires
        board_wf(b),
        left >= 1,
        pawn_count(b.board) == left,
        moves_valid(b.board, ms),
    ensures
        forall|i: int|
            0 <= i < sols_sum(b, ms, prefix, left).len() ==> solution_ok(
                b,
                prefix,
                left,
                #[trigger] sols_sum(b, ms, prefix, left)[i],
            ),
    decreases left, ms.len() as int,
{
    if ms.len() == 0 {
        return;
    }
    let m = ms[0];
    let child = apply_move(b, m.0, m.1);
    let p = prefix.len() as int;
    assert(in_range(m.0 as int, m.1 as int) && sq_occupied(b.board, m.0 as int, m.1 as int));
    lemma_apply_move(b.board, m.0, m.1);
    let head = if left == 1 {
        seq![prefix.push(m)]
    } else {
        solutions_from(child, prefix.push(m), (left - 1) as nat)
    };
    assert forall|i: int| 0 <= i < head.len() implies solution_ok(
        b,
        prefix,
        left,
        #[trigger] head[i],
    ) by {
        let s = head[i];
        if left == 1 {
            assert(s == prefix.push(m));
            assert(s.take(p) =~= prefix);
            assert(s.skip(p) =~= seq![m]);
            assert(seq![m].drop_first() =~= Seq::<(u8, u8)>::empty());
            assert(replay(b, seq![m]) == replay(child, Seq::empty()));
            assert(pawn_count(child.board) == 0);
            lemma_count_zero(child.board);
        } else {
            lemma_solutions_from_ok(child, prefix.push(m), (left - 1) as nat);
            assert(solution_ok(child, prefix.push(m), (left - 1) as nat, s));
            assert(s.take(p + 1) == prefix.push(m));
            assert(s.take(p) =~= s.take(p + 1).take(p));
            assert(prefix.push(m).take(p) =~= prefix);
            assert(s[p] == s.take(p + 1)[p]);
            assert(s[p] == m);
            assert(s.skip(p)[0] == s[p]);
            assert(s.skip(p).drop_first() =~= s.skip(p + 1));
            assert(replay(b, s.skip(p)) == replay(child, s.skip(p + 1)));
        }
    }
    lemma_sols_sum_ok(b, ms.drop_first(), prefix, left);
    let rest = sols_sum(b, ms.drop_first(), prefix, left);
    assert forall|i: int| 0 <= i < sols_sum(b, ms, prefix, left).len() implies solution_ok(
        b,
        prefix,
        left,
        #[trigger] sols_sum(b, ms, prefix, left)[i],
    ) by {
        assert(sols_sum(b, ms, prefix, left) == head + rest);
        if i < head.len() {
            assert((head + rest)[i] == head[i]);
        } else {
            assert((head + rest)[i] == rest[i - head.len()]);
        }
    }
}

/// Law: every solution of a full search has exactly as many moves as the
/// board has pawns, and replaying it from the starting board empties the
/// occupancy mask.
pub proof fn lemma_solutions_clear_board(b: Board, left: nat)
    requires
        board_wf(b),
        left >= 1,
        pawn_count(b.board) == left,
    ensures
        forall|i: int|
            0 <= i < solutions_from(b, Seq::empty(), left).len() ==> {
                let s = #[trigger] solutions_from(b, Seq::empty(), left)[i];
                &&& s.len() == left
                &&& replay(b, s).board == 0
            },
{
    lemma_solutions_from_ok(b, Seq::empty(), left);
    assert forall|i: int| 0 <= i < solutions_from(b, Seq::empty(), left).len() implies {
        let s = #[trigger] solutions_from(b, Seq::empty(), left)[i];
        &&& s.len() == left
        &&& replay(b, s).board == 0
    } by {
        let s = solutions_from(b, Seq::empty(), left)[i];
        assert(solution_ok(b, Seq::empty(), left, s));
        assert(s.skip(0) =~= s);
    }
}

/// Sum of `depth_expansions` over the move indices [0, n).
pub open spec fn depth_total(b: Board, left: nat, n: int) -> nat
    decreases n,
{
    if n <= 0 {
        0
    } else {
        depth_total(b, left, n - 1) + depth_expansions(b, left, n - 1)
    }
}

spec fn depth_sum_total(b: Board, ms: Seq<(u8, u8)>, left: nat, n: int) -> nat
    decreases n,
{
    if n <= 0 {
        0
    } else {
        depth_sum_total(b, ms, left, n - 1) + depth_sum(b, ms, left, n - 1)
    }
}

proof fn lemma_depth_total_split(b: Board, left: nat, n: int)
    requires
        1 <= left <= 16,
    ensures
        depth_total(b, left, n) == (if 16 - left < n {
            next_moves_spec(b).len() as nat
        } else {
            0nat
        }) + depth_sum_total(b, next_moves_spec(b), left, n),
    decreases n,
{
    if n > 0 {
        lemma_depth_total_split(b, left, n - 1);
    }
}

proof fn lemma_depth_sum_total_zero(b: Board, ms: Seq<(u8, u8)>, left: nat, n: int)
    requires
        ms.len() == 0 || left < 2,
    ensures
        depth_sum_total(b, ms, left, n) == 0,
    decreases n,
{
    if n > 0 {
        lemma_depth_sum_total_zero(b, ms, left, n - 1);
    }
}

proof fn lemma_depth_sum_total_cons(b: Board, ms: Seq<(u8, u8)>, left: nat, n: int)
    requires
        left >= 2,
        ms.len() > 0,
    ensures
        depth_sum_total(b, ms, left, n) == depth_total(
            apply_move(b, ms[0].0, ms[0].1),
            (left - 1) as nat,
            n,
        ) + depth_sum_total(b, ms.drop_first(), left, n),
    decreases n,
{
    if n > 0 {
        lemma_depth_sum_total_cons(b, ms, left, n - 1);
    }
}

proof fn lemma_depth_sum_total_eq(b: Board, ms: Seq<(u8, u8)>, left: nat)
    requires
        2 <= left <= 16,
    ensures
        depth_sum_total(b, ms, left, 16) == expansions_sum(b, ms, left),
    decreases left, ms.len() as int,
{
    if ms.len() == 0 {
        lemma_depth_sum_total_zero(b, ms, left, 16);
    } else {
        lemma_depth_sum_total_cons(b, ms, left, 16);
        lemma_depth_counts_sum(apply_move(b, ms[0].0, ms[0].1), (left - 1) as nat);
        lemma_depth_sum_total_eq(b, ms.drop_first(), left);
    }
}

/// Law: summed over all sixteen move indices, the per-index branch counts of
/// a search equal its total branch count.
pub proof fn lemma_depth_counts_sum(b: Board, left: nat)
    requires
        1 <= left <= 16,
    ensures
        depth_total(b, left, 16) == expansions(b, left),
    decreases left, 9int,
{
    lemma_depth_total_split(b, left, 16);
    if left == 1 {
        lemma_depth_sum_total_zero(b, next_moves_spec(b), left, 16);
    } else {
        lemma_depth_sum_total_eq(b, next_moves_spec(b), left);
    }
}

/// Law: the outcome of a search is a function of the starting board and the
/// pawn count alone; any two accumulators that hold the outcome of the same
/// search from fresh state agree exactly.
pub proof fn lemma_search_deterministic(r1: Results, r2: Results, b: Board, pawns: u8)
    requires
        r1.games == expansions(b, pawns as nat),
        r2.games == expansions(b, pawns as nat),
        solution_views(r1.solutions@) == solutions_from(b, Seq::empty(), pawns as nat),
        solution_views(r2.solutions@) == solutions_from(b, Seq::empty(), pawns as nat),
        forall|d: int|
            0 <= d < 16 ==> #[trigger] r1.depth_games@[d] == depth_expansions(b, pawns as nat, d),
        forall|d: int|
            0 <= d < 16 ==> #[trigger] r2.depth_games@[d] == depth_expansions(b, pawns as nat, d),
    ensures
        r1.games == r2.games,
        solution_views(r1.solutions@) == solution_views(r2.solutions@),
        r1.depth_games@ == r2.depth_games@,
{
    assert(r1.depth_games@ =~= r2.depth_games@);
}

} // verus!
