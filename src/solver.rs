use crate::sudoku::{
    block_col, block_of, block_position, block_row, is_block, is_digit_permutation, swapped, zeros,
    Sudoku,
};
use rand::rngs::StdRng;
use vstd::prelude::*;

verus! {

/// Batches without improvement after which the temperature is raised.
pub const STUCK_LIMIT: u32 = 80;

/// A board together with the change of global cost that led to it.
#[derive(Clone, Copy)]
pub struct SudokuState {
    pub sudoku: Sudoku,
    pub difference: i32,
}

/// `after` is `before` with the free cells `k1` and `k2` of block `b` exchanged.
pub open spec fn is_move(fixed: Sudoku, before: Sudoku, after: Sudoku, b: int, k1: int, k2: int) -> bool {
    &&& 0 <= b < 9
    &&& 0 <= k1 < 9
    &&& 0 <= k2 < 9
    &&& k1 != k2
    &&& Sudoku::is_free(fixed, block_position(b, k1))
    &&& Sudoku::is_free(fixed, block_position(b, k2))
    &&& after@ == swapped(
        before@,
        9 * block_position(b, k1).0 + block_position(b, k1).1,
        9 * block_position(b, k2).0 + block_position(b, k2).1,
    )
}

/// `fixed` marks with `1` the given cells of `puzzle` and with `0` the others.
pub open spec fn is_mask_of(fixed: Sudoku, puzzle: Sudoku) -> bool {
    forall|r: int, c: int|
        0 <= r < 9 && 0 <= c < 9 ==> #[trigger] fixed.cell(r, c) == (if puzzle.cell(r, c) != 0 {
            1u32
        } else {
            0u32
        })
}

/// `board` holds every given digit of `puzzle` in its place.
pub open spec fn keeps_givens(puzzle: Sudoku, board: Sudoku) -> bool {
    forall|r: int, c: int|
        0 <= r < 9 && 0 <= c < 9 && puzzle.cell(r, c) != 0 ==> #[trigger] board.cell(r, c)
            == puzzle.cell(r, c)
}

/// Each block of `board` whose givens in `puzzle` are distinct digits holds
/// each digit once.
pub open spec fn blocks_complete(puzzle: Sudoku, board: Sudoku) -> bool {
    forall|b: int|
        0 <= b < 9 && #[trigger] puzzle.block_givens_ok(b) ==> is_digit_permutation(board.block(b))
}

/// A move between free cells keeps the givens of the puzzle and the digits of
/// every block: both hold of every board the search reaches.
pub proof fn lemma_move_preserves(
    puzzle: Sudoku,
    fixed: Sudoku,
    before: Sudoku,
    after: Sudoku,
    b: int,
    k1: int,
    k2: int,
)
    requires
        is_mask_of(fixed, puzzle),
        is_move(fixed, before, after, b, k1, k2),
        keeps_givens(puzzle, before),
        blocks_complete(puzzle, before),
    ensures
        keeps_givens(puzzle, after),
        blocks_complete(puzzle, after),
{
    before.lemma_len();
    crate::sudoku::lemma_block_cells(b, k1);
    crate::sudoku::lemma_block_cells(b, k2);
    let t1 = 9 * block_row(b, k1) + block_col(b, k1);
    let t2 = 9 * block_row(b, k2) + block_col(b, k2);
    assert(fixed.cell(block_row(b, k1), block_col(b, k1)) != 1);
    assert(fixed.cell(block_row(b, k2), block_col(b, k2)) != 1);
    assert forall|r: int, c: int|
        0 <= r < 9 && 0 <= c < 9 && puzzle.cell(r, c) != 0 implies #[trigger] after.cell(r, c)
        == puzzle.cell(r, c) by {
        assert(fixed.cell(r, c) == 1);
        assert(9 * r + c != t1);
        assert(9 * r + c != t2);
        assert(block_position(b, k1).0 as int == block_row(b, k1));
        assert(block_position(b, k1).1 as int == block_col(b, k1));
        assert(block_position(b, k2).0 as int == block_row(b, k2));
        assert(block_position(b, k2).1 as int == block_col(b, k2));
        assert(after@[9 * r + c] == before@[9 * r + c]);
        assert(before.cell(r, c) == puzzle.cell(r, c));
    }
    Sudoku::lemma_swap_in_block(before, after, b, k1, k2);
    assert forall|bb: int|
        0 <= bb < 9 && #[trigger] puzzle.block_givens_ok(bb) implies is_digit_permutation(
        after.block(bb),
    ) by {
        if bb == b {
            let x = before.block(b);
            let y = after.block(b);
            crate::sudoku::lemma_reordered(x, y);
            assert forall|i: int| 0 <= i < 9 implies 1 <= #[trigger] y[i] <= 9 by {
                assert(y.contains(y[i]));
            }
        }
    }
}

/// A waiting move is taken: it does not raise the cost, or the draw accepted it.
pub open spec fn takes(pending: Option<SudokuState>, accepted: bool) -> bool {
    pending matches Some(st) && (st.difference <= 0 || accepted)
}

/// `cost` is the global cost of some random completion of `puzzle`.
pub open spec fn is_completion_cost(puzzle: Sudoku, cost: i32) -> bool {
    exists|w: Sudoku|
        #[trigger] keeps_givens(puzzle, w) && blocks_complete(puzzle, w) && cost == w.global_cost()
}

/// A board that keeps the givens and whose blocks each hold each digit once is,
/// once its global cost is zero, a solution of the puzzle: every row, column and
/// block holds each digit from 1 to 9 exactly once.
pub proof fn lemma_zero_cost_is_solution(puzzle: Sudoku, board: Sudoku)
    requires
        forall|b: int| 0 <= b < 9 ==> #[trigger] puzzle.block_givens_ok(b),
        keeps_givens(puzzle, board),
        blocks_complete(puzzle, board),
        board.global_cost() == 0,
    ensures
        board.lines_solved(),
        forall|b: int| 0 <= b < 9 ==> is_digit_permutation(#[trigger] board.block(b)),
{
    assert forall|r: int, c: int| 0 <= r < 9 && 0 <= c < 9 implies 1 <= #[trigger] board.cell(r, c)
        <= 9 by {
        crate::sudoku::lemma_cell_in_block(r, c);
        let b = block_of(r, c);
        assert(puzzle.block_givens_ok(b));
        assert(board.block(b)[3 * (r % 3) + c % 3] == board.cell(r, c));
    }
    board.lemma_cost_zero_iff_solved();
    assert forall|b: int| 0 <= b < 9 implies is_digit_permutation(#[trigger] board.block(b)) by {
        assert(puzzle.block_givens_ok(b));
    }
}

/// `st` holds a move from `before`, and the change of global cost it brings.
pub open spec fn is_proposal(fixed: Sudoku, before: Sudoku, st: SudokuState) -> bool {
    &&& exists|b: int, k1: int, k2: int| #[trigger] is_move(fixed, before, st.sudoku, b, k1, k2)
    &&& st.difference == st.sudoku.global_cost() - before.global_cost()
}

/// What drawing block `b` gave: `None` exactly when `b` has fewer than two free
/// cells, else a move inside `b` with the change of global cost it brings.
pub open spec fn is_draw_in_block(
    fixed: Sudoku,
    before: Sudoku,
    r: Option<SudokuState>,
    b: int,
) -> bool {
    &&& 0 <= b < 9
    &&& (r is None <==> is_starved(fixed, b))
    &&& r matches Some(st) ==> {
        &&& exists|k1: int, k2: int| #[trigger] is_move(fixed, before, st.sudoku, b, k1, k2)
        &&& st.difference == st.sudoku.global_cost() - before.global_cost()
    }
}

/// Stagnation count after a batch that ended at cost `score`, having begun at
/// `previous`: one more (saturating) when the cost did not fall, else zero.
pub open spec fn stuck_after(stuck: u32, score: int, previous: int) -> u32 {
    if score >= previous {
        if stuck < u32::MAX {
            (stuck + 1) as u32
        } else {
            stuck
        }
    } else {
        0
    }
}

/// Block `b` has fewer than two cells that `fixed` leaves free.
pub open spec fn is_starved(fixed: Sudoku, b: int) -> bool {
    !exists|k1: int, k2: int|
        0 <= k1 < 9 && 0 <= k2 < 9 && k1 != k2 && Sudoku::is_free(
            fixed,
            #[trigger] block_position(b, k1),
        ) && Sudoku::is_free(fixed, #[trigger] block_position(b, k2))
}

/// What the search did with one step.
#[derive(Clone, Copy, Debug, PartialEq, Eq)]
pub enum Step {
    /// The board has no repetition left.
    Solved,
    /// The batch goes on.
    Continue,
    /// A batch ended: cool down, and raise the temperature when `reheat` is set.
    BatchEnd { reheat: bool },
}

/// The integer side of the annealing schedule: how long a batch is, and when
/// the search counts as stuck.
pub struct SASolver {
    stuck_limit: u32,
}

impl SASolver {
    /// Stagnation count above which the temperature is raised.
    pub closed spec fn limit(self) -> u32 {
        self.stuck_limit
    }

    /// The schedule with the usual stagnation limit.
    pub fn new() -> (r: SASolver)
        ensures
            r.limit() == STUCK_LIMIT,
    {
        SASolver { stuck_limit: STUCK_LIMIT }
    }

    /// Number of steps in one batch: the number of cells that `fixed_sudoku` marks.
    pub fn calculate_number_of_iterations(fixed_sudoku: &Sudoku) -> (r: u32)
        ensures
            r == 81 - zeros(fixed_sudoku@),
    {
        proof {
            fixed_sudoku.lemma_len();
            assert(fixed_sudoku@.subrange(0, 81) =~= fixed_sudoku@);
        }
        let mut res: u32 = 0;
        let mut i: usize = 0;
        while i < 81
            invariant
                i <= 81,
                fixed_sudoku@.len() == 81,
                res <= i,
                res + (81 - i) - zeros(fixed_sudoku@.subrange(i as int, 81)) == 81 - zeros(
                    fixed_sudoku@,
                ),
            decreases 81 - i,
        {
            proof {
                assert(fixed_sudoku@.subrange(i as int, 81).drop_first() =~= fixed_sudoku@.subrange(
                    i + 1,
                    81,
                ));
                assert(fixed_sudoku.cell((i / 9) as int, (i % 9) as int) == fixed_sudoku@[i as int]);
            }
            if fixed_sudoku.get(i / 9, i % 9) != 0 {
                res += 1;
            }
            i += 1;
        }
        proof {
            assert(fixed_sudoku@.subrange(0, 81) =~= fixed_sudoku@);
        }
        res
    }

    /// A random move: two free cells of a random block exchanged, with the change
    /// of global cost it brings (computed from the local costs of the two cells).
    /// `None` when the block drawn has fewer than two free cells.
    pub fn propose_state(current: &Sudoku, fixed_sudoku: &Sudoku, rng: &mut StdRng) -> (r: Option<
        SudokuState,
    >)
        ensures
            exists|b: int| #[trigger] is_draw_in_block(*fixed_sudoku, *current, r, b),
            r matches Some(st) ==> is_proposal(*fixed_sudoku, *current, st),
    {
        let block = Sudoku::get_random_block_positions(rng);
        let ghost b = choose|b: int| 0 <= b < 9 && #[trigger] is_block(block@, b);
        proof {
            assert forall|k: int| 0 <= k < 9 implies #[trigger] block@[k].0 < 9 && block@[k].1 < 9 by {
                crate::sudoku::lemma_block_cells(b, k);
            }
            assert forall|i: int, j: int| 0 <= i < 9 && 0 <= j < 9 && i != j implies block@[i]
                != block@[j] by {
                crate::sudoku::lemma_block_cells(b, i);
            }
        }
        match Sudoku::get_two_random_positions_in_block(fixed_sudoku, &block, rng) {
            None => {
                proof {
                    assert forall|k1: int, k2: int|
                        0 <= k1 < 9 && 0 <= k2 < 9 && k1 != k2 && Sudoku::is_free(
                            *fixed_sudoku,
                            #[trigger] block_position(b, k1),
                        ) && Sudoku::is_free(
                            *fixed_sudoku,
                            #[trigger] block_position(b, k2),
                        ) implies false by {
                        assert(block@[k1] == block_position(b, k1));
                        assert(block@[k2] == block_position(b, k2));
                    }
                    assert(is_starved(*fixed_sudoku, b));
                    assert(is_draw_in_block(*fixed_sudoku, *current, None, b));
                }
                None
            },
            Some(pq) => {
                let ghost k1 = choose|k: int| 0 <= k < 9 && block@[k] == pq.0;
                let ghost k2 = choose|k: int| 0 <= k < 9 && block@[k] == pq.1;
                proof {
                    crate::sudoku::lemma_block_cells(b, k1);
                    crate::sudoku::lemma_block_cells(b, k2);
                }
                let mut next = *current;
                next.flip_elements(pq);
                let current_cost = current.calculate_number_of_errors_for_position(pq.0.0, pq.0.1)
                    + current.calculate_number_of_errors_for_position(pq.1.0, pq.1.1);
                let new_cost = next.calculate_number_of_errors_for_position(pq.0.0, pq.0.1)
                    + next.calculate_number_of_errors_for_position(pq.1.0, pq.1.1);
                proof {
                    Sudoku::lemma_swap_delta(
                        *current,
                        next,
                        pq.0.0 as int,
                        pq.0.1 as int,
                        pq.1.0 as int,
                        pq.1.1 as int,
                    );
                    assert(is_move(*fixed_sudoku, *current, next, b, k1, k2));
                    assert(next.global_cost() - current.global_cost() == new_cost - current_cost);
                }
                let st = SudokuState { sudoku: next, difference: new_cost - current_cost };
                assert(is_move(*fixed_sudoku, *current, st.sudoku, b, k1, k2));
                assert(is_proposal(*fixed_sudoku, *current, st));
                proof {
                    assert(block@[k1] == block_position(b, k1));
                    assert(block@[k2] == block_position(b, k2));
                    assert(!is_starved(*fixed_sudoku, b));
                    assert(is_draw_in_block(*fixed_sudoku, *current, Some(st), b));
                }
                Some(st)
            },
        }
    }

    /// Global costs of nine independent random completions of `sudoku`, the
    /// sample from which the starting temperature is estimated.
    pub fn completion_costs(sudoku: &Sudoku, rng: &mut StdRng) -> (r: Vec<i32>)
        ensures
            r.len() == 9,
            forall|i: int| 0 <= i < 9 ==> is_completion_cost(*sudoku, #[trigger] r@[i]),
    {
        let mut costs: Vec<i32> = Vec::new();
        let mut i: usize = 0;
        while i < 9
            invariant
                i <= 9,
                costs.len() == i,
                forall|j: int| 0 <= j < i ==> is_completion_cost(*sudoku, #[trigger] costs@[j]),
            decreases 9 - i,
        {
            let ghost old_costs = costs@;
            let mut tmp_sudoku = *sudoku;
            tmp_sudoku.randomly_fill(rng);
            let cost = tmp_sudoku.calculate_errors();
            costs.push(cost);
            proof {
                assert(keeps_givens(*sudoku, tmp_sudoku));
                assert(blocks_complete(*sudoku, tmp_sudoku));
                assert(is_completion_cost(*sudoku, cost));
                assert forall|j: int| 0 <= j < i + 1 implies is_completion_cost(
                    *sudoku,
                    #[trigger] costs@[j],
                ) by {
                    if j < i {
                        assert(costs@[j] == old_costs[j]);
                    }
                }
            }
            i += 1;
        }
        costs
    }

    /// Some block has two cells that `fixed_sudoku` leaves free, so a move exists.
    pub fn has_movable_block(fixed_sudoku: &Sudoku) -> (r: bool)
        ensures
            r == exists|b: int| 0 <= b < 9 && !#[trigger] is_starved(*fixed_sudoku, b),
    {
        let mut b: usize = 0;
        while b < 9
            invariant
                b <= 9,
                forall|bb: int| 0 <= bb < b ==> #[trigger] is_starved(*fixed_sudoku, bb),
            decreases 9 - b,
        {
            let block = Sudoku::block_positions(b);
            let mut first: Option<usize> = None;
            let mut k: usize = 0;
            while k < 9
                invariant
                    k <= 9,
                    b < 9,
                    is_block(block@, b as int),
                    first is None ==> forall|t: int|
                        0 <= t < k ==> !Sudoku::is_free(*fixed_sudoku, #[trigger] block_position(b as int, t)),
                    first matches Some(f) ==> f < k && Sudoku::is_free(
                        *fixed_sudoku,
                        block_position(b as int, f as int),
                    ) && forall|t: int|
                        0 <= t < k && t != f ==> !Sudoku::is_free(
                            *fixed_sudoku,
                            #[trigger] block_position(b as int, t),
                        ),
                decreases 9 - k,
            {
                let p = block[k];
                proof {
                    crate::sudoku::lemma_block_cells(b as int, k as int);
                }
                if fixed_sudoku.get(p.0, p.1) != 1 {
                    match first {
                        None => {
                            first = Some(k);
                        },
                        Some(f) => {
                            proof {
                                assert(!is_starved(*fixed_sudoku, b as int)) by {
                                    assert(Sudoku::is_free(*fixed_sudoku, block_position(b as int, k as int)));
                                    assert(Sudoku::is_free(*fixed_sudoku, block_position(b as int, f as int)));
                                }
                            }
                            return true;
                        },
                    }
                }
                k += 1;
            }
            proof {
                assert(is_starved(*fixed_sudoku, b as int));
            }
            b += 1;
        }
        false
    }

    /// Metropolis choice: a candidate that does not raise the cost is always
    /// taken; one that raises it is taken when the random draw `accepted` says so.
    /// A rejected candidate leaves the current board, with no change of cost.
    pub fn choose_new_state(current: &Sudoku, candidate: SudokuState, accepted: bool) -> (r:
        SudokuState)
        ensures
            (candidate.difference <= 0 || accepted) ==> r == candidate,
            !(candidate.difference <= 0 || accepted) ==> r.sudoku == *current && r.difference == 0,
    {
        if candidate.difference <= 0 || accepted {
            candidate
        } else {
            SudokuState { sudoku: *current, difference: 0 }
        }
    }

    /// Stagnation count after a batch that ended with `score`, having begun with
    /// `previous_score`: one more when the batch did not improve, else zero.
    pub fn next_stuck_count(&self, stuck: u32, score: i32, previous_score: i32) -> (r: (u32, bool))
        ensures
            r.0 == stuck_after(stuck, score as int, previous_score as int),
            r.1 == (r.0 > self.limit()),
    {
        let s = if score >= previous_score {
            if stuck < u32::MAX {
                stuck + 1
            } else {
                stuck
            }
        } else {
            0
        };
        (s, s > self.stuck_limit)
    }
}

/// The integer side of a simulated-annealing run on one puzzle: the working
/// board, its running cost, the batch and stagnation counters, and the move
/// waiting for the acceptance decision. The temperature is kept by the caller.
pub struct AnnealingSearch {
    puzzle: Sudoku,
    fixed: Sudoku,
    board: Sudoku,
    score: i32,
    iterations: u32,
    done: u32,
    batch_start: i32,
    stuck: u32,
    pending: Option<SudokuState>,
    solver: SASolver,
}

impl AnnealingSearch {
    #[verifier::type_invariant]
    spec fn inv(self) -> bool {
        &&& self.score == self.board.global_cost()
        &&& is_mask_of(self.fixed, self.puzzle)
        &&& keeps_givens(self.puzzle, self.board)
        &&& blocks_complete(self.puzzle, self.board)
        &&& self.iterations == 81 - zeros(self.fixed@)
        &&& self.done <= 81
        &&& self.solver.stuck_limit == STUCK_LIMIT
        &&& (self.done < self.iterations || self.done == 0)
        &&& self.pending matches Some(st) ==> is_proposal(self.fixed, self.board, st)
    }

    /// The puzzle being solved; it never changes.
    pub closed spec fn spec_puzzle(self) -> Sudoku {
        self.puzzle
    }

    /// The mask of the puzzle's given cells.
    pub closed spec fn spec_fixed(self) -> Sudoku {
        self.fixed
    }

    /// The working board.
    pub closed spec fn spec_board(self) -> Sudoku {
        self.board
    }

    /// The move waiting for the acceptance decision.
    pub closed spec fn spec_pending(self) -> Option<SudokuState> {
        self.pending
    }

    /// Steps in one batch: the number of givens (a batch has at least one step).
    pub closed spec fn spec_iterations(self) -> u32 {
        self.iterations
    }

    /// Steps taken in the current batch.
    pub closed spec fn spec_done(self) -> u32 {
        self.done
    }

    /// Cost when the current batch began.
    pub closed spec fn spec_batch_start(self) -> i32 {
        self.batch_start
    }

    /// Batches in a row that did not lower the cost.
    pub closed spec fn spec_stuck(self) -> u32 {
        self.stuck
    }

    /// What holds of every search state: the givens of the puzzle are in place
    /// and every block with consistent givens holds each digit once.
    pub open spec fn holds_givens(self) -> bool {
        &&& keeps_givens(self.spec_puzzle(), self.spec_board())
        &&& blocks_complete(self.spec_puzzle(), self.spec_board())
    }

    /// Starts a search on `puzzle`: the board is a random completion of it.
    pub fn new(puzzle: &Sudoku, rng: &mut StdRng) -> (r: AnnealingSearch)
        ensures
            r.spec_puzzle() == *puzzle,
            is_mask_of(r.spec_fixed(), *puzzle),
            r.holds_givens(),
            r.spec_pending() is None,
            r.spec_iterations() == 81 - zeros(r.spec_fixed()@),
            r.spec_done() == 0,
            r.spec_batch_start() == r.spec_board().global_cost(),
            r.spec_stuck() == 0,
    {
        let fixed = puzzle.get_fixed_values();
        let mut board = *puzzle;
        board.randomly_fill(rng);
        let score = board.calculate_errors();
        let iterations = SASolver::calculate_number_of_iterations(&fixed);
        AnnealingSearch {
            puzzle: *puzzle,
            fixed,
            board,
            score,
            iterations,
            done: 0,
            batch_start: score,
            stuck: 0,
            pending: None,
            solver: SASolver::new(),
        }
    }

    /// The working board.
    pub fn board(&self) -> (r: Sudoku)
        ensures
            r == self.spec_board(),
    {
        self.board
    }

    /// The running cost of the board.
    pub fn score(&self) -> (r: i32)
        ensures
            r == self.spec_board().global_cost(),
    {
        proof {
            use_type_invariant(self);
        }
        self.score
    }

    /// The board has no repetition in any row or column.
    pub fn is_solved(&self) -> (r: bool)
        ensures
            r == (self.spec_board().global_cost() == 0),
    {
        proof {
            use_type_invariant(self);
            self.board.lemma_cost_zero_iff_solved();
        }
        self.score <= 0
    }

    /// Draws a move and keeps it waiting; returns the change of global cost it
    /// would bring, or `None` when the block drawn has no two free cells.
    pub fn propose(&mut self, rng: &mut StdRng) -> (r: Option<i32>)
        ensures
            final(self).spec_board() == old(self).spec_board(),
            final(self).spec_puzzle() == old(self).spec_puzzle(),
            final(self).spec_stuck() == old(self).spec_stuck(),
            final(self).spec_fixed() == old(self).spec_fixed(),
            final(self).holds_givens(),
            r is None <==> final(self).spec_pending() is None,
            exists|b: int|
                #[trigger] is_draw_in_block(
                    old(self).spec_fixed(),
                    old(self).spec_board(),
                    final(self).spec_pending(),
                    b,
                ),
            final(self).spec_iterations() == old(self).spec_iterations(),
            final(self).spec_done() == old(self).spec_done(),
            final(self).spec_batch_start() == old(self).spec_batch_start(),
            r matches Some(d) ==> final(self).spec_pending() matches Some(st) && st.difference == d
                && d == st.sudoku.global_cost() - old(self).spec_board().global_cost(),
    {
        proof {
            use_type_invariant(&*self);
        }
        let proposal = SASolver::propose_state(&self.board, &self.fixed, rng);
        self.pending = proposal;
        match proposal {
            Some(st) => Some(st.difference),
            None => None,
        }
    }

    /// Settles the waiting move: taken when it does not raise the cost or when
    /// `accepted`, else dropped. Then counts the step, and at the end of a batch
    /// (as many steps as the puzzle has givens, and at least one) updates the
    /// stagnation count.
    pub fn advance(&mut self, accepted: bool) -> (r: Step)
        ensures
            final(self).spec_puzzle() == old(self).spec_puzzle(),
            final(self).spec_fixed() == old(self).spec_fixed(),
            final(self).holds_givens(),
            final(self).spec_pending() is None,
            takes(old(self).spec_pending(), accepted) ==> final(self).spec_board() == old(
                self,
            ).spec_pending()->0.sudoku,
            !takes(old(self).spec_pending(), accepted) ==> final(self).spec_board() == old(
                self,
            ).spec_board(),
            r == Step::Solved <==> final(self).spec_board().global_cost() == 0,
            r matches Step::BatchEnd { reheat } ==> reheat == (final(self).spec_stuck()
                > STUCK_LIMIT),
            final(self).spec_iterations() == old(self).spec_iterations(),
            final(self).spec_done() == (if old(self).spec_done() + 1 >= old(self).spec_iterations() {
                0
            } else {
                old(self).spec_done() + 1
            }),
            r is BatchEnd <==> (final(self).spec_board().global_cost() != 0 && old(self).spec_done()
                + 1 >= old(self).spec_iterations()),
            r is BatchEnd ==> final(self).spec_stuck() == stuck_after(
                old(self).spec_stuck(),
                final(self).spec_board().global_cost(),
                old(self).spec_batch_start() as int,
            ) && final(self).spec_batch_start() == final(self).spec_board().global_cost(),
            !(r is BatchEnd) ==> final(self).spec_stuck() == old(self).spec_stuck()
                && final(self).spec_batch_start() == old(self).spec_batch_start(),
    {
        proof {
            use_type_invariant(&*self);
            self.board.lemma_cost_zero_iff_solved();
        }
        let mut board = self.board;
        let mut score = self.score;
        if let Some(st) = self.pending {
            let next = SASolver::choose_new_state(&self.board, st, accepted);
            proof {
                if next.sudoku != self.board {
                    let (b, k1, k2) = choose|b: int, k1: int, k2: int|
                        #[trigger] is_move(self.fixed, self.board, st.sudoku, b, k1, k2);
                    lemma_move_preserves(self.puzzle, self.fixed, self.board, st.sudoku, b, k1, k2);
                }
                next.sudoku.lemma_cost_zero_iff_solved();
            }
            board = next.sudoku;
            score = score + next.difference;
        }
        proof {
            board.lemma_cost_zero_iff_solved();
        }
        let mut done = self.done + 1;
        let batch_over = done >= self.iterations;
        if batch_over {
            done = 0;
        }
        let mut stuck = self.stuck;
        let mut batch_start = self.batch_start;
        let mut reheat = false;
        if score > 0 && batch_over {
            let next = self.solver.next_stuck_count(self.stuck, score, self.batch_start);
            stuck = next.0;
            reheat = next.1;
            batch_start = score;
        }
        *self = AnnealingSearch {
            puzzle: self.puzzle,
            fixed: self.fixed,
            board,
            score,
            iterations: self.iterations,
            done,
            batch_start,
            stuck,
            pending: None,
            solver: SASolver { stuck_limit: self.solver.stuck_limit },
        };
        if score <= 0 {
            Step::Solved
        } else if batch_over {
            Step::BatchEnd { reheat }
        } else {
            Step::Continue
        }
    }
}

impl Default for SASolver {
    fn default() -> (r: SASolver)
        ensures
            r.limit() == STUCK_LIMIT,
    {
        SASolver::new()
    }
}

} // verus!
