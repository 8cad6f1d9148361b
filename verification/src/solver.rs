//! The solver loop: both propagation steps in turn, until neither makes
//! progress or a contradiction shows.

use crate::board::{
    board_of, board_solved, board_within, candidates, is_board, lemma_board_of_is_board,
    lemma_candidates_within, lemma_within_twice, Sudoku,
};
use crate::exclusion::{
    exclusion_prefix, exclusion_step, exclusion_stops, lemma_exclusion_prefix_fails,
    lemma_exclusion_prefix_within, step_pass, Error,
};
use crate::unique::{lemma_unique_prefix_within, solve_unique_cells, unique_prefix};
use vstd::prelude::*;

verus! {

/// How the solver loop ended.
#[derive(Clone, Copy, Debug, PartialEq, Eq, Structural)]
pub enum Outcome {
    /// Every cell has exactly one candidate.
    Solved,
    /// Propagation came to rest with a cell that is not solved.
    Stalled,
    /// More than three values were forced into one three-cell fragment.
    Unsolvable,
}

/// The board after one round on the board `b`: an exclusion step and then a
/// unique-cell step; `None` where the exclusion step met a contradiction.
pub open spec fn round(b: Seq<Set<int>>) -> Option<Seq<Set<int>>> {
    match exclusion_prefix(b, 54) {
        Some(excluded) => Some(unique_prefix(excluded, 27)),
        None => None,
    }
}

/// The board after `n` rounds on the board `b`; `None` where one of them met
/// a contradiction.
pub open spec fn rounds(b: Seq<Set<int>>, n: nat) -> Option<Seq<Set<int>>>
    decreases n,
{
    if n == 0 {
        Some(b)
    } else {
        match rounds(b, (n - 1) as nat) {
            Some(prev) => round(prev),
            None => None,
        }
    }
}

/// Whether some number of rounds leads from the board `a` to the board `b`.
pub open spec fn reaches(a: Seq<Set<int>>, b: Seq<Set<int>>) -> bool {
    exists|n: nat| #[trigger] rounds(a, n) == Some(b)
}

/// Whether a round leaves the board `b` as it is.
pub open spec fn at_rest(b: Seq<Set<int>>) -> bool {
    round(b) == Some(b)
}

/// Whether rounds lead from the board `a` to a board on which the exclusion
/// step stops at a contradiction and leaves the board `stuck`.
pub open spec fn runs_aground(a: Seq<Set<int>>, stuck: Seq<Set<int>>) -> bool {
    exists|b: Seq<Set<int>>| #[trigger] reaches(a, b) && exclusion_stops(b, stuck)
}

/// A round never adds a digit to a cell.
pub proof fn lemma_round_within(b: Seq<Set<int>>)
    requires
        is_board(b),
    ensures
        round(b) matches Some(c) ==> board_within(c, b) && is_board(c),
{
    if round(b) is Some {
        let excluded = exclusion_prefix(b, 54).unwrap();
        lemma_exclusion_prefix_within(b, 0, 54);
        lemma_unique_prefix_within(excluded, 27);
        lemma_within_twice(b, excluded, unique_prefix(excluded, 27));
    }
}

/// Candidate sets only ever shrink: after any number of rounds no cell
/// holds a digit that it did not hold at the start.
pub proof fn lemma_rounds_within(b: Seq<Set<int>>, n: nat)
    requires
        is_board(b),
    ensures
        rounds(b, n) matches Some(c) ==> board_within(c, b) && is_board(c),
    decreases n,
{
    if n > 0 && rounds(b, n) is Some {
        let prev = rounds(b, (n - 1) as nat).unwrap();
        lemma_rounds_within(b, (n - 1) as nat);
        lemma_round_within(prev);
        lemma_within_twice(b, prev, rounds(b, n).unwrap());
    }
}

/// The value of a cell that rounds have solved was a candidate of that cell
/// at the start.
pub proof fn lemma_solved_value_was_candidate(b: Seq<Set<int>>, n: nat, i: int, v: int)
    requires
        is_board(b),
        0 <= i < 81,
        rounds(b, n) matches Some(c) && c[i] == set![v],
    ensures
        b[i].contains(v),
{
    lemma_rounds_within(b, n);
    let c = rounds(b, n).unwrap();
    assert(c[i].subset_of(b[i]));
    assert(c[i].contains(v));
}

/// The value of a cell that rounds have solved agrees with the digit that
/// the input gave for that cell, if it gave one.
pub proof fn lemma_solved_value_respects_input(input: Seq<u8>, n: nat, i: int, v: int)
    requires
        input.len() == 81,
        forall|k: int| 0 <= k < 81 ==> input[k] <= 9,
        0 <= i < 81,
        rounds(board_of(input), n) matches Some(c) && c[i] == set![v],
    ensures
        1 <= v <= 9,
        input[i] == 0 || input[i] == v,
{
    lemma_board_of_is_board(input);
    lemma_solved_value_was_candidate(board_of(input), n, i, v);
}

/// Rounds after rounds are rounds.
pub proof fn lemma_rounds_add(a: Seq<Set<int>>, m: nat, n: nat)
    ensures
        rounds(a, m + n) == match rounds(a, m) {
            Some(b) => rounds(b, n),
            None => None,
        },
    decreases n,
{
    if n > 0 {
        lemma_rounds_add(a, m, (n - 1) as nat);
        assert(m + n - 1 == m + (n - 1) as nat);
    }
}

/// A board at rest stays as it is for any number of rounds.
pub proof fn lemma_rest_stays(b: Seq<Set<int>>, n: nat)
    requires
        at_rest(b),
    ensures
        rounds(b, n) == Some(b),
    decreases n,
{
    if n > 0 {
        lemma_rest_stays(b, (n - 1) as nat);
    }
}

/// An exclusion step that stops at a contradiction yields no board.
pub proof fn lemma_stops_is_none(b: Seq<Set<int>>, stuck: Seq<Set<int>>)
    requires
        exclusion_stops(b, stuck),
    ensures
        round(b) is None,
{
    let k = choose|k: int|
        0 <= k < 54 && #[trigger] exclusion_prefix(b, k as nat) == Some(stuck) && step_pass(stuck, k)
            is None;
    assert(exclusion_prefix(b, (k + 1) as nat) is None);
    lemma_exclusion_prefix_fails(b, (k + 1) as nat, 54);
}

/// Rounds from one board come to rest on one board at most.
pub proof fn lemma_rest_unique(a: Seq<Set<int>>, b1: Seq<Set<int>>, b2: Seq<Set<int>>)
    requires
        reaches(a, b1) && at_rest(b1),
        reaches(a, b2) && at_rest(b2),
    ensures
        b1 == b2,
{
    let m = choose|m: nat| #[trigger] rounds(a, m) == Some(b1);
    let n = choose|n: nat| #[trigger] rounds(a, n) == Some(b2);
    if m <= n {
        lemma_rounds_add(a, m, (n - m) as nat);
        lemma_rest_stays(b1, (n - m) as nat);
    } else {
        lemma_rounds_add(a, n, (m - n) as nat);
        lemma_rest_stays(b2, (m - n) as nat);
    }
}

/// Rounds that come to rest do not run aground, whatever their number.
pub proof fn lemma_rest_or_aground(a: Seq<Set<int>>, b: Seq<Set<int>>, stuck: Seq<Set<int>>)
    requires
        reaches(a, b) && at_rest(b),
    ensures
        !runs_aground(a, stuck),
{
    if runs_aground(a, stuck) {
        let m = choose|m: nat| #[trigger] rounds(a, m) == Some(b);
        let c = choose|c: Seq<Set<int>>| #[trigger] reaches(a, c) && exclusion_stops(c, stuck);
        let n = choose|n: nat| #[trigger] rounds(a, n) == Some(c);
        lemma_stops_is_none(c, stuck);
        assert(rounds(a, n + 1) is None);
        if m <= n {
            lemma_rounds_add(a, m, (n + 1 - m) as nat);
            lemma_rest_stays(b, (n + 1 - m) as nat);
        } else {
            lemma_rounds_add(a, n + 1, (m - n - 1) as nat);
        }
    }
}

/// Rounds from one board run aground on one board at most.
pub proof fn lemma_aground_unique(a: Seq<Set<int>>, s1: Seq<Set<int>>, s2: Seq<Set<int>>)
    requires
        runs_aground(a, s1),
        runs_aground(a, s2),
    ensures
        s1 == s2,
{
    let b1 = choose|b: Seq<Set<int>>| #[trigger] reaches(a, b) && exclusion_stops(b, s1);
    let b2 = choose|b: Seq<Set<int>>| #[trigger] reaches(a, b) && exclusion_stops(b, s2);
    let n1 = choose|n: nat| #[trigger] rounds(a, n) == Some(b1);
    let n2 = choose|n: nat| #[trigger] rounds(a, n) == Some(b2);
    lemma_stops_is_none(b1, s1);
    lemma_stops_is_none(b2, s2);
    assert(rounds(a, n1 + 1) is None);
    assert(rounds(a, n2 + 1) is None);
    if n1 < n2 {
        lemma_rounds_add(a, n1 + 1, (n2 - n1 - 1) as nat);
    }
    if n2 < n1 {
        lemma_rounds_add(a, n2 + 1, (n1 - n2 - 1) as nat);
    }
    assert(b1 == b2);
    let k1 = choose|k: int|
        0 <= k < 54 && #[trigger] exclusion_prefix(b1, k as nat) == Some(s1) && step_pass(s1, k)
            is None;
    let k2 = choose|k: int|
        0 <= k < 54 && #[trigger] exclusion_prefix(b1, k as nat) == Some(s2) && step_pass(s2, k)
            is None;
    assert(exclusion_prefix(b1, (k1 + 1) as nat) is None);
    assert(exclusion_prefix(b1, (k2 + 1) as nat) is None);
    if k1 < k2 {
        lemma_exclusion_prefix_fails(b1, (k1 + 1) as nat, k2 as nat);
    }
    if k2 < k1 {
        lemma_exclusion_prefix_fails(b1, (k2 + 1) as nat, k1 as nat);
    }
}

/// Runs one round: an exclusion step and, unless that met a contradiction, a
/// unique-cell step. Reports whether the round changed the board.
pub fn solve_round(sudoku: &mut Sudoku) -> (r: Result<bool, Error>)
    ensures
        board_within(final(sudoku)@, old(sudoku)@),
        match r {
            Ok(has_progressed) => {
                &&& round(old(sudoku)@) == Some(final(sudoku)@)
                &&& has_progressed == (final(sudoku)@ != old(sudoku)@)
            },
            Err(Error::Unsolvable) => {
                &&& round(old(sudoku)@) is None
                &&& exclusion_stops(old(sudoku)@, final(sudoku)@)
            },
        },
{
    let ghost before = sudoku@;
    let excluded = match exclusion_step(sudoku) {
        Ok(p) => p,
        Err(e) => {
            return Err(e);
        },
    };
    let ghost between = sudoku@;
    let resolved = solve_unique_cells(sudoku);
    proof {
        lemma_within_twice(before, between, sudoku@);
    }
    Ok(excluded || resolved)
}

/// Runs rounds for as long as they make progress.
///
/// Returns `Ok` with the board at rest, or the contradiction at which an
/// exclusion step stopped. No candidate is ever added to a cell.
pub fn solve(sudoku: &mut Sudoku) -> (r: Result<(), Error>)
    ensures
        board_within(final(sudoku)@, old(sudoku)@),
        match r {
            Ok(()) => reaches(old(sudoku)@, final(sudoku)@) && at_rest(final(sudoku)@),
            Err(Error::Unsolvable) => runs_aground(old(sudoku)@, final(sudoku)@),
        },
{
    let ghost before = sudoku@;
    let ghost mut n: nat = 0;
    loop
        invariant
            before == old(sudoku)@,
            board_within(sudoku@, before),
            rounds(before, n) == Some(sudoku@),
        decreases candidates(sudoku@),
    {
        let ghost current = sudoku@;
        proof {
            sudoku.lemma_view_is_board();
        }
        match solve_round(sudoku) {
            Ok(has_progressed) => {
                proof {
                    lemma_within_twice(before, current, sudoku@);
                    lemma_candidates_within(current, sudoku@);
                    assert(rounds(before, n + 1) == Some(sudoku@));
                    n = n + 1;
                }
                if !has_progressed {
                    return Ok(());
                }
            },
            Err(e) => {
                proof {
                    lemma_within_twice(before, current, sudoku@);
                    assert(reaches(before, current));
                }
                return Err(e);
            },
        }
    }
}

/// Solves the board as far as propagation goes and tells how it ended:
/// solved, at rest with open cells, or at a contradiction.
pub fn propagate(sudoku: &mut Sudoku) -> (o: Outcome)
    ensures
        board_within(final(sudoku)@, old(sudoku)@),
        match o {
            Outcome::Solved => {
                &&& reaches(old(sudoku)@, final(sudoku)@)
                &&& at_rest(final(sudoku)@)
                &&& board_solved(final(sudoku)@)
            },
            Outcome::Stalled => {
                &&& reaches(old(sudoku)@, final(sudoku)@)
                &&& at_rest(final(sudoku)@)
                &&& !board_solved(final(sudoku)@)
            },
            Outcome::Unsolvable => runs_aground(old(sudoku)@, final(sudoku)@),
        },
{
    match solve(sudoku) {
        Ok(()) => {
            if sudoku.is_solved() {
                Outcome::Solved
            } else {
                Outcome::Stalled
            }
        },
        Err(_) => Outcome::Unsolvable,
    }
}

} // verus!
