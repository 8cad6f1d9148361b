use sudoku_solver::bits::{mask_count, ALL_VALUES};
use sudoku_solver::board::Sudoku;
use sudoku_solver::exclusion::{exclusion_step, frag_exclusions, Error};
use sudoku_solver::fragment::{ColFragment, RowFragment};
use sudoku_solver::solver::{propagate, solve, solve_round, Outcome};
use sudoku_solver::unique::{
    block_iter, col_iter, row_iter, solve_unique_cell, solve_unique_cells,
};

/// A rather difficult puzzle, which requires both strategies.
const DIFFICULT: [u8; 81] = [
    4, 1, 0, 0, 0, 6, 0, 0, 0, 0, 9, 0, 0, 7, 0, 5, 0, 1, 0, 0, 0, 0, 0, 0, 0, 2, 0, 0, 0, 0, 0,
    8, 0, 0, 3, 0, 9, 0, 0, 4, 0, 0, 2, 0, 8, 0, 2, 0, 0, 0, 0, 0, 7, 0, 0, 5, 0, 0, 1, 0, 8, 0,
    9, 0, 0, 1, 7, 0, 0, 0, 0, 0, 0, 0, 0, 0, 0, 0, 0, 0, 3,
];

const DIFFICULT_SOLVED: [u8; 81] = [
    4, 1, 8, 5, 2, 6, 3, 9, 7, 2, 9, 6, 3, 7, 4, 5, 8, 1, 5, 3, 7, 1, 9, 8, 4, 2, 6, 1, 6, 4, 2,
    8, 7, 9, 3, 5, 9, 7, 5, 4, 3, 1, 2, 6, 8, 8, 2, 3, 9, 6, 5, 1, 7, 4, 7, 5, 2, 6, 1, 3, 8, 4,
    9, 3, 8, 1, 7, 4, 9, 6, 5, 2, 6, 4, 9, 8, 5, 2, 7, 1, 3,
];

/// A puzzle with one solution that the two strategies find quickly.
const EASY: [u8; 81] = [
    5, 3, 0, 0, 7, 0, 0, 0, 0, 6, 0, 0, 1, 9, 5, 0, 0, 0, 0, 9, 8, 0, 0, 0, 0, 6, 0, 8, 0, 0, 0,
    6, 0, 0, 0, 3, 4, 0, 0, 8, 0, 3, 0, 0, 1, 7, 0, 0, 0, 2, 0, 0, 0, 6, 0, 6, 0, 0, 0, 0, 2, 8,
    0, 0, 0, 0, 4, 1, 9, 0, 0, 5, 0, 0, 0, 0, 8, 0, 0, 7, 9,
];

const EASY_SOLVED: [u8; 81] = [
    5, 3, 4, 6, 7, 8, 9, 1, 2, 6, 7, 2, 1, 9, 5, 3, 4, 8, 1, 9, 8, 3, 4, 2, 5, 6, 7, 8, 5, 9, 7,
    6, 1, 4, 2, 3, 4, 2, 6, 8, 5, 3, 7, 9, 1, 7, 1, 3, 9, 2, 4, 8, 5, 6, 9, 6, 1, 5, 3, 7, 2, 8,
    4, 2, 8, 7, 4, 1, 9, 6, 3, 5, 3, 4, 5, 2, 8, 6, 1, 7, 9,
];

/// A puzzle that needs more than the two strategies.
const HARD: [u8; 81] = [
    8, 0, 0, 0, 0, 0, 0, 0, 0, 0, 0, 3, 6, 0, 0, 0, 0, 0, 0, 7, 0, 0, 9, 0, 2, 0, 0, 0, 5, 0, 0,
    0, 7, 0, 0, 0, 0, 0, 0, 0, 4, 5, 7, 0, 0, 0, 0, 0, 1, 0, 0, 0, 3, 0, 0, 0, 1, 0, 0, 0, 0, 6,
    8, 0, 0, 8, 5, 0, 0, 0, 1, 0, 0, 9, 0, 0, 0, 0, 4, 0, 0,
];

fn board_bits(sudoku: &Sudoku) -> Vec<usize> {
    (0..81).map(|idx| sudoku.cell(idx).bits()).collect()
}

fn board_digits(sudoku: &Sudoku) -> Vec<u8> {
    (0..81)
        .map(|idx| sudoku.cell(idx).solution().unwrap_or(0) as u8)
        .collect()
}

/// The EASY puzzle with a second 5 in its first row.
fn easy_with_duplicate() -> [u8; 81] {
    let mut digits = EASY;
    digits[2] = 5;
    digits
}

/// A board whose first row fragment holds 1, 2 and 3, while 4 is impossible
/// in the rest of the first row.
fn overfull_fragment() -> Sudoku {
    let mut digits = [0u8; 81];
    digits[0] = 1;
    digits[1] = 2;
    digits[2] = 3;
    let mut sudoku = Sudoku::from(digits);
    for idx in 3..9 {
        sudoku.set_cell(idx, sudoku.cell(idx).without(0b1000));
    }
    sudoku
}

#[test]
fn test_frag_necessary_values() {
    let sudoku = Sudoku::from(DIFFICULT);
    assert_eq!(sudoku.frag_necessary(&RowFragment { y: 0, frag_x: 0 }), 0b1001);
    assert_eq!(sudoku.frag_necessary(&RowFragment { y: 4, frag_x: 1 }), 8);
    assert_eq!(sudoku.frag_necessary(&ColFragment { x: 0, frag_y: 0 }), 8);
    assert_eq!(sudoku.frag_necessary(&ColFragment { x: 4, frag_y: 1 }), 128);
    assert_eq!(overfull_fragment().frag_necessary(&RowFragment { y: 0, frag_x: 0 }), 15);
    let empty = Sudoku::from([0; 81]);
    assert_eq!(empty.frag_necessary(&RowFragment { y: 3, frag_x: 2 }), 0);
}

#[test]
fn test_frag_solutions_values() {
    let sudoku = Sudoku::from(DIFFICULT);
    assert_eq!(sudoku.frag_solutions(&RowFragment { y: 0, frag_x: 0 }), 0b1001);
    assert_eq!(sudoku.frag_solutions(&RowFragment { y: 1, frag_x: 0 }), 256);
    assert_eq!(sudoku.frag_solutions(&ColFragment { x: 1, frag_y: 0 }), 257);
    assert_eq!(sudoku.frag_solutions(&ColFragment { x: 2, frag_y: 0 }), 0);
}

#[test]
fn test_frag_necessary_stays_within_nine_bits() {
    for digits in [DIFFICULT, EASY, HARD, easy_with_duplicate(), [0; 81]] {
        let mut sudoku = Sudoku::from(digits);
        let _ = exclusion_step(&mut sudoku);
        for line in 0..9 {
            for part in 0..3 {
                let row = RowFragment { y: line, frag_x: part };
                let forced = sudoku.frag_necessary(&row);
                assert!(forced <= ALL_VALUES);
                let result = frag_exclusions(&mut sudoku.clone(), &row);
                assert_eq!(result.is_err(), forced.count_ones() > 3);
                let col = ColFragment { x: line, frag_y: part };
                let forced = sudoku.frag_necessary(&col);
                assert!(forced <= ALL_VALUES);
                let result = frag_exclusions(&mut sudoku.clone(), &col);
                assert_eq!(result.is_err(), mask_count(forced) > 3);
            }
        }
    }
}

#[test]
fn test_frag_exclusions_clears_forced_values() {
    let mut sudoku = Sudoku::from(DIFFICULT);
    let frag = RowFragment { y: 0, frag_x: 0 };
    assert_eq!(frag_exclusions(&mut sudoku, &frag), Ok(true));
    let bits = board_bits(&sudoku);
    assert_eq!(bits[0..9], [8, 1, 511, 502, 502, 32, 502, 502, 502]);
    assert_eq!(bits[9..12], [502, 256, 502]);
    assert_eq!(bits[18..21], [502, 502, 502]);
    let untouched = board_bits(&Sudoku::from(DIFFICULT));
    assert_eq!(bits[12..18], untouched[12..18]);
    assert_eq!(bits[21..], untouched[21..]);
}

#[test]
fn test_frag_exclusions_twice_makes_no_progress() {
    let mut sudoku = Sudoku::from(DIFFICULT);
    let frag = RowFragment { y: 0, frag_x: 0 };
    assert_eq!(frag_exclusions(&mut sudoku, &frag), Ok(true));
    let after_first = board_bits(&sudoku);
    assert_eq!(frag_exclusions(&mut sudoku, &frag), Ok(false));
    assert_eq!(board_bits(&sudoku), after_first);
}

#[test]
fn test_frag_exclusions_unsolvable_leaves_board() {
    let mut sudoku = overfull_fragment();
    let before = board_bits(&sudoku);
    let frag = RowFragment { y: 0, frag_x: 0 };
    assert_eq!(frag_exclusions(&mut sudoku, &frag), Err(Error::Unsolvable));
    assert_eq!(board_bits(&sudoku), before);
}

#[test]
fn test_exclusion_step_on_difficult() {
    let mut sudoku = Sudoku::from(DIFFICULT);
    assert_eq!(exclusion_step(&mut sudoku), Ok(true));
    assert_eq!(
        board_bits(&sudoku),
        vec![
            8, 1, 214, 406, 278, 32, 260, 384, 64, 166, 256, 166, 134, 64, 142, 16, 168, 1, 244,
            228, 244, 405, 284, 413, 300, 2, 104, 113, 104, 120, 307, 128, 339, 297, 4, 56, 256,
            100, 116, 8, 52, 85, 2, 49, 128, 181, 2, 188, 309, 308, 277, 297, 64, 56, 102, 16,
            110, 38, 1, 14, 128, 40, 256, 166, 172, 1, 64, 318, 414, 40, 56, 58, 226, 232, 490,
            434, 314, 410, 105, 57, 4
        ]
    );
}

#[test]
fn test_exclusion_step_at_rest_stays_at_rest() {
    let mut sudoku = Sudoku::from(DIFFICULT);
    let mut steps = 0;
    while exclusion_step(&mut sudoku) == Ok(true) {
        steps += 1;
    }
    assert_eq!(steps, 3);
    let at_rest = board_bits(&sudoku);
    assert_eq!(exclusion_step(&mut sudoku), Ok(false));
    assert_eq!(board_bits(&sudoku), at_rest);
    let mut empty = Sudoku::from([0; 81]);
    assert_eq!(exclusion_step(&mut empty), Ok(false));
    assert_eq!(exclusion_step(&mut empty), Ok(false));
    assert_eq!(board_bits(&empty), vec![ALL_VALUES; 81]);
}

#[test]
fn test_exclusion_step_progress_means_change() {
    let mut sudoku = Sudoku::from(EASY);
    loop {
        let before = board_bits(&sudoku);
        let progressed = exclusion_step(&mut sudoku).unwrap();
        assert_eq!(progressed, board_bits(&sudoku) != before);
        if !progressed {
            break;
        }
    }
}

#[test]
fn test_exclusion_step_stops_at_contradiction() {
    let mut sudoku = Sudoku::from(easy_with_duplicate());
    assert_eq!(exclusion_step(&mut sudoku), Ok(true));
    let before = board_bits(&sudoku);
    assert_eq!(exclusion_step(&mut sudoku), Err(Error::Unsolvable));
    // the fragments before the contradicting one have done their work
    assert_ne!(board_bits(&sudoku), before);
    assert_eq!(sudoku.frag_necessary(&RowFragment { y: 0, frag_x: 2 }), 267);
}

#[test]
fn test_group_indices() {
    assert_eq!(row_iter(4), vec![36, 37, 38, 39, 40, 41, 42, 43, 44]);
    assert_eq!(col_iter(4), vec![4, 13, 22, 31, 40, 49, 58, 67, 76]);
    assert_eq!(block_iter(0), vec![0, 1, 2, 9, 10, 11, 18, 19, 20]);
    assert_eq!(block_iter(4), vec![30, 31, 32, 39, 40, 41, 48, 49, 50]);
    assert_eq!(block_iter(8), vec![60, 61, 62, 69, 70, 71, 78, 79, 80]);
    assert_eq!(row_iter(0), (0..9).collect::<Vec<usize>>());
    assert_eq!(col_iter(8), vec![8, 17, 26, 35, 44, 53, 62, 71, 80]);
}

#[test]
fn test_solve_unique_cell_fixes_single_holder() {
    let mut digits = [0u8; 81];
    for x in 0..8 {
        digits[x] = x as u8 + 1;
    }
    let mut sudoku = Sudoku::from(digits);
    assert!(solve_unique_cell(&mut sudoku, row_iter(0)));
    assert_eq!(board_bits(&sudoku)[0..9], [1, 2, 4, 8, 16, 32, 64, 128, 256]);
    assert_eq!(board_bits(&sudoku)[9..], vec![ALL_VALUES; 72]);
    // fixing solved cells again is no progress
    assert!(!solve_unique_cell(&mut sudoku, row_iter(0)));
    assert_eq!(board_bits(&sudoku)[0..9], [1, 2, 4, 8, 16, 32, 64, 128, 256]);
    // in the last column only the 9 occurs once, in a cell that is solved
    assert!(!solve_unique_cell(&mut sudoku, col_iter(8)));
    assert_eq!(board_bits(&sudoku)[9..], vec![ALL_VALUES; 72]);
}

#[test]
fn test_solve_unique_cell_greatest_value_stays() {
    let mut sudoku = Sudoku::from([0; 81]);
    for idx in 1..9 {
        sudoku.set_cell(idx, sudoku.cell(idx).without(0b110_000_000));
    }
    // 8 and 9 both fit the first cell only
    assert!(solve_unique_cell(&mut sudoku, row_iter(0)));
    assert_eq!(
        board_bits(&sudoku)[0..9],
        [256, 127, 127, 127, 127, 127, 127, 127, 127]
    );
}

#[test]
fn test_solve_unique_cell_counts_repeated_cells() {
    let mut digits = [0u8; 81];
    digits[0] = 7;
    let mut sudoku = Sudoku::from(digits);
    // without 7 anywhere else in the group it fits a single cell
    for idx in 1..3 {
        sudoku.set_cell(idx, sudoku.cell(idx).without(0b1_000_000));
    }
    assert!(!solve_unique_cell(&mut sudoku, vec![0, 1, 2]));
    // a cell named twice holds each of its values twice
    let mut open = Sudoku::from([0; 81]);
    assert!(!solve_unique_cell(&mut open, vec![5, 5]));
    assert_eq!(open.cell(5).bits(), ALL_VALUES);
    // an empty group fixes nothing
    assert!(!solve_unique_cell(&mut open, vec![]));
    // a group of one open cell fixes it to 1, then 2, and so on to 9
    assert!(solve_unique_cell(&mut open, vec![5]));
    assert_eq!(open.cell(5).solution(), Some(9));
}

#[test]
fn test_solve_unique_cells_after_exclusion() {
    let mut sudoku = Sudoku::from(DIFFICULT);
    assert_eq!(exclusion_step(&mut sudoku), Ok(true));
    assert!(solve_unique_cells(&mut sudoku));
    let expected: Vec<u8> = vec![
        4, 1, 0, 0, 0, 6, 0, 9, 7, 0, 9, 0, 0, 7, 0, 5, 8, 1, 0, 0, 0, 0, 0, 0, 0, 2, 0, 0, 0, 0,
        0, 8, 0, 0, 3, 0, 9, 0, 0, 4, 0, 0, 2, 0, 8, 0, 2, 0, 0, 0, 0, 0, 7, 0, 0, 5, 0, 0, 1, 0,
        8, 0, 9, 0, 0, 1, 7, 0, 0, 0, 0, 2, 0, 0, 9, 0, 0, 0, 7, 1, 3,
    ];
    assert_eq!(board_digits(&sudoku), expected);
    let candidates: usize = (0..81).map(|idx| sudoku.cell(idx).num_possibilities()).sum();
    assert_eq!(candidates, 237);
}

#[test]
fn test_solve_unique_cells_on_open_board() {
    let mut sudoku = Sudoku::from([0; 81]);
    assert!(!solve_unique_cells(&mut sudoku));
    assert_eq!(board_bits(&sudoku), vec![ALL_VALUES; 81]);
}

#[test]
fn test_solve_difficult_puzzle() {
    let mut sudoku = Sudoku::from(DIFFICULT);
    assert_eq!(solve(&mut sudoku), Ok(()));
    assert!(sudoku.is_solved());
    assert_eq!(board_digits(&sudoku), DIFFICULT_SOLVED.to_vec());
}

#[test]
fn test_solve_easy_puzzle() {
    let mut sudoku = Sudoku::from(EASY);
    assert_eq!(propagate(&mut sudoku), Outcome::Solved);
    assert!(sudoku.is_solved());
    assert_eq!(board_digits(&sudoku), EASY_SOLVED.to_vec());
}

#[test]
fn test_solve_counts_rounds() {
    let mut sudoku = Sudoku::from(DIFFICULT);
    let mut rounds = 0;
    while solve_round(&mut sudoku) == Ok(true) {
        rounds += 1;
    }
    assert_eq!(rounds, 8);
    assert!(sudoku.is_solved());
    assert_eq!(solve_round(&mut sudoku), Ok(false));
    let mut easy = Sudoku::from(EASY);
    let mut rounds = 0;
    while solve_round(&mut easy) == Ok(true) {
        rounds += 1;
    }
    assert_eq!(rounds, 3);
}

#[test]
fn test_solve_duplicate_in_row_is_unsolvable() {
    let mut sudoku = Sudoku::from(easy_with_duplicate());
    assert_eq!(solve(&mut sudoku), Err(Error::Unsolvable));
    let mut sudoku = Sudoku::from(easy_with_duplicate());
    assert_eq!(propagate(&mut sudoku), Outcome::Unsolvable);
    assert!(!sudoku.is_solved());
}

#[test]
fn test_solve_hard_puzzle_stalls() {
    let mut sudoku = Sudoku::from(HARD);
    assert_eq!(propagate(&mut sudoku), Outcome::Stalled);
    assert!(!sudoku.is_solved());
    assert!((0..81).any(|idx| sudoku.cell(idx).num_possibilities() > 1));
    assert_eq!(
        board_bits(&sudoku),
        vec![
            128, 43, 314, 78, 87, 15, 309, 344, 381, 283, 11, 4, 32, 211, 139, 401, 472, 345, 57,
            64, 56, 140, 256, 141, 2, 152, 61, 303, 16, 298, 390, 166, 64, 417, 394, 299, 295,
            167, 290, 390, 8, 16, 64, 386, 291, 362, 170, 362, 1, 162, 418, 432, 4, 314, 94, 14,
            1, 334, 70, 270, 276, 32, 128, 110, 46, 128, 16, 102, 302, 260, 1, 326, 118, 256, 114,
            198, 231, 167, 8, 82, 86
        ]
    );
    // at rest: another round changes nothing
    assert_eq!(solve_round(&mut sudoku), Ok(false));
}

#[test]
fn test_solve_open_board_stalls_at_once() {
    let mut sudoku = Sudoku::from([0; 81]);
    assert_eq!(solve(&mut sudoku), Ok(()));
    assert_eq!(board_bits(&sudoku), vec![ALL_VALUES; 81]);
    let mut sudoku = Sudoku::from([0; 81]);
    assert_eq!(propagate(&mut sudoku), Outcome::Stalled);
}

#[test]
fn test_solve_filled_grid_is_solved_at_once() {
    let mut sudoku = Sudoku::from(DIFFICULT_SOLVED);
    assert!(sudoku.is_solved());
    assert_eq!(solve_round(&mut sudoku), Ok(false));
    assert_eq!(propagate(&mut sudoku), Outcome::Solved);
    assert_eq!(board_digits(&sudoku), DIFFICULT_SOLVED.to_vec());
}

#[test]
fn test_candidates_never_come_back() {
    for digits in [DIFFICULT, EASY, HARD, easy_with_duplicate()] {
        let mut sudoku = Sudoku::from(digits);
        let mut before = board_bits(&sudoku);
        loop {
            let result = solve_round(&mut sudoku);
            let after = board_bits(&sudoku);
            for idx in 0..81 {
                assert_eq!(after[idx] & !before[idx], 0);
            }
            if result != Ok(true) {
                break;
            }
            before = after;
        }
    }
}

#[test]
fn test_solved_values_respect_the_input() {
    for digits in [DIFFICULT, EASY, HARD] {
        let mut sudoku = Sudoku::from(digits);
        let _ = propagate(&mut sudoku);
        for idx in 0..81 {
            if let Some(v) = sudoku.cell(idx).solution() {
                assert!(digits[idx] == 0 || digits[idx] as usize == v);
            }
        }
    }
}

#[test]
fn test_render_initial_board() {
    let sudoku = Sudoku::from(DIFFICULT);
    assert_eq!(
        sudoku.render(),
        "41_ __6 ___\n_9_ _7_ 5_1\n___ ___ _2_\n\n\
         ___ _8_ _3_\n9__ 4__ 2_8\n_2_ ___ _7_\n\n\
         _5_ _1_ 8_9\n__1 7__ ___\n___ ___ __3\n"
    );
}

#[test]
fn test_render_solved_board() {
    let mut sudoku = Sudoku::from(DIFFICULT);
    assert_eq!(solve(&mut sudoku), Ok(()));
    assert_eq!(
        sudoku.render(),
        "418 526 397\n296 374 581\n537 198 426\n\n\
         164 287 935\n975 431 268\n823 965 174\n\n\
         752 613 849\n381 749 652\n649 852 713\n"
    );
}

#[test]
fn test_render_empty_cell_as_unsolved() {
    let mut sudoku = Sudoku::from([0; 81]);
    sudoku.set_cell(0, sudoku.cell(0).without(ALL_VALUES));
    sudoku.set_cell(80, sudoku.cell(80).without(ALL_VALUES - 1));
    let blank_row = "___ ___ ___\n";
    let mut expected = String::new();
    for y in 0..9 {
        expected += match y {
            8 => "___ ___ __1\n",
            _ => blank_row,
        };
        if y == 2 || y == 5 {
            expected += "\n";
        }
    }
    assert_eq!(sudoku.render(), expected);
}

#[test]
fn test_clone_is_independent() {
    let sudoku = Sudoku::from(DIFFICULT);
    let mut copy = sudoku.clone();
    assert_eq!(board_bits(&copy), board_bits(&sudoku));
    assert_eq!(solve(&mut copy), Ok(()));
    assert!(copy.is_solved());
    assert!(!sudoku.is_solved());
    assert_eq!(board_bits(&sudoku), board_bits(&Sudoku::from(DIFFICULT)));
}

#[test]
fn test_second_exclusion_step_may_progress() {
    // what the column fragments take out can force values into row fragments
    let mut sudoku = Sudoku::from(DIFFICULT);
    assert_eq!(exclusion_step(&mut sudoku), Ok(true));
    assert_eq!(exclusion_step(&mut sudoku), Ok(true));
    let candidates: usize = (0..81).map(|idx| sudoku.cell(idx).num_possibilities()).sum();
    assert_eq!(candidates, 241);
}
