use sudoku_solver::fragment::{ColFragment, RowFragment, ThreeCellFragment};

/// cells: (0,0), (1,0), (2,0)
fn row_frag0() -> RowFragment {
    RowFragment { y: 0, frag_x: 0 }
}

/// cells: (3,4), (4,4), (5,4)
fn row_frag13() -> RowFragment {
    RowFragment { y: 4, frag_x: 1 }
}

/// cells: (0,0), (0,1), (0,2)
fn col_frag0() -> ColFragment {
    ColFragment { x: 0, frag_y: 0 }
}

/// cells: (4,3), (4,4), (4,5)
fn col_frag13() -> ColFragment {
    ColFragment { x: 4, frag_y: 1 }
}

#[test]
fn test_row_frag0_contained() {
    let frag = row_frag0(); // cells: (0,0), (1,0), (2,0)
    let mut it_contained = frag.cells().into_iter();
    assert_eq!(it_contained.next(), Some(0 * 9 + 0));
    assert_eq!(it_contained.next(), Some(0 * 9 + 1));
    assert_eq!(it_contained.next(), Some(0 * 9 + 2));
    assert_eq!(it_contained.next(), None);
}

#[test]
fn test_row_frag0_row() {
    let frag = row_frag0(); // cells: (0,0), (1,0), (2,0)
    let mut it_ext_row = frag.ext_adjacent_cells().into_iter();
    assert_eq!(it_ext_row.next(), Some(0 * 9 + 3));
    assert_eq!(it_ext_row.next(), Some(0 * 9 + 4));
    assert_eq!(it_ext_row.next(), Some(0 * 9 + 5));
    assert_eq!(it_ext_row.next(), Some(0 * 9 + 6));
    assert_eq!(it_ext_row.next(), Some(0 * 9 + 7));
    assert_eq!(it_ext_row.next(), Some(0 * 9 + 8));
    assert_eq!(it_ext_row.next(), None);
}

#[test]
fn test_row_frag0_block() {
    let frag = row_frag0(); // cells: (0,0), (1,0), (2,0)
    let mut it_ext_block = frag.ext_block_cells().into_iter();
    assert_eq!(it_ext_block.next(), Some(1 * 9 + 0));
    assert_eq!(it_ext_block.next(), Some(1 * 9 + 1));
    assert_eq!(it_ext_block.next(), Some(1 * 9 + 2));
    assert_eq!(it_ext_block.next(), Some(2 * 9 + 0));
    assert_eq!(it_ext_block.next(), Some(2 * 9 + 1));
    assert_eq!(it_ext_block.next(), Some(2 * 9 + 2));
}

#[test]
fn test_row_frag13_contained() {
    let frag = row_frag13(); // cells: (3,4), (4,4), (5,4)
    let mut it_contained = frag.cells().into_iter();
    assert_eq!(it_contained.next(), Some(4 * 9 + 3));
    assert_eq!(it_contained.next(), Some(4 * 9 + 4));
    assert_eq!(it_contained.next(), Some(4 * 9 + 5));
    assert_eq!(it_contained.next(), None);
}

#[test]
fn test_row_frag13_row() {
    let frag = row_frag13(); // cells: (3,4), (4,4), (5,4)
    let mut it_ext_row = frag.ext_adjacent_cells().into_iter();
    assert_eq!(it_ext_row.next(), Some(4 * 9 + 6));
    assert_eq!(it_ext_row.next(), Some(4 * 9 + 7));
    assert_eq!(it_ext_row.next(), Some(4 * 9 + 8));
    assert_eq!(it_ext_row.next(), Some(4 * 9 + 0));
    assert_eq!(it_ext_row.next(), Some(4 * 9 + 1));
    assert_eq!(it_ext_row.next(), Some(4 * 9 + 2));
    assert_eq!(it_ext_row.next(), None);
}

#[test]
fn test_row_frag13_block() {
    let frag = row_frag13(); // cells: (3,4), (4,4), (5,4)
    let mut it_ext_block = frag.ext_block_cells().into_iter();
    assert_eq!(it_ext_block.next(), Some(5 * 9 + 3));
    assert_eq!(it_ext_block.next(), Some(5 * 9 + 4));
    assert_eq!(it_ext_block.next(), Some(5 * 9 + 5));
    assert_eq!(it_ext_block.next(), Some(3 * 9 + 3));
    assert_eq!(it_ext_block.next(), Some(3 * 9 + 4));
    assert_eq!(it_ext_block.next(), Some(3 * 9 + 5));
}

#[test]
fn test_col_frag0_contained() {
    let frag = col_frag0(); // cells: (0,0), (0,1), (0,2)
    let mut it_contained = frag.cells().into_iter();
    assert_eq!(it_contained.next(), Some(0 * 9 + 0));
    assert_eq!(it_contained.next(), Some(1 * 9 + 0));
    assert_eq!(it_contained.next(), Some(2 * 9 + 0));
    assert_eq!(it_contained.next(), None);
}

#[test]
fn test_col_frag0_col() {
    let frag = col_frag0(); // cells: (0,0), (0,1), (0,2)
    let mut it_ext_row = frag.ext_adjacent_cells().into_iter();
    assert_eq!(it_ext_row.next(), Some(3 * 9 + 0));
    assert_eq!(it_ext_row.next(), Some(4 * 9 + 0));
    assert_eq!(it_ext_row.next(), Some(5 * 9 + 0));
    assert_eq!(it_ext_row.next(), Some(6 * 9 + 0));
    assert_eq!(it_ext_row.next(), Some(7 * 9 + 0));
    assert_eq!(it_ext_row.next(), Some(8 * 9 + 0));
    assert_eq!(it_ext_row.next(), None);
}

#[test]
fn test_col_frag0_block() {
    let frag = col_frag0(); // cells: (0,0), (0,1), (0,2)
    let mut it_ext_block = frag.ext_block_cells().into_iter();
    assert_eq!(it_ext_block.next(), Some(0 * 9 + 1));
    assert_eq!(it_ext_block.next(), Some(1 * 9 + 1));
    assert_eq!(it_ext_block.next(), Some(2 * 9 + 1));
    assert_eq!(it_ext_block.next(), Some(0 * 9 + 2));
    assert_eq!(it_ext_block.next(), Some(1 * 9 + 2));
    assert_eq!(it_ext_block.next(), Some(2 * 9 + 2));
}

#[test]
fn test_col_frag13_contained() {
    let frag = col_frag13(); // cells: (4,3), (4,4), (4,5)
    let mut it_contained = frag.cells().into_iter();
    assert_eq!(it_contained.next(), Some(3 * 9 + 4));
    assert_eq!(it_contained.next(), Some(4 * 9 + 4));
    assert_eq!(it_contained.next(), Some(5 * 9 + 4));
    assert_eq!(it_contained.next(), None);
}

#[test]
fn test_col_frag13_col() {
    let frag = col_frag13(); // cells: (4,3), (4,4), (4,5)
    let mut it_ext_row = frag.ext_adjacent_cells().into_iter();
    assert_eq!(it_ext_row.next(), Some(6 * 9 + 4));
    assert_eq!(it_ext_row.next(), Some(7 * 9 + 4));
    assert_eq!(it_ext_row.next(), Some(8 * 9 + 4));
    assert_eq!(it_ext_row.next(), Some(0 * 9 + 4));
    assert_eq!(it_ext_row.next(), Some(1 * 9 + 4));
    assert_eq!(it_ext_row.next(), Some(2 * 9 + 4));
    assert_eq!(it_ext_row.next(), None);
}

#[test]
fn test_col_frag13_block() {
    let frag = col_frag13(); // cells: (4,3), (4,4), (4,5)
    let mut it_ext_block = frag.ext_block_cells().into_iter();
    assert_eq!(it_ext_block.next(), Some(3 * 9 + 5));
    assert_eq!(it_ext_block.next(), Some(4 * 9 + 5));
    assert_eq!(it_ext_block.next(), Some(5 * 9 + 5));
    assert_eq!(it_ext_block.next(), Some(3 * 9 + 3));
    assert_eq!(it_ext_block.next(), Some(4 * 9 + 3));
    assert_eq!(it_ext_block.next(), Some(5 * 9 + 3));
}

#[test]
fn test_ext_cells_is_adjacent_then_block() {
    let frag = row_frag13();
    assert_eq!(
        frag.ext_cells(),
        vec![42, 43, 44, 36, 37, 38, 48, 49, 50, 30, 31, 32]
    );
    let frag = col_frag13();
    assert_eq!(
        frag.ext_cells(),
        vec![58, 67, 76, 4, 13, 22, 32, 41, 50, 30, 39, 48]
    );
}

#[test]
fn test_last_fragments_stay_on_board() {
    let frag = RowFragment { y: 8, frag_x: 2 };
    assert_eq!(frag.cells(), vec![78, 79, 80]);
    assert_eq!(frag.ext_adjacent_cells(), vec![72, 73, 74, 75, 76, 77]);
    assert_eq!(frag.ext_block_cells(), vec![60, 61, 62, 69, 70, 71]);
    let frag = ColFragment { x: 8, frag_y: 2 };
    assert_eq!(frag.cells(), vec![62, 71, 80]);
    assert_eq!(frag.ext_adjacent_cells(), vec![8, 17, 26, 35, 44, 53]);
    assert_eq!(frag.ext_block_cells(), vec![60, 69, 78, 61, 70, 79]);
}

#[test]
fn test_fragment_cells_are_distinct_and_on_board() {
    for line in 0..9 {
        for part in 0..3 {
            let row = RowFragment { y: line, frag_x: part };
            let col = ColFragment { x: line, frag_y: part };
            for mut all in [
                [row.cells(), row.ext_cells()].concat(),
                [col.cells(), col.ext_cells()].concat(),
            ] {
                assert_eq!(all.len(), 15);
                assert!(all.iter().all(|c| *c < 81));
                all.sort();
                all.dedup();
                assert_eq!(all.len(), 15);
            }
        }
    }
}
