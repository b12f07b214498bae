use klotski::board::{down, left, right, up, Board, BOARD_MASK};
use klotski::search::search;

fn start_board() -> Board {
    Board::new(
        1 << 1,
        1 << 9,
        (1 << 0) | (1 << 3) | (1 << 12) | (1 << 15),
        (1 << 13) | (1 << 14) | (1 << 17) | (1 << 18),
    )
}

#[test]
fn up_moves_bits_one_row_up() {
    assert_eq!(up(1 << 4), 1 << 0);
    assert_eq!(up(1 << 19), 1 << 15);
    assert_eq!(up(0xF), 0);
    assert_eq!(up(0xFFFFF), 0xFFFF);
}

#[test]
fn down_drops_bottom_row() {
    assert_eq!(down(1 << 0), 1 << 4);
    assert_eq!(down(1 << 15), 1 << 19);
    assert_eq!(down(1 << 16), 0);
    assert_eq!(down(0xF0000), 0);
}

#[test]
fn right_drops_rightmost_column() {
    assert_eq!(right(1 << 0), 1 << 1);
    assert_eq!(right(1 << 2), 1 << 3);
    assert_eq!(right(1 << 3), 0);
    assert_eq!(right(1 << 7), 0);
    assert_eq!(right(1 << 18), 1 << 19);
}

#[test]
fn left_drops_leftmost_column() {
    assert_eq!(left(1 << 1), 1 << 0);
    assert_eq!(left(1 << 19), 1 << 18);
    assert_eq!(left(1 << 0), 0);
    assert_eq!(left(1 << 4), 0);
}

#[test]
fn new_occupancy_is_union_of_footprints() {
    // Start layout covers every cell except 8 and 11.
    let b = start_board();
    assert_eq!(b.mask, 0xFFFFF & !((1 << 8) | (1 << 11)));
    // A lone horizontal block covers its anchor and the cell right of it.
    assert_eq!(Board::new(0, 1 << 9, 0, 0).mask, (1 << 9) | (1 << 10));
    // A lone vertical block covers its anchor and the cell below it.
    assert_eq!(Board::new(0, 0, 1 << 3, 0).mask, (1 << 3) | (1 << 7));
    // The 2x2 block covers its anchor, right, below, and diagonal.
    assert_eq!(Board::new(1 << 1, 0, 0, 0).mask, (1 << 1) | (1 << 2) | (1 << 5) | (1 << 6));
}

#[test]
fn follow_excludes_self() {
    let b = start_board();
    let succ = b.follow();
    assert!(!succ.is_empty());
    assert!(!succ.contains(&b));
}

#[test]
fn follow_preserves_cell_count() {
    let b = start_board();
    for m in b.follow() {
        assert_eq!(m.mask.count_ones(), b.mask.count_ones());
    }
}

#[test]
fn follow_is_reversible() {
    let b = start_board();
    for m in b.follow() {
        assert!(m.follow().contains(&b));
    }
}

#[test]
fn search_length_is_deterministic() {
    let a = search(start_board()).expect("solvable");
    let b = search(start_board()).expect("solvable");
    assert_eq!(a.len(), b.len());
}

#[test]
fn search_path_is_valid() {
    let start = start_board();
    let path = search(start).expect("solvable");
    assert_eq!(path[0], start);
    assert!(path[path.len() - 1].is_solved());
    for w in path.windows(2) {
        assert!(w[0].follow().contains(&w[1]));
    }
}

#[test]
fn solves_classic_layout() {
    let start = start_board();
    let path = search(start).expect("solvable");
    // The shortest solution needs 112 single-cell slides.
    assert_eq!(path.len(), 113);
    let last = path[path.len() - 1];
    assert!(last.is_solved());
    assert_eq!(last.p_2x2, 1 << 13);
}

#[test]
fn packed_board_has_no_moves() {
    let b = Board::new(0, 0, 0, BOARD_MASK);
    assert_eq!(b.mask, BOARD_MASK);
    assert!(b.follow().is_empty());
}

#[test]
fn unsolvable_packed_board_returns_none() {
    // 2x2 stuck in the top-left corner, every other cell a single block.
    let b = Board::new(1, 0, 0, 0xFFFFF & !0x33);
    assert_eq!(b.mask, BOARD_MASK);
    assert!(!b.is_solved());
    assert!(search(b).is_none());
}

#[test]
fn solved_start_returns_single_board_path() {
    let b = Board::new(1 << 13, 0, 0, 0);
    assert!(b.is_solved());
    let path = search(b).expect("already solved");
    assert_eq!(path.len(), 1);
    assert_eq!(path[0], b);
}

#[test]
fn solved_checks_exact_target_cell() {
    assert!(Board::new(1 << 13, 0, 0, 0).is_solved());
    assert!(!Board::new(1 << 12, 0, 0, 0).is_solved());
    assert!(!Board::new(1 << 14, 0, 0, 0).is_solved());
    assert!(!Board::new(1 << 9, 0, 0, 0).is_solved());
    assert!(!start_board().is_solved());
}

#[test]
fn render_draws_each_kind() {
    let b = start_board();
    let expected: Vec<char> = "|++|\n|++|\n -- \n|oo|\n|oo|".chars().collect();
    assert_eq!(b.render(), expected);
}
