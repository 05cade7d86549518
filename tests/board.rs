use nqueens::board::Board;
use nqueens::key::BoardEval;
use std::cmp::Ordering;

#[test]
fn children_are_in_column_major_order() {
    let b = Board::new(2).unwrap();
    let kids = b.children();
    let got: Vec<Vec<(usize, usize)>> = kids.iter().map(|c| c.placements()).collect();
    assert_eq!(got, vec![vec![(0, 0)], vec![(0, 1)], vec![(1, 0)], vec![(1, 1)]]);
}

#[test]
fn children_skip_attacked_squares() {
    let b = Board::new(4).unwrap().add_queen(1, 0);
    let kids = b.children();
    let got: Vec<(usize, usize)> = kids.iter().map(|c| c.placements()[1]).collect();
    assert_eq!(got, vec![(0, 2), (0, 3), (2, 2), (2, 3), (3, 1), (3, 3)]);
}

#[test]
fn full_board_has_no_children() {
    let b = Board::new(4)
        .unwrap()
        .add_queen(0, 1)
        .add_queen(1, 3)
        .add_queen(2, 0)
        .add_queen(3, 2);
    assert_eq!(b.queens(), b.n());
    assert!(b.children().is_empty());
    let one = Board::new(1).unwrap().add_queen(0, 0);
    assert!(one.children().is_empty());
}

#[test]
fn can_add_queen_checks_every_line() {
    let b = Board::new(5).unwrap().add_queen(2, 2);
    assert!(!b.can_add_queen(2, 4));
    assert!(!b.can_add_queen(0, 2));
    assert!(!b.can_add_queen(4, 4));
    assert!(!b.can_add_queen(0, 4));
    assert!(b.can_add_queen(0, 1));
    assert!(b.can_add_queen(4, 3));
}

#[test]
fn add_queen_leaves_parent_unchanged() {
    let b = Board::new(4).unwrap();
    let c = b.add_queen(1, 2);
    assert_eq!(b.queens(), 0);
    assert!(b.can_add_queen(1, 2));
    assert_eq!(c.queens(), 1);
    assert_eq!(c.placements(), vec![(1, 2)]);
    assert!(!c.can_add_queen(1, 2));
}

#[test]
fn eval_counts_queens_and_fixed_score() {
    let b = Board::new(4).unwrap();
    assert_eq!(b.eval(), BoardEval { n_queens: 0, n_open: 5 });
    let c = b.add_queen(0, 1);
    assert_eq!(c.eval(), BoardEval { n_queens: 1, n_open: 5 });
    assert_eq!(Board::new(1).unwrap().eval(), BoardEval { n_queens: 0, n_open: 0 });
}

#[test]
fn compare_is_lexicographic() {
    let a = BoardEval { n_queens: 2, n_open: 1 };
    let b = BoardEval { n_queens: 1, n_open: 9 };
    let c = BoardEval { n_queens: 2, n_open: 3 };
    assert_eq!(a.compare(&b), Ordering::Greater);
    assert_eq!(b.compare(&a), Ordering::Less);
    assert_eq!(a.compare(&c), Ordering::Less);
    assert_eq!(c.compare(&a), Ordering::Greater);
    assert_eq!(a.compare(&a), Ordering::Equal);
}
