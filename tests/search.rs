use nqueens::board::{Board, ConfigError};
use nqueens::search::{progress_due, DfsSearch, SearchOutcome};

fn assert_non_attacking(qs: &[(usize, usize)]) {
    for a in 0..qs.len() {
        for b in 0..qs.len() {
            if a != b {
                let (c1, r1) = (qs[a].0 as i64, qs[a].1 as i64);
                let (c2, r2) = (qs[b].0 as i64, qs[b].1 as i64);
                assert_ne!(c1, c2);
                assert_ne!(r1, r2);
                assert_ne!(c1 - r1, c2 - r2);
                assert_ne!(c1 + r1, c2 + r2);
            }
        }
    }
}

fn solve_dfs(n: usize) -> SearchOutcome {
    Board::new(n).unwrap().n_queens_dfs(n).unwrap()
}

fn solve_bestfs(n: usize) -> SearchOutcome {
    Board::new(n).unwrap().n_queens_bestfs(n).unwrap()
}

fn check_solved(o: SearchOutcome, n: usize) {
    match o {
        SearchOutcome::Solved(b, _) => {
            let qs = b.placements();
            assert_eq!(qs.len(), n);
            assert_eq!(b.queens(), n);
            assert_eq!(b.n(), n);
            for &(c, r) in &qs {
                assert!(c < n && r < n);
            }
            assert_non_attacking(&qs);
        }
        SearchOutcome::Exhausted(_) => panic!("expected a solution for n = {}", n),
    }
}

#[test]
fn dfs_four_is_valid() {
    check_solved(solve_dfs(4), 4);
}

#[test]
fn dfs_eight_is_valid() {
    check_solved(solve_dfs(8), 8);
}

#[test]
fn dfs_five_and_six_are_valid() {
    check_solved(solve_dfs(5), 5);
    check_solved(solve_dfs(6), 6);
}

#[test]
fn bestfs_solutions_are_valid() {
    for n in [1usize, 4, 5, 6, 8] {
        check_solved(solve_bestfs(n), n);
    }
}

#[test]
fn dfs_two_and_three_are_exhausted() {
    assert!(matches!(solve_dfs(2), SearchOutcome::Exhausted(_)));
    assert!(matches!(solve_dfs(3), SearchOutcome::Exhausted(_)));
}

#[test]
fn bestfs_two_and_three_are_exhausted() {
    assert!(matches!(solve_bestfs(2), SearchOutcome::Exhausted(_)));
    assert!(matches!(solve_bestfs(3), SearchOutcome::Exhausted(_)));
}

#[test]
fn dfs_one_is_solved_with_one_placement() {
    match solve_dfs(1) {
        SearchOutcome::Solved(b, steps) => {
            assert_eq!(b.placements(), vec![(0, 0)]);
            // the empty board and the solved board are both taken from the stack
            assert_eq!(steps, 2);
        }
        SearchOutcome::Exhausted(_) => panic!("one queen always fits"),
    }
}

#[test]
fn bestfs_one_counts_one_expansion() {
    match solve_bestfs(1) {
        SearchOutcome::Solved(b, steps) => {
            assert_eq!(b.placements(), vec![(0, 0)]);
            assert_eq!(steps, 1);
        }
        SearchOutcome::Exhausted(_) => panic!("one queen always fits"),
    }
}

#[test]
fn dfs_is_deterministic() {
    for n in [1usize, 4, 6] {
        let a = solve_dfs(n);
        let b = solve_dfs(n);
        match (a, b) {
            (SearchOutcome::Solved(x, sx), SearchOutcome::Solved(y, sy)) => {
                assert_eq!(x.placements(), y.placements());
                assert_eq!(sx, sy);
            }
            _ => panic!("expected two solutions for n = {}", n),
        }
    }
}

#[test]
fn dfs_exhaustion_counts_every_board() {
    match solve_dfs(2) {
        SearchOutcome::Exhausted(steps) => assert_eq!(steps, 5),
        _ => panic!("two queens never fit on a 2 by 2 board"),
    }
}

#[test]
fn dfs_zero_target_returns_start() {
    let b = Board::new(5).unwrap();
    match b.n_queens_dfs(0).unwrap() {
        SearchOutcome::Solved(r, steps) => {
            assert_eq!(r.queens(), 0);
            assert_eq!(steps, 1);
        }
        _ => panic!("the empty board has zero queens"),
    }
}

#[test]
fn dfs_extends_a_partial_board() {
    let b = Board::new(4).unwrap().add_queen(0, 1);
    match b.n_queens_dfs(4).unwrap() {
        SearchOutcome::Solved(r, _) => {
            let qs = r.placements();
            assert_eq!(qs[0], (0, 1));
            assert_non_attacking(&qs);
        }
        _ => panic!("a queen at column 0, row 1 extends to a solution"),
    }
    let stuck = Board::new(4).unwrap().add_queen(0, 0);
    assert!(matches!(stuck.n_queens_dfs(4).unwrap(), SearchOutcome::Exhausted(_)));
}

#[test]
fn target_beyond_size_is_refused() {
    let b = Board::new(4).unwrap();
    assert_eq!(b.n_queens_dfs(5).err(), Some(ConfigError::TargetTooDeep));
    assert_eq!(b.n_queens_bestfs(5).err(), Some(ConfigError::TargetTooDeep));
}

#[test]
fn empty_board_size_is_refused() {
    assert_eq!(Board::new(0).err(), Some(ConfigError::EmptyBoard));
}

#[test]
fn stepping_matches_a_whole_search() {
    let b = Board::new(5).unwrap();
    let mut search = DfsSearch::new(&b, 5).unwrap();
    assert_eq!(search.checks(), 0);
    assert!(search.step().is_none());
    assert_eq!(search.checks(), 1);
    let stepped = loop {
        if let Some(o) = search.step() {
            break o;
        }
    };
    match (stepped, b.n_queens_dfs(5).unwrap()) {
        (SearchOutcome::Solved(x, sx), SearchOutcome::Solved(y, sy)) => {
            assert_eq!(x.placements(), y.placements());
            assert_eq!(sx, sy);
        }
        _ => panic!("five queens fit on a 5 by 5 board"),
    }
    assert!(DfsSearch::new(&b, 6).is_err());
}

#[test]
fn progress_is_due_every_interval() {
    assert!(!progress_due(0));
    assert!(!progress_due(499_999));
    assert!(progress_due(500_000));
    assert!(!progress_due(500_001));
    assert!(progress_due(1_000_000));
}

#[test]
fn bestfs_expands_latest_deepest_board_first() {
    // With latest-first tie breaking the deepest boards are always the newest,
    // so best-first expands boards in depth-first order and does not count the
    // solved board itself.
    for n in [4usize, 5, 6] {
        match (solve_dfs(n), solve_bestfs(n)) {
            (SearchOutcome::Solved(x, sx), SearchOutcome::Solved(y, sy)) => {
                assert_eq!(x.placements(), y.placements());
                assert_eq!(sx, sy + 1);
            }
            _ => panic!("expected two solutions for n = {}", n),
        }
    }
    match solve_bestfs(2) {
        SearchOutcome::Exhausted(steps) => assert_eq!(steps, 5),
        _ => panic!("two queens never fit on a 2 by 2 board"),
    }
}
