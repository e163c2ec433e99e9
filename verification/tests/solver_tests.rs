use connect4::position::Position;
use connect4::position::HEIGHT;
use connect4::position::WIDTH;
use connect4::solve;
use connect4::solver::Cache;
use connect4::solver::PlaySorter;
use connect4::solver::Solver;

/// A move list that fills the whole board without ever making four in a
/// row: each row is laid left to right in a fixed column order, and the
/// column stacks alternate so that no line of four forms anywhere.
fn draw_plays(moves: usize) -> Vec<u64> {
    let mut v: Vec<u64> = Vec::new();
    for _ in 0..6 {
        for c in [0u64, 2, 1, 3, 4, 6, 5] {
            if v.len() < moves {
                v.push(c);
            }
        }
    }
    v
}

#[test]
fn test_insert_pop() {
    let mut s = PlaySorter::new();
    s.insert(1, 1);
    s.insert(2, 30);
    s.insert(3, 15);
    assert_eq!(s.pop(), Some(2));
    assert_eq!(s.pop(), Some(3));
    assert_eq!(s.pop(), Some(1));
    assert_eq!(s.pop(), None);
}

#[test]
fn test_cache_roundtrip() {
    let mut c = Cache::new();
    assert_eq!(c.get(12345), 0);
    c.insert(12345, -7);
    assert_eq!(c.get(12345), -7);
    // another key mapping elsewhere is still unknown
    assert_eq!(c.get(54321), 0);
    c.clear();
    assert_eq!(c.get(12345), 0);
}

#[test]
fn test_solve_immediate_win() {
    // the mover completes a vertical four at once: six stones are placed,
    // so the win scores (42 + 1 - 6) / 2
    let p = Position::parse("121212").unwrap();
    assert!(p.can_win_next());
    let mut solver = Solver::new();
    assert_eq!(solver.solve(p), 18);
}

#[test]
fn test_solve_full_board_draw() {
    let p = Position::from_plays(&draw_plays(42));
    assert_eq!(p.play_count, 42);
    assert!(p.is_draw());
    assert!(!p.is_winning());
    let mut solver = Solver::new();
    assert_eq!(solver.solve(p), 0);
    assert_eq!(solve::solve(p), 0);
}

#[test]
fn test_solve_one_cell_left() {
    // one empty cell: the forced last move fills the board, a draw
    let p = Position::from_plays(&draw_plays(41));
    let mut solver = Solver::new();
    assert_eq!(solver.solve(p), 0);
    assert_eq!(solve::solve(p), 0);
}

#[test]
fn test_solvers_agree() {
    // the engine and the plain solver are independent implementations;
    // on the same positions they must find the same score
    for moves in [35usize, 36, 38, 40] {
        let p = Position::from_plays(&draw_plays(moves));
        assert!(!p.is_winning());
        let mut solver = Solver::new();
        assert_eq!(solver.solve(p), solve::solve(p), "at {} moves", moves);
    }
}

#[test]
fn test_negamax_sign() {
    // the score of a position is the best over its legal columns of the
    // value obtained by playing there: the win score for an immediate win,
    // minus the child's score otherwise
    let p = Position::from_plays(&draw_plays(36));
    let mut solver = Solver::new();
    let total = solver.solve(p);
    let mut best: Option<i32> = None;
    for c in 0..WIDTH {
        if p.is_valid_play(c) {
            let value = if p.is_winning_play(c) {
                ((WIDTH * HEIGHT + 1) as i32 - p.play_count as i32) / 2
            } else {
                let mut child_solver = Solver::new();
                -child_solver.solve(p.play(c))
            };
            assert!(value <= total);
            best = Some(best.map_or(value, |b| if value > b { value } else { b }));
        }
    }
    assert_eq!(best, Some(total));
}

#[test]
fn test_visited_count_deterministic() {
    // the same search on the same input visits the same number of nodes
    let p = Position::from_plays(&draw_plays(35));
    let mut s1 = Solver::new();
    let mut s2 = Solver::new();
    let r1 = s1.solve(p);
    let r2 = s2.solve(p);
    assert_eq!(r1, r2);
    assert_eq!(s1.visited, s2.visited);
    // a reset solver repeats itself exactly
    s1.reset();
    assert_eq!(s1.visited, 0);
    assert_eq!(s1.solve(p), r1);
    assert_eq!(s1.visited, s2.visited);
}

#[test]
fn test_solve_weak_signs() {
    // the weak solver agrees with the exact solver on the sign
    for moves in [36usize, 38, 40, 41] {
        let p = Position::from_plays(&draw_plays(moves));
        if p.can_win_next() {
            continue;
        }
        let mut solver = Solver::new();
        let exact = solver.solve(p);
        solver.reset();
        let weak = solver.solve_weak(p);
        assert_eq!(weak.signum(), exact.signum(), "at {} moves", moves);
        assert_eq!(solve::solve_weak(p).signum(), exact.signum());
    }
}

#[test]
fn test_best_play_takes_the_last_column() {
    // with one column left, that column is the best and only move
    let p = Position::from_plays(&draw_plays(41));
    let mut solver = Solver::new();
    assert_eq!(solver.best_play(p), 5);
}

#[test]
fn test_best_play_blocks_a_threat() {
    // every column but the blocking one loses at once, so the block wins
    // the comparison
    let p = Position::from_plays(&draw_plays(38));
    let mut solver = Solver::new();
    let col = solver.best_play(p);
    // the chosen column must not hand the opponent an immediate win
    if !p.is_winning_play(col) {
        let after = p.play(col);
        assert!(!after.can_win_next());
    }
}
