use minesweeper::board::Board;
use minesweeper::delta::Delta;
use minesweeper::hint::Hint;
use minesweeper::square::{Square, SquareState};

fn sq(state: SquareState) -> Square {
    Square { on_stack: false, hints: vec![], state }
}

fn board4(states: [SquareState; 4], bombs: u32, hints: Vec<Hint>) -> Board {
    Board {
        h: 0,
        w: 4,
        bombs,
        stack: vec![],
        squares: states.into_iter().map(sq).collect(),
        hints,
    }
}

#[test]
fn process_h_0len() {
    let board = board4(
        [SquareState::Unknown, SquareState::Bomb, SquareState::Unknown, SquareState::Empty],
        1,
        vec![Hint::new(1, vec![0, 2]), Hint::new(0, vec![])],
    );
    let mut delta = Delta::new();
    board.process_hint(1, &mut delta);
    assert_eq!(
        delta,
        Delta { hints2rm: vec![1], hints2add: vec![], squares2bomb: vec![], squares2empty: vec![] }
    );
}

#[test]
fn process_h_0delta() {
    let board = board4(
        [SquareState::Unknown, SquareState::Bomb, SquareState::Unknown, SquareState::Empty],
        1,
        vec![Hint::new(1, vec![0, 2])],
    );
    let mut delta = Delta::new();
    board.process_hint(0, &mut delta);
    assert_eq!(
        delta,
        Delta { hints2rm: vec![], hints2add: vec![], squares2bomb: vec![], squares2empty: vec![] }
    );
}

#[test]
fn process_h_known_bomb() {
    let board = board4(
        [SquareState::Unknown, SquareState::Bomb, SquareState::Unknown, SquareState::Bomb],
        1,
        vec![Hint::new(2, vec![0, 1, 3])],
    );
    let mut delta = Delta::new();
    board.process_hint(0, &mut delta);
    assert_eq!(
        delta,
        Delta {
            hints2rm: vec![0],
            hints2add: vec![Hint::new(0, vec![0])],
            squares2bomb: vec![],
            squares2empty: vec![],
        }
    );
}

#[test]
fn process_h_known_empty() {
    let board = board4(
        [SquareState::Unknown, SquareState::Unknown, SquareState::Empty, SquareState::Unknown],
        1,
        vec![Hint::new(2, vec![1, 2, 3])],
    );
    let mut delta = Delta::new();
    board.process_hint(0, &mut delta);
    assert_eq!(
        delta,
        Delta {
            hints2rm: vec![0],
            hints2add: vec![Hint::new(2, vec![1, 3])],
            squares2bomb: vec![],
            squares2empty: vec![],
        }
    );
}

#[test]
fn process_h_known_bomb_empty() {
    let board = board4(
        [SquareState::Unknown, SquareState::Bomb, SquareState::Empty, SquareState::Unknown],
        1,
        vec![Hint::new(2, vec![0, 1, 2, 3])],
    );
    let mut delta = Delta::new();
    board.process_hint(0, &mut delta);
    assert_eq!(
        delta,
        Delta {
            hints2rm: vec![0],
            hints2add: vec![Hint::new(1, vec![0, 3])],
            squares2bomb: vec![],
            squares2empty: vec![],
        }
    );
}

#[test]
fn process_h_known_all() {
    let board = board4(
        [SquareState::Empty, SquareState::Bomb, SquareState::Empty, SquareState::Bomb],
        2,
        vec![Hint::new(2, vec![0, 1, 2, 3])],
    );
    let mut delta = Delta::new();
    board.process_hint(0, &mut delta);
    assert_eq!(
        delta,
        Delta { hints2rm: vec![0], hints2add: vec![], squares2bomb: vec![], squares2empty: vec![] }
    );
}

#[test]
fn process_h_all_bombs() {
    let board = board4(
        [SquareState::Unknown, SquareState::Bomb, SquareState::Bomb, SquareState::Unknown],
        1,
        vec![Hint::new(2, vec![0, 3])],
    );
    let mut delta = Delta::new();
    board.process_hint(0, &mut delta);
    assert_eq!(
        delta,
        Delta {
            hints2rm: vec![0],
            hints2add: vec![],
            squares2bomb: vec![0, 3],
            squares2empty: vec![],
        }
    );
}

#[test]
fn process_h_all_empty() {
    let board = board4(
        [SquareState::Unknown, SquareState::Empty, SquareState::Empty, SquareState::Unknown],
        1,
        vec![Hint::new(0, vec![0, 3])],
    );
    let mut delta = Delta::new();
    board.process_hint(0, &mut delta);
    assert_eq!(
        delta,
        Delta {
            hints2rm: vec![0],
            hints2add: vec![],
            squares2bomb: vec![],
            squares2empty: vec![0, 3],
        }
    );
}

#[test]
fn process_p_inside() {
    let board = board4(
        [SquareState::Unknown, SquareState::Empty, SquareState::Empty, SquareState::Unknown],
        1,
        vec![Hint::new(3, vec![0, 1, 2, 3]), Hint::new(1, vec![0, 2])],
    );
    let mut delta = Delta::new();
    board.process_hint_pair(0, 1, &mut delta);
    assert_eq!(
        delta,
        Delta {
            hints2rm: vec![0],
            hints2add: vec![Hint::new(2, vec![1, 3])],
            squares2bomb: vec![],
            squares2empty: vec![],
        }
    );
}

#[test]
fn process_p_intersect() {
    let board = Board {
        h: 0,
        w: 4,
        bombs: 1,
        stack: vec![],
        squares: vec![
            sq(SquareState::Unknown),
            sq(SquareState::Empty),
            sq(SquareState::Empty),
            sq(SquareState::Unknown),
            sq(SquareState::Unknown),
            sq(SquareState::Unknown),
        ],
        hints: vec![Hint::new(1, vec![0, 1, 2, 3, 4]), Hint::new(2, vec![3, 4, 5])],
    };
    let mut delta = Delta::new();
    board.process_hint_pair(0, 1, &mut delta);
    assert_eq!(
        delta,
        Delta {
            hints2rm: vec![1, 0],
            hints2add: vec![
                Hint::new(1, vec![3, 4]),
                Hint::new(1, vec![5]),
                Hint::new(0, vec![0, 1, 2]),
            ],
            squares2bomb: vec![],
            squares2empty: vec![],
        }
    );
}

#[test]
fn hint_compare() {
    let hint1 = Hint::new(2, vec![1, 3, 12, 13, 14]);
    let hint2 = Hint::new(3, vec![7, 8, 9, 12, 13, 22]);
    let (sq1, sq2, sqboth) = Hint::compare_squares(&hint1, &hint2);
    assert_eq!((sq1, sq2, sqboth), (vec![1, 3, 14], vec![7, 8, 9, 22], vec![12, 13]));
}

#[test]
fn pigeonhole_remaining() {
    let board = board4(
        [SquareState::Bomb, SquareState::Empty, SquareState::Unknown, SquareState::Empty],
        2,
        vec![],
    );
    let mut delta = Delta::new();
    board.process_remaining(&mut delta);
    assert_eq!(
        delta,
        Delta { hints2rm: vec![], hints2add: vec![], squares2bomb: vec![2], squares2empty: vec![] }
    );
}

#[test]
fn solve_small_grid() {
    // 2x2 grid, one bomb: clue 1 at three corners pins the bomb at (1, 1)
    let rows = vec![vec!['1', '1'], vec!['1', '?']];
    let mut board = Board::from_rows(2, 2, 1, &rows);
    board.process_stack();
    let coords = board.bomb_coords();
    assert_eq!(coords, vec![(1, 1)]);
}

#[test]
fn idempotent_rerun() {
    let rows = vec![vec!['1', '1'], vec!['1', '?']];
    let mut board = Board::from_rows(2, 2, 1, &rows);
    board.process_stack();
    let first: Vec<(u32, u32)> = board.bomb_coords();
    let states_first: Vec<SquareState> = board.squares.iter().map(|s| s.state).collect();
    board.process_stack();
    let states_second: Vec<SquareState> = board.squares.iter().map(|s| s.state).collect();
    assert_eq!(first, board.bomb_coords());
    assert_eq!(states_first, states_second);
}

#[test]
fn confluent_orders() {
    // same constraints registered in different orders give the same
    // resolved cells
    let mut b1 = Board::new(4, 1, 2);
    let mut b2 = Board::new(4, 1, 2);
    let h1 = || Hint::new(1, vec![0, 1]);
    let h2 = || Hint::new(2, vec![1, 2, 3]);
    let h3 = || Hint::new(0, vec![0]);
    b1.add_hint(h1());
    b1.add_hint(h2());
    b1.add_hint(h3());
    b2.add_hint(h3());
    b2.add_hint(h2());
    b2.add_hint(h1());
    b1.process_stack();
    b2.process_stack();
    let s1: Vec<SquareState> = b1.squares.iter().map(|s| s.state).collect();
    let s2: Vec<SquareState> = b2.squares.iter().map(|s| s.state).collect();
    assert_eq!(s1, s2);
}
