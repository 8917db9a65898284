use minesweeper::paper::{Board, GroupEdges, PieceKind, Spot, U, V, W};
use minesweeper::river::{meeting_point, sumdigits};

#[test]
fn sumdigits_values() {
    assert_eq!(sumdigits(0), 0);
    assert_eq!(sumdigits(1), 1);
    assert_eq!(sumdigits(435), 12);
    assert_eq!(sumdigits(999), 27);
}

#[test]
fn meeting_point_values() {
    assert_eq!(meeting_point(1, 7), 107);
    assert_eq!(meeting_point(5, 5), 5);
}

#[test]
fn factors() {
    assert_eq!(U(0), 1);
    assert_eq!(U(3), 4);
    assert_eq!(V(3), 8);
    assert_eq!(W(0), 1);
    assert_eq!(W(3), 5);
}

#[test]
fn group_and_analyse() {
    // two pieces: one touching the left edge, one loose in the middle
    let e = PieceKind::Empty;
    let p = PieceKind::Piece;
    let mut b = Board {
        pieces: vec![vec![p, e, e], vec![e, e, p], vec![e, e, e]],
        w: 3,
        h: 3,
        groups: 0,
    };
    b.group();
    assert_eq!(b.groups, 2);
    assert_eq!(b.pieces[0][0], PieceKind::Group(0));
    assert_eq!(b.pieces[1][2], PieceKind::Group(1));
    let edges = b.analysis();
    assert_eq!(edges.len(), 2);
    assert_eq!(
        edges[0],
        GroupEdges { top: true, bottom: false, left: true, right: false }
    );
    assert_eq!(
        edges[1],
        GroupEdges { top: false, bottom: false, left: false, right: true }
    );
}

#[test]
fn movers() {
    let b = Board { pieces: vec![vec![PieceKind::Empty; 2]; 2], w: 2, h: 2, groups: 0 };
    let s = Spot { x: 1, y: 1 };
    assert!(b.left(&s).is_some());
    assert!(b.right(&s).is_none());
    assert!(b.up(&s).is_some());
    assert!(b.down(&s).is_none());
}
