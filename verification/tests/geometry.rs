use choss::board::Board;
use choss::order::rank;
use choss::piece::{Color, Piece};
use choss::pos::{diags, lines, los, Pos};

#[test]
fn step_and_back_returns_to_start() {
    let starts = [Pos(0, 0), Pos(3, 4), Pos(-7, 12), Pos(i32::MAX - 1, i32::MIN + 1)];
    for p in starts {
        for d in los() {
            assert_eq!(p + d + d * -1, p);
        }
    }
}

#[test]
fn vector_sum_and_scalar_product() {
    assert_eq!(Pos(1, 2) + Pos(3, -5), Pos(4, -3));
    assert_eq!(Pos(2, -3) * 4, Pos(8, -12));
    assert_eq!(Pos(2, -3) * 0, Pos(0, 0));
    assert_eq!(Pos(0, 1) * 2 + Pos(4, 1), Pos(4, 3));
}

#[test]
fn direction_tables() {
    assert_eq!(lines(), [Pos(0, 1), Pos(0, -1), Pos(1, 0), Pos(-1, 0)]);
    assert_eq!(diags(), [Pos(1, 1), Pos(1, -1), Pos(-1, 1), Pos(-1, -1)]);
    let all = los();
    assert_eq!(all.len(), 8);
    assert_eq!(&all[0..4], &lines()[..]);
    assert_eq!(&all[4..8], &diags()[..]);
}

#[test]
fn neighbors_of_orthogonal_directions_are_the_adjacent_diagonals() {
    assert_eq!(Pos(0, 1).neighbors(), [Pos(1, 1), Pos(-1, 1)]);
    assert_eq!(Pos(0, -1).neighbors(), [Pos(1, -1), Pos(-1, -1)]);
    assert_eq!(Pos(1, 0).neighbors(), [Pos(1, 1), Pos(1, -1)]);
    assert_eq!(Pos(-1, 0).neighbors(), [Pos(-1, 1), Pos(-1, -1)]);
}

#[test]
fn neighbors_of_diagonal_directions_are_the_adjacent_orthogonals() {
    assert_eq!(Pos(1, 1).neighbors(), [Pos(1, 0), Pos(0, 1)]);
    assert_eq!(Pos(1, -1).neighbors(), [Pos(1, 0), Pos(0, -1)]);
    assert_eq!(Pos(-1, 1).neighbors(), [Pos(-1, 0), Pos(0, 1)]);
    assert_eq!(Pos(-1, -1).neighbors(), [Pos(-1, 0), Pos(0, -1)]);
}

#[test]
fn neighbors_are_exactly_the_adjacent_directions() {
    for d in los() {
        let pair = d.neighbors();
        assert_ne!(pair[0], pair[1]);
        for n in los() {
            let apart = (d.0 - n.0).abs() + (d.1 - n.1).abs();
            assert_eq!(apart == 1, n == pair[0] || n == pair[1]);
        }
    }
}

#[test]
fn new_board_is_empty() {
    let board = Board::new(5, 8);
    assert_eq!(board.width, 5);
    assert_eq!(board.height, 8);
    assert_eq!(board.squares.len(), 40);
    assert!(board.squares.iter().all(|square| square.is_none()));
    let none = Board::new(0, 8);
    assert_eq!(none.squares.len(), 0);
    assert!(!none.in_bound(Pos(0, 0)));
}

#[test]
fn in_bound_is_exact_at_the_edges() {
    let board = Board::new(5, 8);
    assert!(board.in_bound(Pos(0, 0)));
    assert!(board.in_bound(Pos(4, 7)));
    assert!(!board.in_bound(Pos(5, 7)));
    assert!(!board.in_bound(Pos(4, 8)));
    assert!(!board.in_bound(Pos(-1, 0)));
    assert!(!board.in_bound(Pos(0, -1)));
    assert!(!board.in_bound(Pos(i32::MAX, i32::MAX)));
    assert!(!board.in_bound(Pos(i32::MIN, 3)));
}

#[test]
fn index_and_position_correspond() {
    let board = Board::new(5, 8);
    assert_eq!(board.i(Pos(0, 0)), 0);
    assert_eq!(board.i(Pos(4, 0)), 4);
    assert_eq!(board.i(Pos(0, 1)), 5);
    assert_eq!(board.i(Pos(3, 2)), 13);
    assert_eq!(board.i(Pos(4, 7)), 39);
    assert_eq!(board.pos(13), Pos(3, 2));
    for i in 0..40 {
        let pos = board.pos(i);
        assert!(board.in_bound(pos));
        assert_eq!(board.i(pos), i);
    }
    for y in 0..8 {
        for x in 0..5 {
            assert_eq!(board.pos(board.i(Pos(x, y))), Pos(x, y));
        }
    }
}

#[test]
fn set_replaces_one_square() {
    let mut board = Board::new(3, 2);
    board.set(Pos(2, 1), Some((Color::Black, Piece::Rook)));
    assert_eq!(board.get(Pos(2, 1)), Some(&Some((Color::Black, Piece::Rook))));
    assert_eq!(board.squares[5], Some((Color::Black, Piece::Rook)));
    assert_eq!(board.squares.iter().filter(|square| square.is_some()).count(), 1);
    board.set(Pos(2, 1), None);
    assert_eq!(board.get(Pos(2, 1)), Some(&None));
    assert_eq!(board.get(Pos(3, 1)), None);
    assert_eq!(board.get(Pos(2, 2)), None);
}

#[test]
fn rank_orders_by_key_and_keeps_equal_keys_in_place() {
    assert_eq!(rank(&vec![]), Vec::<usize>::new());
    assert_eq!(rank(&vec![5]), vec![0]);
    assert_eq!(rank(&vec![1, 3, 2, 3]), vec![1, 3, 2, 0]);
    assert_eq!(rank(&vec![0, 0, 0]), vec![0, 1, 2]);
    assert_eq!(rank(&vec![-4, 9, -4, 10, 9]), vec![3, 1, 4, 0, 2]);
    assert_eq!(rank(&vec![i128::MIN, i128::MAX, 0]), vec![1, 2, 0]);
}
