use nqueens::node::{QNode, TraversalNode};
use nqueens::qboard::{BoardError, QBoard};
use nqueens::traversal::{run, Traversal};

#[test]
fn create_traversal() {
    let board = QBoard::new(5).unwrap();
    let node = QNode::from_board(board);
    let traversal = Traversal::init(node);

    assert!(traversal.answer().is_none())
}

#[test]
fn solve_1x1_board() {
    let board = QBoard::new(1).unwrap();
    let node = QNode::from_board(board);
    let mut traversal = Traversal::init(node);
    traversal.solve();

    let answer = traversal.answer();

    assert!(answer.is_some());
    let boards = answer.unwrap();

    assert_eq!(boards.len(), 1);
    assert_eq!(boards[0].pieces(), vec![(0, 0)]);
}

#[test]
fn solve_6x6_board() {
    let node = QNode::from_board(QBoard::new(6).unwrap());
    let mut traversal = Traversal::init(node);
    traversal.solve();

    let answer = traversal.answer();

    assert!(answer.is_some());
    let boards = answer.unwrap();
    let au = [
        [(0, 1), (1, 3), (2, 5), (3, 0), (4, 2), (5, 4)],
        [(0, 2), (1, 5), (2, 1), (3, 4), (4, 0), (5, 3)],
        [(0, 3), (1, 0), (2, 4), (3, 1), (4, 5), (5, 2)],
        [(0, 4), (1, 2), (2, 0), (3, 5), (4, 3), (5, 1)],
    ];
    for (idx, board) in boards.iter().enumerate() {
        assert_eq!(board.pieces(), au[idx]);
    }
}

#[test]
fn run_with_simple_api() {
    let n = 1;

    let answer = run(n).unwrap();
    assert_eq!(answer.len(), 1);
    assert_eq!(vec![(0, 0)], answer[0].pieces());
}

fn solved(n: u8) -> Vec<Vec<(usize, usize)>> {
    run(n).unwrap().iter().map(|b| b.pieces()).collect()
}

#[test]
fn size_two_has_no_solution() {
    assert_eq!(run(2).unwrap().len(), 0);
}

#[test]
fn size_three_has_no_solution() {
    assert_eq!(run(3).unwrap().len(), 0);
}

#[test]
fn size_four_has_two_solutions() {
    assert_eq!(
        solved(4),
        vec![vec![(0, 1), (1, 3), (2, 0), (3, 2)], vec![(0, 2), (1, 0), (2, 3), (3, 1)]]
    );
}

#[test]
fn size_six_has_its_four_solutions_in_order() {
    assert_eq!(
        solved(6),
        vec![
            vec![(0, 1), (1, 3), (2, 5), (3, 0), (4, 2), (5, 4)],
            vec![(0, 2), (1, 5), (2, 1), (3, 4), (4, 0), (5, 3)],
            vec![(0, 3), (1, 0), (2, 4), (3, 1), (4, 5), (5, 2)],
            vec![(0, 4), (1, 2), (2, 0), (3, 5), (4, 3), (5, 1)],
        ]
    );
}

#[test]
fn known_numbers_of_solutions() {
    assert_eq!(run(5).unwrap().len(), 10);
    assert_eq!(run(7).unwrap().len(), 40);
    assert_eq!(run(8).unwrap().len(), 92);
}

#[test]
fn run_refuses_size_zero() {
    assert_eq!(run(0).err(), Some(BoardError::InvalidSize));
}

#[test]
fn run_refuses_sizes_above_the_maximum() {
    assert_eq!(run(15).err(), Some(BoardError::InvalidSize));
    assert_eq!(run(255).err(), Some(BoardError::InvalidSize));
}

#[test]
fn every_board_found_is_a_solution() {
    for n in 1..=8u8 {
        for board in run(n).unwrap() {
            assert_eq!(board.size(), n as usize);
            assert_eq!(board.pieces_placed(), n);
            let pieces = board.pieces();
            assert_eq!(pieces.len(), n as usize);
            for (idx, (row, col)) in pieces.iter().enumerate() {
                assert_eq!(*row, idx);
                assert!(*col < n as usize);
            }
            for i in 0..pieces.len() {
                for j in i + 1..pieces.len() {
                    let (r1, c1) = pieces[i];
                    let (r2, c2) = pieces[j];
                    assert_ne!(c1, c2);
                    assert_ne!(r2 - r1, c1.abs_diff(c2));
                }
            }
            assert!(QNode::from_board(board).is_valid());
        }
    }
}

#[test]
fn solutions_come_in_dictionary_order_without_repeats() {
    for n in 1..=8u8 {
        let found = solved(n);
        for pair in found.windows(2) {
            assert!(pair[0] < pair[1]);
        }
    }
}

#[test]
fn answer_is_unavailable_before_solve() {
    for n in 1..=4usize {
        let traversal = Traversal::init(QNode::from_board(QBoard::new(n).unwrap()));

        assert!(traversal.answer().is_none());
        assert!(traversal.answer().is_none());
    }
}

#[test]
fn answer_without_solutions_is_empty_not_unavailable() {
    let mut traversal = Traversal::init(QNode::from_board(QBoard::new(3).unwrap()));
    assert!(traversal.answer().is_none());

    traversal.solve();

    let answer = traversal.answer();
    assert!(answer.is_some());
    assert_eq!(answer.unwrap().len(), 0);
}

#[test]
fn answer_is_the_same_on_every_call() {
    let mut traversal = Traversal::init(QNode::from_board(QBoard::new(6).unwrap()));
    traversal.solve();

    let first: Vec<Vec<(usize, usize)>> =
        traversal.answer().unwrap().iter().map(|b| b.pieces()).collect();
    let second: Vec<Vec<(usize, usize)>> =
        traversal.answer().unwrap().iter().map(|b| b.pieces()).collect();

    assert_eq!(first.len(), 4);
    assert_eq!(first, second);
}

#[test]
fn second_solve_changes_nothing() {
    let mut traversal = Traversal::init(QNode::from_board(QBoard::new(5).unwrap()));
    traversal.solve();
    let first: Vec<Vec<(usize, usize)>> =
        traversal.answer().unwrap().iter().map(|b| b.pieces()).collect();

    traversal.solve();
    let second: Vec<Vec<(usize, usize)>> =
        traversal.answer().unwrap().iter().map(|b| b.pieces()).collect();

    assert_eq!(first.len(), 10);
    assert_eq!(first, second);
}

#[test]
fn search_below_a_partial_board_keeps_its_queens() {
    let mut b = QBoard::new(6).unwrap();
    b.set_piece(0, 2).unwrap();
    let mut traversal = Traversal::init(QNode::from_board(b));
    traversal.solve();

    let found: Vec<Vec<(usize, usize)>> =
        traversal.answer().unwrap().iter().map(|b| b.pieces()).collect();

    assert_eq!(found, vec![vec![(0, 2), (1, 5), (2, 1), (3, 4), (4, 0), (5, 3)]]);
}

#[test]
fn search_from_a_complete_board_finds_that_board() {
    let mut b = QBoard::new(1).unwrap();
    b.set_piece(0, 0).unwrap();
    let mut traversal = Traversal::init(QNode::from_board(b));
    traversal.solve();

    let boards = traversal.answer().unwrap();

    assert_eq!(boards.len(), 1);
    assert_eq!(boards[0].pieces(), vec![(0, 0)]);
}

fn crowded_board() -> QBoard {
    let mut b = QBoard::new(5).unwrap();
    b.set_piece(0, 1).unwrap();
    b.set_piece(1, 2).unwrap();
    b.set_piece(2, 0).unwrap();
    b.set_piece(3, 0).unwrap();
    b
}

#[test]
fn complete_children_are_collected_last_first() {
    let children: Vec<Vec<(usize, usize)>> = QNode::from_board(crowded_board())
        .gen_next()
        .iter()
        .map(|n| n.board().pieces())
        .collect();
    assert_eq!(
        children,
        vec![
            vec![(0, 1), (1, 2), (2, 0), (3, 0), (4, 3)],
            vec![(0, 1), (1, 2), (2, 0), (3, 0), (4, 4)],
        ]
    );

    let mut traversal = Traversal::init(QNode::from_board(crowded_board()));
    traversal.solve();
    let found: Vec<Vec<(usize, usize)>> =
        traversal.answer().unwrap().iter().map(|b| b.pieces()).collect();
    assert_eq!(
        found,
        vec![
            vec![(0, 1), (1, 2), (2, 0), (3, 0), (4, 4)],
            vec![(0, 1), (1, 2), (2, 0), (3, 0), (4, 3)],
        ]
    );
}
