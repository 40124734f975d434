use nqueens::node::{QNode, TraversalNode};
use nqueens::qboard::QBoard;

#[test]
fn can_validate_board() {
    let mut b = QBoard::new(5).unwrap();
    b.set_piece(0, 0).unwrap();
    b.set_piece(1, 0).unwrap();
    let checker = QNode::from_board(b);

    assert!(!checker.is_valid());

    let mut b = QBoard::new(2).unwrap();
    b.set_piece(0, 0).unwrap();
    b.set_piece(1, 1).unwrap();
    let checker = QNode::from_board(b);
    assert!(!checker.is_valid());

    let mut b = QBoard::new(5).unwrap();
    b.set_piece(0, 0).unwrap();
    b.set_piece(2, 1).unwrap();
    let checker = QNode::from_board(b);
    assert!(checker.is_valid());
}

#[test]
fn generate_next_variants() {
    let mut b = QBoard::new(5).unwrap();
    b.set_piece(0, 0).unwrap();

    let node = QNode::from_board(b);

    let next_boards = node.gen_next();

    assert_eq!(next_boards.len(), 3);
    for node in &next_boards {
        assert_eq!(node.board().pieces_placed(), 2);
    }
}

#[test]
fn generate_nodes_from_scratch() {
    let b = QBoard::new(5).unwrap();

    let node = QNode::from_board(b);

    let next_nodes = node.gen_next();

    assert_eq!(next_nodes.len(), 5);
    for (idx, node) in next_nodes.iter().enumerate() {
        assert_eq!(node.board().pieces_placed(), 1);

        let pieces = node.board().pieces();
        assert_eq!(pieces.len(), 1);
        let (row, col) = pieces[0];

        assert_eq!(row, 0);
        assert_eq!(col, idx);
    }
}

#[test]
fn generate_nothing_from_last_gen() {
    let mut b = QBoard::new(1).unwrap();
    b.set_piece(0, 0).unwrap();

    let node = QNode::from_board(b);
    let boards = node.gen_next();

    assert_eq!(boards.len(), 0);
}

#[test]
fn is_leaf() {
    let mut b = QBoard::new(1).unwrap();
    b.set_piece(0, 0).unwrap();

    let node = QNode::from_board(b);

    assert!(node.is_leaf());

    let mut b = QBoard::new(2).unwrap();
    b.set_piece(0, 0).unwrap();
    let node = QNode::from_board(b);

    assert!(!node.is_leaf());
}

#[test]
fn gives_answer_on_leafs() {
    let b1 = QBoard::new(5).unwrap();
    let node1 = QNode::from_board(b1);
    assert!(node1.answer().is_none());

    let mut b2 = QBoard::new(1).unwrap();
    b2.set_piece(0, 0).unwrap();
    let node2 = QNode::from_board(b2);

    assert!(node2.answer().is_some());
    let ans: QBoard = node2.answer().unwrap();

    assert_eq!(ans.pieces(), vec![(0, 0)]);
}

#[test]
fn queens_in_one_row_see_each_other() {
    let node = QNode::from_board(QBoard::new(8).unwrap());

    assert!(node.see_each_other((3, 0), (3, 7)));
    assert!(node.see_each_other((3, 7), (3, 0)));
}

#[test]
fn queens_in_one_column_see_each_other() {
    let node = QNode::from_board(QBoard::new(8).unwrap());

    assert!(node.see_each_other((0, 4), (6, 4)));
    assert!(node.see_each_other((6, 4), (0, 4)));
}

#[test]
fn queens_on_one_diagonal_see_each_other() {
    let node = QNode::from_board(QBoard::new(8).unwrap());

    assert!(node.see_each_other((1, 2), (4, 5)));
    assert!(node.see_each_other((4, 5), (1, 2)));
    assert!(node.see_each_other((1, 5), (4, 2)));
    assert!(node.see_each_other((4, 2), (1, 5)));
}

#[test]
fn queens_a_knight_move_apart_do_not_see_each_other() {
    let node = QNode::from_board(QBoard::new(8).unwrap());

    assert!(!node.see_each_other((0, 0), (1, 2)));
    assert!(!node.see_each_other((0, 0), (2, 1)));
    assert!(!node.see_each_other((5, 3), (3, 4)));
    assert!(!node.see_each_other((0, 7), (7, 1)));
}

#[test]
fn a_queen_sees_its_own_square() {
    let node = QNode::from_board(QBoard::new(8).unwrap());

    assert!(node.see_each_other((2, 2), (2, 2)));
}

#[test]
fn board_without_queens_is_valid() {
    let node = QNode::from_board(QBoard::new(4).unwrap());

    assert!(node.is_valid());
}

#[test]
fn board_with_one_queen_is_valid() {
    let mut b = QBoard::new(4).unwrap();
    b.set_piece(2, 3).unwrap();

    assert!(QNode::from_board(b).is_valid());
}

#[test]
fn conflict_between_far_rows_is_seen() {
    let mut b = QBoard::new(5).unwrap();
    b.set_piece(0, 1).unwrap();
    b.set_piece(1, 3).unwrap();
    b.set_piece(4, 1).unwrap();

    assert!(!QNode::from_board(b).is_valid());
}

#[test]
fn children_come_by_ascending_column() {
    let mut b = QBoard::new(5).unwrap();
    b.set_piece(0, 2).unwrap();

    let children = QNode::from_board(b).gen_next();

    let found: Vec<Vec<(usize, usize)>> = children.iter().map(|n| n.board().pieces()).collect();
    assert_eq!(found, vec![vec![(0, 2), (1, 0)], vec![(0, 2), (1, 4)]]);
}

#[test]
fn children_do_not_share_their_board() {
    let node = QNode::from_board(QBoard::new(4).unwrap());

    let children = node.gen_next();

    assert_eq!(children.len(), 4);
    assert_eq!(node.board().pieces(), vec![]);
    assert_eq!(children[0].board().pieces(), vec![(0, 0)]);
    assert_eq!(children[3].board().pieces(), vec![(0, 3)]);
}

#[test]
fn every_child_is_valid_with_one_more_queen() {
    let mut b = QBoard::new(6).unwrap();
    b.set_piece(0, 1).unwrap();
    b.set_piece(1, 3).unwrap();
    let node = QNode::from_board(b);

    let children = node.gen_next();

    assert_eq!(children.len(), 2);
    for child in &children {
        assert!(child.is_valid());
        assert_eq!(child.board().pieces_placed(), 3);
        assert_eq!(child.board().size(), 6);
    }
}

#[test]
fn nothing_is_generated_when_the_next_row_is_taken() {
    let mut b = QBoard::new(5).unwrap();
    b.set_piece(1, 0).unwrap();

    let children = QNode::from_board(b).gen_next();

    assert_eq!(children.len(), 0);
}

#[test]
fn nothing_is_generated_from_a_full_board() {
    let mut b = QBoard::new(5).unwrap();
    b.set_piece(0, 0).unwrap();
    b.set_piece(1, 1).unwrap();
    b.set_piece(2, 0).unwrap();
    b.set_piece(3, 0).unwrap();
    b.set_piece(4, 0).unwrap();
    let node = QNode::from_board(b);

    assert!(node.is_leaf());
    assert_eq!(node.gen_next().len(), 0);
}

#[test]
fn dead_end_has_no_children() {
    let mut b = QBoard::new(3).unwrap();
    b.set_piece(0, 0).unwrap();
    b.set_piece(1, 2).unwrap();
    let node = QNode::from_board(b);

    assert!(!node.is_leaf());
    assert_eq!(node.gen_next().len(), 0);
}

#[test]
fn answer_is_a_copy_of_the_board() {
    let mut b = QBoard::new(4).unwrap();
    b.set_piece(0, 1).unwrap();
    b.set_piece(1, 3).unwrap();
    b.set_piece(2, 0).unwrap();
    b.set_piece(3, 2).unwrap();
    let node = QNode::from_board(b);

    let ans = node.answer().unwrap();

    assert_eq!(ans.pieces(), vec![(0, 1), (1, 3), (2, 0), (3, 2)]);
    assert_eq!(ans.pieces(), node.board().pieces());
}

#[test]
fn clone_of_a_node_has_the_same_board() {
    let mut b = QBoard::new(4).unwrap();
    b.set_piece(0, 1).unwrap();
    let node = QNode::from_board(b);

    let copy = node.clone();

    assert_eq!(copy.board().pieces(), vec![(0, 1)]);
    assert_eq!(copy.board().size(), 4);
}
