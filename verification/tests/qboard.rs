use nqueens::qboard::{BoardError, QBoard, MAX_BOARD_SIZE};

#[test]
fn create_board() {
    let n: usize = 5;
    let b = QBoard::new(n).unwrap();

    assert_eq!(b.size(), n);
}

#[test]
fn set_piece() {
    let mut b = QBoard::new(5).unwrap();
    b.set_piece(0, 0).unwrap();

    assert_eq!(b.pieces(), vec![(0, 0)]);
}

#[test]
#[should_panic]
fn panics_when_placing_pieces_outside_of_the_board() {
    let mut board = QBoard::new(5).unwrap();

    board.set_piece(0, 10).unwrap();
}

#[test]
fn pieces_dont_lose_rows_when_set_insequentally() {
    let mut b = QBoard::new(5).unwrap();
    b.set_piece(0, 0).unwrap();
    b.set_piece(2, 1).unwrap();

    assert_eq!(b.pieces(), [(0, 0), (2, 1)]);
}

#[test]
fn qboard_impl_display() {
    let mut b = QBoard::new(2).unwrap();
    b.set_piece(0, 0).unwrap();
    b.set_piece(1, 1).unwrap();

    // the output should look like this:
    // ####
    // #.*#
    // #*.#
    // ####
    assert_eq!(b.to_string(), "####\n.*\n*.\n####\n\n");
}

#[test]
fn new_board_has_no_pieces() {
    let b = QBoard::new(4).unwrap();

    assert_eq!(b.pieces(), vec![]);
    assert_eq!(b.pieces_placed(), 0);
}

#[test]
fn zero_size_is_refused() {
    assert_eq!(QBoard::new(0).err(), Some(BoardError::InvalidSize));
}

#[test]
fn size_above_the_maximum_is_refused() {
    assert_eq!(MAX_BOARD_SIZE, 14);
    assert!(QBoard::new(MAX_BOARD_SIZE).is_ok());
    assert_eq!(QBoard::new(MAX_BOARD_SIZE + 1).err(), Some(BoardError::InvalidSize));
    assert_eq!(QBoard::new(usize::MAX).err(), Some(BoardError::InvalidSize));
}

#[test]
fn smallest_board_is_accepted() {
    let b = QBoard::new(1).unwrap();

    assert_eq!(b.size(), 1);
}

#[test]
fn row_out_of_bounds_is_refused() {
    let mut b = QBoard::new(5).unwrap();

    assert_eq!(b.set_piece(5, 0), Err(BoardError::OutOfBounds));
    assert_eq!(b.set_piece(usize::MAX, 0), Err(BoardError::OutOfBounds));
}

#[test]
fn column_out_of_bounds_is_refused() {
    let mut b = QBoard::new(5).unwrap();

    assert_eq!(b.set_piece(0, 5), Err(BoardError::OutOfBounds));
    assert_eq!(b.set_piece(0, usize::MAX), Err(BoardError::OutOfBounds));
    assert_eq!(b.set_piece(7, 9), Err(BoardError::OutOfBounds));
}

#[test]
fn refused_placement_leaves_the_board_as_it_was() {
    let mut b = QBoard::new(3).unwrap();
    b.set_piece(1, 2).unwrap();

    assert!(b.set_piece(3, 0).is_err());
    assert!(b.set_piece(0, 3).is_err());

    assert_eq!(b.pieces(), vec![(1, 2)]);
    assert_eq!(b.pieces_placed(), 1);
    assert_eq!(b.size(), 3);
}

#[test]
fn last_row_and_column_are_on_the_board() {
    let mut b = QBoard::new(5).unwrap();

    assert_eq!(b.set_piece(4, 4), Ok(()));
    assert_eq!(b.pieces(), vec![(4, 4)]);
}

#[test]
fn pieces_placed_counts_the_rows_with_a_queen() {
    let mut b = QBoard::new(5).unwrap();
    b.set_piece(3, 1).unwrap();
    assert_eq!(b.pieces_placed(), 1);
    b.set_piece(0, 4).unwrap();
    assert_eq!(b.pieces_placed(), 2);

    assert_eq!(b.pieces_placed() as usize, b.pieces().len());
}

#[test]
fn placing_again_in_a_row_moves_its_queen() {
    let mut b = QBoard::new(5).unwrap();
    b.set_piece(2, 1).unwrap();
    b.set_piece(2, 3).unwrap();

    assert_eq!(b.pieces(), vec![(2, 3)]);
    assert_eq!(b.pieces_placed(), 1);
}

#[test]
fn pieces_come_by_ascending_row() {
    let mut b = QBoard::new(4).unwrap();
    b.set_piece(3, 0).unwrap();
    b.set_piece(1, 2).unwrap();
    b.set_piece(0, 3).unwrap();

    assert_eq!(b.pieces(), vec![(0, 3), (1, 2), (3, 0)]);
}

#[test]
fn clone_has_a_board_of_its_own() {
    let mut b = QBoard::new(3).unwrap();
    b.set_piece(0, 1).unwrap();

    let mut copy = b.clone();
    assert_eq!(copy.pieces(), vec![(0, 1)]);
    assert_eq!(copy.pieces_placed(), 1);

    copy.set_piece(1, 2).unwrap();
    assert_eq!(b.pieces(), vec![(0, 1)]);
    assert_eq!(copy.pieces(), vec![(0, 1), (1, 2)]);
}

#[test]
fn empty_board_is_drawn_with_dots_only() {
    let b = QBoard::new(3).unwrap();

    assert_eq!(b.to_string(), "#####\n...\n...\n...\n#####\n\n");
}

#[test]
fn rows_are_drawn_from_the_last_to_the_first() {
    let mut b = QBoard::new(3).unwrap();
    b.set_piece(0, 2).unwrap();
    b.set_piece(2, 0).unwrap();

    assert_eq!(b.to_string(), "#####\n*..\n...\n..*\n#####\n\n");
}

#[test]
fn board_of_one_is_drawn() {
    let mut b = QBoard::new(1).unwrap();
    b.set_piece(0, 0).unwrap();

    assert_eq!(b.to_string(), "###\n*\n###\n\n");
}
