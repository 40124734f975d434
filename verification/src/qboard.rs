//! The board: for each row, the column of its queen, if the row has one.

use vstd::prelude::*;
use vstd::string::StringExecFns;

verus! {

/// The largest side length a board may have.
pub const MAX_BOARD_SIZE: usize = 14;

/// Why a board operation was refused.
#[derive(Debug, Clone, Copy, PartialEq, Eq, Structural)]
pub enum BoardError {
    /// The side length is zero or larger than [`MAX_BOARD_SIZE`].
    InvalidSize,
    /// The row or the column lies outside the board.
    OutOfBounds,
}

/// The number of rows of `rows` that hold a queen.
pub open spec fn occupied(rows: Seq<Option<usize>>) -> nat
    decreases rows.len(),
{
    if rows.len() == 0 {
        0
    } else {
        occupied(rows.drop_last()) + if rows.last() is Some { 1nat } else { 0nat }
    }
}

/// A board without queens: `n` rows, none of them assigned.
pub open spec fn empty_rows(n: nat) -> Seq<Option<usize>> {
    Seq::new(n, |r: int| None::<usize>)
}

/// `rows` is the content of some board: its length is a supported side
/// length, and every queen stands in a column of the board.
pub open spec fn is_board(rows: Seq<Option<usize>>) -> bool {
    &&& 1 <= rows.len() <= MAX_BOARD_SIZE
    &&& forall|r: int| 0 <= r < rows.len() ==> (#[trigger] rows[r] matches Some(c) ==> c < rows.len())
}

/// The queens of `rows` as `(row, column)` pairs, by ascending row.
pub open spec fn placements(rows: Seq<Option<usize>>) -> Seq<(usize, usize)>
    decreases rows.len(),
{
    if rows.len() == 0 {
        Seq::empty()
    } else {
        let above = placements(rows.drop_last());
        match rows.last() {
            Some(col) => above.push(((rows.len() - 1) as usize, col)),
            None => above,
        }
    }
}

/// A board has at most as many queens as rows.
pub proof fn lemma_occupied_bound(rows: Seq<Option<usize>>)
    ensures
        occupied(rows) <= rows.len(),
    decreases rows.len(),
{
    if rows.len() > 0 {
        lemma_occupied_bound(rows.drop_last());
    }
}

/// A board without queens has none.
pub proof fn lemma_occupied_empty(n: nat)
    ensures
        occupied(empty_rows(n)) == 0,
    decreases n,
{
    if n > 0 {
        assert(empty_rows(n).drop_last() =~= empty_rows((n - 1) as nat));
        lemma_occupied_empty((n - 1) as nat);
    }
}

/// Assigning a column to a row adds one queen if the row was free, and none
/// if it replaces the queen the row already had.
pub proof fn lemma_occupied_update(rows: Seq<Option<usize>>, row: int, col: usize)
    requires
        0 <= row < rows.len(),
    ensures
        occupied(rows.update(row, Some(col))) == occupied(rows) + if rows[row] is None {
            1nat
        } else {
            0nat
        },
    decreases rows.len(),
{
    let next = rows.update(row, Some(col));
    if row == rows.len() - 1 {
        assert(next.drop_last() =~= rows.drop_last());
    } else {
        assert(next.drop_last() =~= rows.drop_last().update(row, Some(col)));
        lemma_occupied_update(rows.drop_last(), row, col);
    }
}

/// The pairs of `placements(rows)` are the queens of `rows`, each once and
/// by ascending row.
pub proof fn lemma_placements(rows: Seq<Option<usize>>)
    requires
        rows.len() <= usize::MAX,
    ensures
        forall|k: int|
            0 <= k < placements(rows).len() ==> {
                let pair = #[trigger] placements(rows)[k];
                pair.0 < rows.len() && rows[pair.0 as int] == Some(pair.1)
            },
        forall|j: int, k: int|
            0 <= j < k < placements(rows).len() ==> (#[trigger] placements(rows)[j]).0 < (
            #[trigger] placements(rows)[k]).0,
        forall|r: int|
            0 <= r < rows.len() ==> (#[trigger] rows[r] matches Some(c) ==> placements(
                rows,
            ).contains((r as usize, c))),
    decreases rows.len(),
{
    if rows.len() > 0 {
        let above = rows.drop_last();
        lemma_placements(above);
        let pairs = placements(rows);
        assert forall|r: int| 0 <= r < rows.len() implies (#[trigger] rows[r] matches Some(c)
            ==> pairs.contains((r as usize, c))) by {
            if let Some(c) = rows[r] {
                if r < rows.len() - 1 {
                    assert(above[r] == rows[r]);
                    let k = choose|k: int|
                        0 <= k < placements(above).len() && placements(above)[k] == (r as usize, c);
                    assert(pairs[k] == (r as usize, c));
                } else {
                    assert(pairs[pairs.len() - 1] == (r as usize, c));
                }
            }
        }
        assert forall|k: int| 0 <= k < pairs.len() implies {
            let pair = #[trigger] pairs[k];
            pair.0 < rows.len() && rows[pair.0 as int] == Some(pair.1)
        } by {
            if k < placements(above).len() {
                assert(pairs[k] == placements(above)[k]);
                assert(above[pairs[k].0 as int] == rows[pairs[k].0 as int]);
            }
        }
        assert forall|j: int, k: int| 0 <= j < k < pairs.len() implies (#[trigger] pairs[j]).0 < (
        #[trigger] pairs[k]).0 by {
            assert(pairs[j] == placements(above)[j]);
            if k < placements(above).len() {
                assert(pairs[k] == placements(above)[k]);
            }
        }
    }
}

/// An N×N board with at most one queen per row.
#[derive(Debug)]
pub struct QBoard {
    pieces_placed: u8,
    size: usize,
    pieces: Vec<Option<usize>>,
}

impl View for QBoard {
    type V = Seq<Option<usize>>;

    /// The column of each row's queen, by row index.
    closed spec fn view(&self) -> Seq<Option<usize>> {
        self.pieces@
    }
}

/// Writes `col` into `row` and keeps the count of queens in step with the
/// rows, so that both change in one call.
fn assign(pieces: &mut Vec<Option<usize>>, placed: &mut u8, row: usize, col: usize)
    requires
        row < old(pieces)@.len() <= MAX_BOARD_SIZE,
        *old(placed) == occupied(old(pieces)@),
    ensures
        final(pieces)@ == old(pieces)@.update(row as int, Some(col)),
        *final(placed) == occupied(final(pieces)@),
    no_unwind
{
    proof {
        lemma_occupied_update(pieces@, row as int, col);
        lemma_occupied_bound(pieces@.update(row as int, Some(col)));
    }
    let was_free = match pieces[row] {
        None => true,
        Some(_) => false,
    };
    pieces[row] = Some(col);
    if was_free {
        *placed = *placed + 1;
    }
}

/// The frame line of a drawn board of side `n`: `n + 2` marks and a line end.
pub open spec fn drawn_border(n: nat) -> Seq<char> {
    Seq::new(n + 2, |i: int| '#').push('\n')
}

/// The mark of the square in column `col` of a row whose queen is `queen`.
pub open spec fn drawn_square(queen: Option<usize>, col: int) -> char {
    if queen == Some(col as usize) {
        '*'
    } else {
        '.'
    }
}

/// One drawn row of a board of side `n`: a star in the queen's column, dots
/// elsewhere, and a line end.
pub open spec fn drawn_row(n: nat, queen: Option<usize>) -> Seq<char> {
    Seq::new(n, |c: int| drawn_square(queen, c)).push('\n')
}

/// The drawn rows of `rows`, the last row first.
pub open spec fn drawn_rows(rows: Seq<Option<usize>>, n: nat) -> Seq<char>
    decreases rows.len(),
{
    if rows.len() == 0 {
        Seq::empty()
    } else {
        drawn_row(n, rows.last()) + drawn_rows(rows.drop_last(), n)
    }
}

/// The whole drawing of a board: a frame line, the rows from the last to
/// the first, a frame line, and an empty line.
pub open spec fn drawn(rows: Seq<Option<usize>>) -> Seq<char> {
    (drawn_border(rows.len()) + drawn_rows(rows, rows.len()) + drawn_border(rows.len())).push('\n')
}

/// Appends the frame line of a board of side `n` to `text`.
fn draw_border(text: &mut String, n: usize)
    requires
        n <= MAX_BOARD_SIZE,
    ensures
        final(text)@ == old(text)@ + drawn_border(n as nat),
{
    let ghost before = text@;
    let mut i: usize = 0;
    while i < n + 2
        invariant
            i <= n + 2,
            n <= MAX_BOARD_SIZE,
            text@ == before + Seq::new(i as nat, |k: int| '#'),
        decreases n + 2 - i,
    {
        text.append("#");
        proof {
            reveal_strlit("#");
            assert(text@ =~= before + Seq::new((i + 1) as nat, |k: int| '#'));
        }
        i += 1;
    }
    text.append("\n");
    proof {
        reveal_strlit("\n");
        assert(text@ =~= before + drawn_border(n as nat));
    }
}

/// Appends one drawn row of a board of side `n` to `text`.
fn draw_row(text: &mut String, n: usize, queen: Option<usize>)
    ensures
        final(text)@ == old(text)@ + drawn_row(n as nat, queen),
{
    let ghost before = text@;
    let mut col: usize = 0;
    while col < n
        invariant
            col <= n,
            text@ == before + Seq::new(col as nat, |c: int| drawn_square(queen, c)),
        decreases n - col,
    {
        let here = match queen {
            Some(q) => q == col,
            None => false,
        };
        if here {
            text.append("*");
        } else {
            text.append(".");
        }
        proof {
            reveal_strlit("*");
            reveal_strlit(".");
            assert("*"@ =~= seq!['*']);
            assert("."@ =~= seq!['.']);
            assert(text@ =~= before + Seq::new((col + 1) as nat, |c: int| drawn_square(queen, c)));
        }
        col += 1;
    }
    text.append("\n");
    proof {
        reveal_strlit("\n");
        assert(text@ =~= before + drawn_row(n as nat, queen));
    }
}

impl QBoard {
    /// The rows are those of a board of side `size`, and `pieces_placed`
    /// counts the rows that hold a queen.
    #[verifier::type_invariant]
    spec fn well_formed(&self) -> bool {
        &&& self.pieces@.len() == self.size
        &&& is_board(self.pieces@)
        &&& self.pieces_placed == occupied(self.pieces@)
    }

    /// Makes a board of side `size` without queens, or refuses a side
    /// length outside `1..=MAX_BOARD_SIZE`.
    pub fn new(size: usize) -> (made: Result<Self, BoardError>)
        ensures
            match made {
                Ok(board) => 1 <= size <= MAX_BOARD_SIZE && board@ == empty_rows(size as nat),
                Err(e) => e == BoardError::InvalidSize && !(1 <= size <= MAX_BOARD_SIZE),
            },
    {
        if size == 0 || size > MAX_BOARD_SIZE {
            return Err(BoardError::InvalidSize);
        }
        let mut pieces: Vec<Option<usize>> = Vec::with_capacity(size);
        let mut row: usize = 0;
        while row < size
            invariant
                row <= size,
                pieces@ == empty_rows(row as nat),
            decreases size - row,
        {
            pieces.push(None);
            row += 1;
        }
        proof {
            lemma_occupied_empty(size as nat);
        }
        Ok(QBoard { pieces_placed: 0, size, pieces })
    }

    /// Puts the queen of `row` into column `col`. A free row gets its queen
    /// and the board has one queen more; in a row that has a queen, the
    /// queen moves to `col`. A row or column outside the board is refused
    /// and leaves the board as it was.
    pub fn set_piece(&mut self, row: usize, col: usize) -> (placed: Result<(), BoardError>)
        ensures
            match placed {
                Ok(_) => {
                    &&& row < old(self)@.len()
                    &&& col < old(self)@.len()
                    &&& final(self)@ == old(self)@.update(row as int, Some(col))
                    &&& occupied(final(self)@) == occupied(old(self)@) + if old(self)@[row as int]
                        is None {
                        1nat
                    } else {
                        0nat
                    }
                },
                Err(e) => {
                    &&& e == BoardError::OutOfBounds
                    &&& (row >= old(self)@.len() || col >= old(self)@.len())
                    &&& final(self)@ == old(self)@
                },
            },
    {
        proof {
            use_type_invariant(&*self);
        }
        if col >= self.size || row >= self.size {
            return Err(BoardError::OutOfBounds);
        }
        proof {
            lemma_occupied_update(self.pieces@, row as int, col);
        }
        assign(&mut self.pieces, &mut self.pieces_placed, row, col);
        Ok(())
    }

    /// The queens on the board as `(row, column)` pairs, by ascending row.
    pub fn pieces(&self) -> (pairs: Vec<(usize, usize)>)
        ensures
            pairs@ == placements(self@),
            is_board(self@),
    {
        proof {
            use_type_invariant(self);
        }
        let mut pairs: Vec<(usize, usize)> = Vec::new();
        let mut row: usize = 0;
        while row < self.pieces.len()
            invariant
                row <= self.pieces@.len(),
                pairs@ == placements(self.pieces@.take(row as int)),
            decreases self.pieces@.len() - row,
        {
            assert(self.pieces@.take(row + 1).drop_last() =~= self.pieces@.take(row as int));
            if let Some(col) = self.pieces[row] {
                pairs.push((row, col));
            }
            row += 1;
        }
        assert(self.pieces@.take(row as int) =~= self.pieces@);
        pairs
    }

    /// Draws the board as text: a frame line of `size + 2` marks, then one
    /// line per row from the last row to the first, with `*` for the queen
    /// and `.` for every other square, then the frame line again and an
    /// empty line.
    pub fn to_string(&self) -> (text: String)
        ensures
            text@ == drawn(self@),
    {
        proof {
            use_type_invariant(self);
        }
        let size = self.size;
        let mut text = String::new();
        draw_border(&mut text, size);
        let mut row: usize = size;
        assert(self.pieces@.take(row as int) =~= self.pieces@);
        while row > 0
            invariant
                row <= size == self.pieces@.len(),
                text@ + drawn_rows(self.pieces@.take(row as int), size as nat) == drawn_border(
                    size as nat,
                ) + drawn_rows(self.pieces@, size as nat),
            decreases row,
        {
            row -= 1;
            assert(self.pieces@.take(row + 1).drop_last() =~= self.pieces@.take(row as int));
            assert(self.pieces@.take(row + 1).last() == self.pieces@[row as int]);
            let ghost before = text@;
            draw_row(&mut text, size, self.pieces[row]);
            assert(before + (drawn_row(size as nat, self.pieces@[row as int]) + drawn_rows(
                self.pieces@.take(row as int),
                size as nat,
            )) =~= text@ + drawn_rows(self.pieces@.take(row as int), size as nat));
        }
        assert(text@ =~= drawn_border(size as nat) + drawn_rows(self.pieces@, size as nat)) by {
            assert(self.pieces@.take(0) =~= Seq::<Option<usize>>::empty());
        }
        draw_border(&mut text, size);
        text.append("\n");
        proof {
            reveal_strlit("\n");
            assert(text@ =~= drawn(self@));
        }
        text
    }

    /// The side length of the board.
    pub fn size(&self) -> (n: usize)
        ensures
            n == self@.len(),
            is_board(self@),
    {
        proof {
            use_type_invariant(self);
        }
        self.size
    }

    /// The number of rows that hold a queen.
    pub fn pieces_placed(&self) -> (n: u8)
        ensures
            n == occupied(self@),
            is_board(self@),
    {
        proof {
            use_type_invariant(self);
        }
        self.pieces_placed
    }
}

impl Clone for QBoard {
    /// An independent copy of the board, with the same queens.
    fn clone(&self) -> (copy: Self)
        ensures
            copy@ == self@,
    {
        proof {
            use_type_invariant(self);
        }
        let pieces = self.pieces.clone();
        assert(pieces@ =~= self.pieces@);
        QBoard { pieces_placed: self.pieces_placed, size: self.size, pieces }
    }
}

} // verus!
