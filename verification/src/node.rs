//! Search states: what the search engine asks of a state, and the state of
//! the N-queens search, a board filled from the first row down.

use crate::qboard::{
    is_board, lemma_occupied_bound, lemma_occupied_update, lemma_placements, occupied, placements,
    QBoard,
};
use vstd::math::abs;
use vstd::prelude::*;

verus! {

/// The views of a sequence of values, one by one.
pub open spec fn views<N: View>(items: Seq<N>) -> Seq<N::V> {
    items.map_values(|item: N| item@)
}

/// A state of a backtracking search whose results have type `T`.
///
/// The search engine knows a state only by its view. The spec functions say
/// what a state is in terms of that view, and the executable methods compute
/// what the spec functions say.
pub trait TraversalNode<T: View>: Sized + View {
    /// Whether the state is complete, so that the search stops below it.
    spec fn leaf(v: Self::V) -> bool;

    /// The states one step below `v`, in the order they are tried.
    spec fn expansion(v: Self::V) -> Seq<Self::V>;

    /// The result a state stands for, if it stands for one.
    spec fn result(v: Self::V) -> Option<T::V>;

    /// A bound on the number of steps that can still be taken below `v`.
    spec fn remaining(v: Self::V) -> nat;

    /// Every step below an incomplete state uses up some of the bound, so
    /// the search below any state is finite.
    proof fn lemma_expansion_descends(v: Self::V, i: int)
        requires
            !Self::leaf(v),
            0 <= i < Self::expansion(v).len(),
        ensures
            Self::remaining(Self::expansion(v)[i]) < Self::remaining(v),
    ;

    /// Expands the state into the states one step below it.
    fn gen_next(&self) -> (children: Vec<Self>)
        ensures
            views(children@) == Self::expansion(self@),
    ;

    /// Whether the state is complete.
    fn is_leaf(&self) -> (leaf: bool)
        ensures
            leaf == Self::leaf(self@),
    ;

    /// The result of the state, if it has one.
    fn answer(&self) -> (found: Option<T>)
        ensures
            match found {
                Some(value) => Self::result(self@) == Some(value@),
                None => Self::result(self@) is None,
            },
    ;
}

/// Two queens see each other when they share a row, a column or a diagonal.
pub open spec fn attacks(a: (usize, usize), b: (usize, usize)) -> bool {
    ||| a.0 == b.0
    ||| a.1 == b.1
    ||| abs(a.0 - b.0) == abs(a.1 - b.1)
}

/// No queen of `rows` sees a queen at `at`.
pub open spec fn admits(rows: Seq<Option<usize>>, at: (usize, usize)) -> bool {
    forall|r: int|
        0 <= r < rows.len() ==> (#[trigger] rows[r] matches Some(c) ==> !attacks((r as usize, c), at))
}

/// No two queens of `rows` see each other.
pub open spec fn peaceful(rows: Seq<Option<usize>>) -> bool {
    forall|r1: int, r2: int|
        0 <= r1 < r2 < rows.len() ==> (#[trigger] rows[r1] matches Some(c1) ==> (
        #[trigger] rows[r2] matches Some(c2) ==> !attacks((r1 as usize, c1), (r2 as usize, c2))))
}

/// The columns below `columns` in which a queen in `row` is seen by no queen
/// of `rows`, by ascending column.
pub open spec fn free_columns(rows: Seq<Option<usize>>, row: usize, columns: nat) -> Seq<usize>
    decreases columns,
{
    if columns == 0 {
        Seq::empty()
    } else {
        let col = (columns - 1) as usize;
        let before = free_columns(rows, row, (columns - 1) as nat);
        if admits(rows, (row, col)) {
            before.push(col)
        } else {
            before
        }
    }
}

/// The boards that come from `rows` by a queen in `row`, one for each free
/// column below `columns`, by ascending column.
pub open spec fn branches(rows: Seq<Option<usize>>, row: usize, columns: nat) -> Seq<
    Seq<Option<usize>>,
> {
    free_columns(rows, row, columns).map_values(|col: usize| rows.update(row as int, Some(col)))
}

/// `free_columns` lists exactly the free columns below the bound, each once
/// and in ascending order.
pub proof fn lemma_free_columns(rows: Seq<Option<usize>>, row: usize, columns: nat)
    requires
        columns <= usize::MAX,
    ensures
        forall|i: int|
            0 <= i < free_columns(rows, row, columns).len() ==> {
                let col = #[trigger] free_columns(rows, row, columns)[i];
                col < columns && admits(rows, (row, col))
            },
        forall|i: int, j: int|
            0 <= i < j < free_columns(rows, row, columns).len() ==> #[trigger] free_columns(
                rows,
                row,
                columns,
            )[i] < #[trigger] free_columns(rows, row, columns)[j],
        forall|col: usize|
            col < columns && admits(rows, (row, col)) ==> #[trigger] free_columns(
                rows,
                row,
                columns,
            ).contains(col),
    decreases columns,
{
    if columns > 0 {
        let before = free_columns(rows, row, (columns - 1) as nat);
        let now = free_columns(rows, row, columns);
        lemma_free_columns(rows, row, (columns - 1) as nat);
        assert forall|col: usize| col < columns && admits(rows, (row, col)) implies now.contains(
            col,
        ) by {
            if col < columns - 1 {
                assert(before.contains(col));
                let i = choose|i: int| 0 <= i < before.len() && before[i] == col;
                assert(now[i] == col);
            } else {
                assert(now[now.len() - 1] == col);
            }
        }
        assert forall|i: int, j: int| 0 <= i < j < now.len() implies #[trigger] now[i]
            < #[trigger] now[j] by {
            assert(now[i] == before[i]);
            if j < before.len() {
                assert(now[j] == before[j]);
            }
        }
    }
}

/// No pair of `pairs` sees `at`.
pub open spec fn all_blind(pairs: Seq<(usize, usize)>, at: (usize, usize)) -> bool {
    forall|k: int| 0 <= k < pairs.len() ==> !attacks(#[trigger] pairs[k], at)
}

/// No two pairs of `pairs` see each other.
pub open spec fn pairwise_blind(pairs: Seq<(usize, usize)>) -> bool {
    forall|j: int, k: int|
        0 <= j < k < pairs.len() ==> !attacks(#[trigger] pairs[j], #[trigger] pairs[k])
}

/// Seen through the list of queens, `admits` asks that none of them sees
/// the square.
pub proof fn lemma_admits_by_pairs(rows: Seq<Option<usize>>, at: (usize, usize))
    requires
        rows.len() <= usize::MAX,
    ensures
        admits(rows, at) == all_blind(placements(rows), at),
{
    lemma_placements(rows);
    let pairs = placements(rows);
    if admits(rows, at) {
        assert forall|k: int| 0 <= k < pairs.len() implies !attacks(#[trigger] pairs[k], at) by {
            assert(rows[pairs[k].0 as int] == Some(pairs[k].1));
        }
    }
    if all_blind(pairs, at) {
        assert forall|r: int| 0 <= r < rows.len() implies (#[trigger] rows[r] matches Some(c)
            ==> !attacks((r as usize, c), at)) by {
            if let Some(c) = rows[r] {
                assert(pairs.contains((r as usize, c)));
            }
        }
    }
}

/// Seen through the list of queens, `peaceful` asks that no two of them see
/// each other.
pub proof fn lemma_peaceful_by_pairs(rows: Seq<Option<usize>>)
    requires
        rows.len() <= usize::MAX,
    ensures
        peaceful(rows) == pairwise_blind(placements(rows)),
{
    lemma_placements(rows);
    let pairs = placements(rows);
    if peaceful(rows) {
        assert forall|j: int, k: int| 0 <= j < k < pairs.len() implies !attacks(
            #[trigger] pairs[j],
            #[trigger] pairs[k],
        ) by {
            assert(rows[pairs[j].0 as int] == Some(pairs[j].1));
            assert(rows[pairs[k].0 as int] == Some(pairs[k].1));
        }
    }
    if pairwise_blind(pairs) {
        assert forall|r1: int, r2: int| 0 <= r1 < r2 < rows.len() implies (
        #[trigger] rows[r1] matches Some(c1) ==> (#[trigger] rows[r2] matches Some(c2)
            ==> !attacks((r1 as usize, c1), (r2 as usize, c2)))) by {
            if let Some(c1) = rows[r1] {
                if let Some(c2) = rows[r2] {
                    assert(pairs.contains((r1 as usize, c1)));
                    assert(pairs.contains((r2 as usize, c2)));
                    let j = choose|j: int| 0 <= j < pairs.len() && pairs[j] == (r1 as usize, c1);
                    let k = choose|k: int| 0 <= k < pairs.len() && pairs[k] == (r2 as usize, c2);
                    if j >= k {
                        assert(pairs[k].0 < pairs[j].0 || j == k);
                    }
                }
            }
        }
    }
}

/// The distance between two indices.
fn gap(a: usize, b: usize) -> (d: usize)
    ensures
        d == abs(a - b),
{
    if a >= b {
        a - b
    } else {
        b - a
    }
}

/// The state of the N-queens search: a board of its own.
#[derive(Debug)]
pub struct QNode {
    board: QBoard,
}

impl View for QNode {
    type V = Seq<Option<usize>>;

    /// The rows of the node's board.
    closed spec fn view(&self) -> Seq<Option<usize>> {
        self.board@
    }
}

impl QNode {
    /// Wraps a board as a search state.
    pub fn from_board(board: QBoard) -> (node: Self)
        ensures
            node@ == board@,
    {
        QNode { board: board }
    }

    /// The board of the state.
    pub fn board(&self) -> (board: &QBoard)
        ensures
            board@ == self@,
    {
        &self.board
    }

    /// Whether no two queens on the board see each other.
    pub fn is_valid(&self) -> (valid: bool)
        ensures
            valid == peaceful(self@),
    {
        let pieces = self.board.pieces();
        proof {
            lemma_peaceful_by_pairs(self@);
        }
        let mut i: usize = 0;
        while i < pieces.len()
            invariant
                i <= pieces@.len(),
                peaceful(self@) == pairwise_blind(pieces@),
                forall|j: int, k: int|
                    0 <= j < k < pieces@.len() && j < i ==> !attacks(
                        #[trigger] pieces@[j],
                        #[trigger] pieces@[k],
                    ),
            decreases pieces@.len() - i,
        {
            let mut j: usize = i + 1;
            while j < pieces.len()
                invariant
                    i < j <= pieces@.len(),
                    peaceful(self@) == pairwise_blind(pieces@),
                    forall|k: int| i < k < j ==> !attacks(pieces@[i as int], #[trigger] pieces@[k]),
                decreases pieces@.len() - j,
            {
                if self.see_each_other(pieces[i], pieces[j]) {
                    assert(attacks(pieces@[i as int], pieces@[j as int]));
                    return false;
                }
                j += 1;
            }
            i += 1;
        }
        true
    }

    /// Whether two queens, given as `(row, column)`, share a row, a column
    /// or a diagonal.
    pub fn see_each_other(&self, lhs: (usize, usize), rhs: (usize, usize)) -> (seen: bool)
        ensures
            seen == attacks(lhs, rhs),
    {
        let (lhs_x, lhs_y) = lhs;
        let (rhs_x, rhs_y) = rhs;

        let horizontal = lhs_x == rhs_x;
        let vertical = lhs_y == rhs_y;
        let diagonal = gap(lhs_x, rhs_x) == gap(lhs_y, rhs_y);

        horizontal || vertical || diagonal
    }

    /// Whether none of the queens in `pieces` sees a queen at `at`.
    fn unseen(&self, pieces: &Vec<(usize, usize)>, at: (usize, usize)) -> (free: bool)
        ensures
            free == all_blind(pieces@, at),
    {
        let mut k: usize = 0;
        while k < pieces.len()
            invariant
                k <= pieces@.len(),
                forall|j: int| 0 <= j < k ==> !attacks(#[trigger] pieces@[j], at),
            decreases pieces@.len() - k,
        {
            if self.see_each_other(pieces[k], at) {
                return false;
            }
            k += 1;
        }
        true
    }
}

impl Clone for QNode {
    /// A state with a copy of the board.
    fn clone(&self) -> (copy: Self)
        ensures
            copy@ == self@,
    {
        QNode { board: self.board.clone() }
    }
}

impl TraversalNode<QBoard> for QNode {
    /// A board is complete when every row has its queen.
    open spec fn leaf(v: Seq<Option<usize>>) -> bool {
        occupied(v) == v.len()
    }

    /// One board for each free column of the row whose index is the number
    /// of queens placed so far; none when that row does not exist.
    open spec fn expansion(v: Seq<Option<usize>>) -> Seq<Seq<Option<usize>>> {
        if is_board(v) && occupied(v) < v.len() {
            branches(v, occupied(v) as usize, v.len())
        } else {
            Seq::empty()
        }
    }

    /// A complete board is its own result.
    open spec fn result(v: Seq<Option<usize>>) -> Option<Seq<Option<usize>>> {
        if Self::leaf(v) {
            Some(v)
        } else {
            None
        }
    }

    /// The number of rows without a queen.
    open spec fn remaining(v: Seq<Option<usize>>) -> nat {
        (v.len() - occupied(v)) as nat
    }

    proof fn lemma_expansion_descends(v: Seq<Option<usize>>, i: int) {
        let row = occupied(v) as usize;
        lemma_free_columns(v, row, v.len());
        let col = free_columns(v, row, v.len())[i];
        assert(v[row as int] is None) by {
            if let Some(c) = v[row as int] {
                assert(attacks((row, c), (row, col)));
            }
        }
        lemma_occupied_update(v, row as int, col);
    }

    fn gen_next(&self) -> (children: Vec<QNode>) {
        let size = self.board.size();
        let next_row: usize = self.board.pieces_placed() as usize;
        let mut next_gen_nodes: Vec<QNode> = Vec::new();  // only correct boards are pushed
        if next_row >= size {
            // A full board has no row left for another queen.
            proof {
                lemma_occupied_bound(self@);
            }
            assert(views(next_gen_nodes@) =~= Self::expansion(self@));
            return next_gen_nodes;
        }
        let active_pieces = self.board.pieces();
        let mut col: usize = 0;
        assert(views(next_gen_nodes@) =~= branches(self@, next_row, 0));
        while col < size
            invariant
                col <= size == self@.len(),
                is_board(self@),
                next_row < size,
                active_pieces@ == placements(self@),
                views(next_gen_nodes@) == branches(self@, next_row, col as nat),
            decreases size - col,
        {
            let next_pt: (usize, usize) = (next_row, col);
            proof {
                lemma_admits_by_pairs(self@, next_pt);
            }
            if self.unseen(&active_pieces, next_pt) {
                let mut next_board = self.board.clone();
                if next_board.set_piece(next_pt.0, next_pt.1).is_ok() {
                    let node = QNode::from_board(next_board);
                    let ghost before = next_gen_nodes@;
                    next_gen_nodes.push(node);
                    assert(views(next_gen_nodes@) =~= views(before).push(node@));
                }
            }
            assert(views(next_gen_nodes@) =~= branches(self@, next_row, (col + 1) as nat));
            col += 1;
        }
        next_gen_nodes
    }

    fn is_leaf(&self) -> (leaf: bool) {
        self.board.size() == self.board.pieces_placed() as usize
    }

    fn answer(&self) -> (found: Option<QBoard>) {
        if self.is_leaf() {
            Some(self.board.clone())
        } else {
            None
        }
    }
}

} // verus!
