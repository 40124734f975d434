//! What the search for N queens finds: every way to put one queen in each
//! row of the board so that no two see each other, nothing else, and each
//! such board once, in dictionary order.

use crate::exploration::{
    found_from, found_from_all, inner_nodes, leaves_last_first, lemma_children_all_inner,
    lemma_children_all_leaves, lemma_found_from_all_origin, lemma_found_from_inner,
    lemma_found_origin, lemma_found_through, results_of,
};
use crate::node::{
    admits, attacks, free_columns, lemma_free_columns, peaceful, QNode, TraversalNode,
};
use crate::qboard::{
    empty_rows, is_board, lemma_occupied_bound, lemma_occupied_empty, lemma_occupied_update,
    occupied, QBoard, MAX_BOARD_SIZE,
};
use vstd::prelude::*;

verus! {

/// The queens stand in the first rows of the board, without a gap: the rows
/// below the number of queens have one, the others have none.
pub open spec fn stacked(rows: Seq<Option<usize>>) -> bool {
    forall|r: int| 0 <= r < rows.len() ==> ((#[trigger] rows[r]) is Some <==> r < occupied(rows))
}

/// A solved board: every row has a queen on the board, and no two queens
/// see each other.
pub open spec fn is_solution(rows: Seq<Option<usize>>) -> bool {
    &&& is_board(rows)
    &&& forall|r: int| 0 <= r < rows.len() ==> (#[trigger] rows[r]) is Some
    &&& peaceful(rows)
}

/// `full` has every queen of `partial`, in the same place.
pub open spec fn extends(full: Seq<Option<usize>>, partial: Seq<Option<usize>>) -> bool {
    &&& full.len() == partial.len()
    &&& forall|r: int|
        0 <= r < partial.len() ==> ((#[trigger] partial[r]) is Some ==> full[r] == partial[r])
}

/// A board with a queen in every row has as many queens as rows.
pub proof fn lemma_occupied_full(rows: Seq<Option<usize>>)
    requires
        forall|r: int| 0 <= r < rows.len() ==> (#[trigger] rows[r]) is Some,
    ensures
        occupied(rows) == rows.len(),
    decreases rows.len(),
{
    if rows.len() > 0 {
        assert forall|r: int| 0 <= r < rows.drop_last().len() implies (
        #[trigger] rows.drop_last()[r]) is Some by {
            assert(rows.drop_last()[r] == rows[r]);
        }
        lemma_occupied_full(rows.drop_last());
        assert(rows.last() == rows[rows.len() - 1]);
    }
}

/// A solved board of side `n` has `n` queens, one in each row, and any two
/// of them stand in different columns and on different diagonals.
pub proof fn lemma_solution_shape(rows: Seq<Option<usize>>)
    requires
        is_solution(rows),
    ensures
        occupied(rows) == rows.len(),
        forall|r: int| 0 <= r < rows.len() ==> (#[trigger] rows[r]) is Some && rows[r]->0 < rows.len(),
        forall|r1: int, r2: int|
            0 <= r1 < rows.len() && 0 <= r2 < rows.len() && r1 != r2 ==> {
                let c1 = (#[trigger] rows[r1])->0;
                let c2 = (#[trigger] rows[r2])->0;
                &&& c1 != c2
                &&& c1 - c2 != r1 - r2
                &&& c1 - c2 != r2 - r1
            },
{
    lemma_occupied_full(rows);
    assert forall|r1: int, r2: int|
        0 <= r1 < rows.len() && 0 <= r2 < rows.len() && r1 != r2 implies {
        let c1 = (#[trigger] rows[r1])->0;
        let c2 = (#[trigger] rows[r2])->0;
        &&& c1 != c2
        &&& c1 - c2 != r1 - r2
        &&& c1 - c2 != r2 - r1
    } by {
        let c1 = rows[r1]->0;
        let c2 = rows[r2]->0;
        if r1 < r2 {
            assert(!attacks((r1 as usize, c1), (r2 as usize, c2)));
        } else {
            assert(!attacks((r2 as usize, c2), (r1 as usize, c1)));
        }
    }
}

/// One step of the search keeps what the search relies on: a child of a
/// peaceful board filled from the top is such a board again, with one queen
/// more, in the first free row.
pub proof fn lemma_child_of_stacked(v: Seq<Option<usize>>, i: int)
    requires
        is_board(v),
        stacked(v),
        peaceful(v),
        0 <= i < QNode::expansion(v).len(),
    ensures
        occupied(v) < v.len(),
        0 <= i < free_columns(v, occupied(v) as usize, v.len()).len(),
        QNode::expansion(v)[i] == v.update(
            occupied(v) as int,
            Some(free_columns(v, occupied(v) as usize, v.len())[i]),
        ),
        is_board(QNode::expansion(v)[i]),
        stacked(QNode::expansion(v)[i]),
        peaceful(QNode::expansion(v)[i]),
        extends(QNode::expansion(v)[i], v),
        occupied(QNode::expansion(v)[i]) == occupied(v) + 1,
{
    let row = occupied(v) as usize;
    let columns = free_columns(v, row, v.len());
    let col = columns[i];
    let child = QNode::expansion(v)[i];
    lemma_free_columns(v, row, v.len());
    assert(col < v.len() && admits(v, (row, col)));
    assert(v[row as int] is None);
    lemma_occupied_update(v, row as int, col);
    assert forall|r: int| 0 <= r < child.len() implies ((#[trigger] child[r]) is Some <==> r
        < occupied(child)) by {
        if r != row {
            assert(child[r] == v[r]);
        }
    }
    assert forall|r: int| 0 <= r < child.len() implies (#[trigger] child[r] matches Some(c) ==> c
        < child.len()) by {
        if r != row {
            assert(child[r] == v[r]);
        }
    }
    assert forall|r1: int, r2: int| 0 <= r1 < r2 < child.len() implies (
    #[trigger] child[r1] matches Some(c1) ==> (#[trigger] child[r2] matches Some(c2) ==> !attacks(
        (r1 as usize, c1),
        (r2 as usize, c2),
    ))) by {
        if r2 < row {
            assert(child[r1] == v[r1] && child[r2] == v[r2]);
        } else if r2 == row {
            assert(child[r1] == v[r1]);
        } else {
            assert(child[r2] == v[r2]);
        }
    }
    assert(extends(child, v));
}

/// Below a peaceful board filled from the top, the search finds only
/// solved boards, and each of them keeps the queens the board had.
pub proof fn lemma_found_are_solutions(v: Seq<Option<usize>>, w: Seq<Option<usize>>)
    requires
        is_board(v),
        stacked(v),
        peaceful(v),
        found_from::<QNode, QBoard>(v).contains(w),
    ensures
        is_solution(w),
        extends(w, v),
    decreases QNode::remaining(v),
{
    if QNode::leaf(v) {
        assert(w == v);
    } else {
        let i = lemma_found_origin::<QNode, QBoard>(v, w);
        let child = QNode::expansion(v)[i];
        lemma_child_of_stacked(v, i);
        lemma_occupied_bound(v);
        lemma_found_are_solutions(child, w);
    }
}

/// Below a peaceful board filled from the top, the search finds every
/// solved board that keeps the queens the board has.
pub proof fn lemma_solutions_are_found(v: Seq<Option<usize>>, w: Seq<Option<usize>>)
    requires
        is_board(v),
        stacked(v),
        peaceful(v),
        is_solution(w),
        extends(w, v),
    ensures
        found_from::<QNode, QBoard>(v).contains(w),
    decreases QNode::remaining(v),
{
    lemma_occupied_bound(v);
    if QNode::leaf(v) {
        assert(w =~= v);
        assert(found_from::<QNode, QBoard>(v)[0] == w);
    } else {
        let row = occupied(v) as usize;
        let col = w[row as int]->0;
        assert forall|r: int| 0 <= r < v.len() implies (#[trigger] v[r] matches Some(c)
            ==> !attacks((r as usize, c), (row, col))) by {
            if v[r] is Some {
                assert(w[r] == v[r]);
                assert(w[row as int] is Some);
            }
        }
        lemma_free_columns(v, row, v.len());
        let columns = free_columns(v, row, v.len());
        assert(columns.contains(col));
        let i = choose|i: int| 0 <= i < columns.len() && columns[i] == col;
        let child = QNode::expansion(v)[i];
        lemma_child_of_stacked(v, i);
        assert forall|r: int| 0 <= r < child.len() && (#[trigger] child[r]) is Some implies w[r]
            == child[r] by {
            if r != row {
                assert(child[r] == v[r]);
            }
        }
        lemma_solutions_are_found(child, w);
        lemma_found_through::<QNode, QBoard>(v, i, w);
    }
}

/// `a` and `b` have the same queens in the rows above `row`, and in `row`
/// the queen of `a` stands in a lower column than the queen of `b`.
pub open spec fn differ_first_at(a: Seq<Option<usize>>, b: Seq<Option<usize>>, row: int) -> bool {
    &&& 0 <= row < a.len()
    &&& row < b.len()
    &&& forall|q: int| 0 <= q < row ==> a[q] == b[q]
    &&& a[row] matches Some(ca) && (b[row] matches Some(cb) && ca < cb)
}

/// `a` comes before `b` in dictionary order: read row by row from the
/// first, the first row in which they differ has the lower column in `a`.
pub open spec fn comes_before(a: Seq<Option<usize>>, b: Seq<Option<usize>>) -> bool {
    exists|row: int| differ_first_at(a, b, row)
}

/// Each board of `boards` comes before every later one in dictionary order.
/// In particular no board occurs twice.
pub open spec fn ascending(boards: Seq<Seq<Option<usize>>>) -> bool {
    forall|i: int, j: int|
        0 <= i < j < boards.len() ==> comes_before(#[trigger] boards[i], #[trigger] boards[j])
}

/// An ascending list holds no board twice.
pub proof fn lemma_ascending_has_no_repeats(boards: Seq<Seq<Option<usize>>>, i: int, j: int)
    requires
        ascending(boards),
        0 <= i < j < boards.len(),
    ensures
        boards[i] != boards[j],
{
    let row = choose|row: int| differ_first_at(boards[i], boards[j], row);
    assert(differ_first_at(boards[i], boards[j], row));
}

/// Of two boards, at most one comes before the other.
pub proof fn lemma_comes_before_one_way(a: Seq<Option<usize>>, b: Seq<Option<usize>>)
    requires
        comes_before(a, b),
    ensures
        !comes_before(b, a),
{
    let there = choose|row: int| differ_first_at(a, b, row);
    if comes_before(b, a) {
        let back = choose|row: int| differ_first_at(b, a, row);
        if there < back {
            assert(b[there] == a[there]);
        } else if back < there {
            assert(a[back] == b[back]);
        }
    }
}

/// Two ascending lists that hold the same boards are the same list: what a
/// list holds and that it is ascending say all there is to say about it.
pub proof fn lemma_ascending_lists_agree(
    one: Seq<Seq<Option<usize>>>,
    other: Seq<Seq<Option<usize>>>,
)
    requires
        ascending(one),
        ascending(other),
        forall|w: Seq<Option<usize>>| one.contains(w) <==> other.contains(w),
    ensures
        one == other,
    decreases one.len(),
{
    if one.len() == 0 {
        if other.len() > 0 {
            assert(other.contains(other[0]));
        }
        assert(one =~= other);
    } else {
        assert(one.contains(one[0]));
        let j = choose|j: int| 0 <= j < other.len() && other[j] == one[0];
        assert(other.contains(other[0]));
        let i = choose|i: int| 0 <= i < one.len() && one[i] == other[0];
        if i > 0 {
            assert(comes_before(one[0], one[i]));
            if j > 0 {
                assert(comes_before(other[0], other[j]));
            }
            lemma_comes_before_one_way(one[0], one[i]);
        }
        assert(one[0] == other[0]);
        let one_rest = one.drop_first();
        let other_rest = other.drop_first();
        assert forall|w: Seq<Option<usize>>| one_rest.contains(w) <==> other_rest.contains(
            w,
        ) by {
            if one_rest.contains(w) {
                let k = choose|k: int| 0 <= k < one_rest.len() && one_rest[k] == w;
                assert(one[k + 1] == w);
                assert(comes_before(one[0], one[k + 1]));
                assert(one.contains(w));
                let m = choose|m: int| 0 <= m < other.len() && other[m] == w;
                if m == 0 {
                    lemma_ascending_has_no_repeats(one, 0, k + 1);
                }
                assert(other_rest[m - 1] == w);
            }
            if other_rest.contains(w) {
                let k = choose|k: int| 0 <= k < other_rest.len() && other_rest[k] == w;
                assert(other[k + 1] == w);
                assert(other.contains(w));
                let m = choose|m: int| 0 <= m < one.len() && one[m] == w;
                if m == 0 {
                    lemma_ascending_has_no_repeats(other, 0, k + 1);
                }
                assert(one_rest[m - 1] == w);
            }
        }
        assert forall|i: int, j: int| 0 <= i < j < one_rest.len() implies comes_before(
            #[trigger] one_rest[i],
            #[trigger] one_rest[j],
        ) by {
            assert(one_rest[i] == one[i + 1] && one_rest[j] == one[j + 1]);
        }
        assert forall|i: int, j: int| 0 <= i < j < other_rest.len() implies comes_before(
            #[trigger] other_rest[i],
            #[trigger] other_rest[j],
        ) by {
            assert(other_rest[i] == other[i + 1] && other_rest[j] == other[j + 1]);
        }
        lemma_ascending_lists_agree(one_rest, other_rest);
        assert(one =~= seq![one[0]] + one_rest);
        assert(other =~= seq![other[0]] + other_rest);
    }
}

/// Numbers below `bound` that differ from each other are at most `bound`
/// many.
proof fn lemma_distinct_are_few(values: Seq<int>, bound: int)
    requires
        0 <= bound,
        forall|i: int| 0 <= i < values.len() ==> 0 <= #[trigger] values[i] < bound,
        forall|i: int, j: int|
            0 <= i < j < values.len() ==> #[trigger] values[i] != #[trigger] values[j],
    ensures
        values.len() <= bound,
    decreases bound,
{
    if values.len() > 0 {
        assert(0 <= values[0] < bound);
        if exists|i: int| 0 <= i < values.len() && values[i] == bound - 1 {
            let at = choose|i: int| 0 <= i < values.len() && values[i] == bound - 1;
            let others = values.remove(at);
            assert(others.len() == values.len() - 1);
            assert forall|i: int| 0 <= i < others.len() implies 0 <= #[trigger] others[i] < bound
                - 1 by {
                if i < at {
                    assert(others[i] == values[i]);
                } else {
                    assert(others[i] == values[i + 1]);
                }
            }
            assert forall|i: int, j: int| 0 <= i < j < others.len() implies #[trigger] others[i]
                != #[trigger] others[j] by {
                let from_i = if i < at { i } else { i + 1 };
                let from_j = if j < at { j } else { j + 1 };
                assert(others[i] == values[from_i]);
                assert(others[j] == values[from_j]);
            }
            lemma_distinct_are_few(others, bound - 1);
        } else {
            assert forall|i: int| 0 <= i < values.len() implies 0 <= #[trigger] values[i] < bound
                - 1 by {}
            lemma_distinct_are_few(values, bound - 1);
        }
    }
}

/// On a peaceful board filled from the top, the last row has at most one
/// free column: the queens above it stand in all columns but one.
pub proof fn lemma_last_row_has_one_place(v: Seq<Option<usize>>)
    requires
        is_board(v),
        stacked(v),
        peaceful(v),
        occupied(v) + 1 == v.len(),
    ensures
        free_columns(v, occupied(v) as usize, v.len()).len() <= 1,
{
    let row = occupied(v) as usize;
    let columns = free_columns(v, row, v.len());
    lemma_free_columns(v, row, v.len());
    if columns.len() >= 2 {
        let used = Seq::new(row as nat, |r: int| v[r]->0 as int);
        let values = used.push(columns[0] as int).push(columns[1] as int);
        assert(admits(v, (row, columns[0])));
        assert(admits(v, (row, columns[1])));
        assert forall|i: int| 0 <= i < values.len() implies 0 <= #[trigger] values[i]
            < v.len() by {
            if i < row {
                assert(v[i] is Some);
            }
        }
        assert forall|i: int, j: int| 0 <= i < j < values.len() implies #[trigger] values[i]
            != #[trigger] values[j] by {
            assert(v[i] is Some || i >= row);
            if j < row {
                assert(v[j] is Some);
                assert(!attacks((i as usize, v[i]->0), (j as usize, v[j]->0)));
            } else if i < row {
                let col = if j == row { columns[0] } else { columns[1] };
                assert(!attacks((i as usize, v[i]->0), (row, col)));
            }
        }
        lemma_distinct_are_few(values, v.len() as int);
    }
}

/// Two ascending lists, one after the other, are ascending when every board
/// of the first comes before every board of the second.
proof fn lemma_ascending_concat(front: Seq<Seq<Option<usize>>>, back: Seq<Seq<Option<usize>>>)
    requires
        ascending(front),
        ascending(back),
        forall|i: int, j: int|
            0 <= i < front.len() && 0 <= j < back.len() ==> comes_before(
                #[trigger] front[i],
                #[trigger] back[j],
            ),
    ensures
        ascending(front + back),
{
    let both = front + back;
    assert forall|i: int, j: int| 0 <= i < j < both.len() implies comes_before(
        #[trigger] both[i],
        #[trigger] both[j],
    ) by {
        if j < front.len() {
            assert(both[i] == front[i] && both[j] == front[j]);
        } else if i < front.len() {
            assert(both[i] == front[i] && both[j] == back[j - front.len()]);
        } else {
            assert(both[i] == back[i - front.len()] && both[j] == back[j - front.len()]);
        }
    }
}

/// A worklist is searched in ascending order when each of its states is,
/// and what comes from an earlier state comes before what comes from a
/// later one.
proof fn lemma_found_from_all_ascending(nodes: Seq<Seq<Option<usize>>>)
    requires
        forall|i: int|
            0 <= i < nodes.len() ==> ascending(#[trigger] found_from::<QNode, QBoard>(nodes[i])),
        forall|i: int, j: int, x: Seq<Option<usize>>, y: Seq<Option<usize>>|
            0 <= i < j < nodes.len() && #[trigger] found_from::<QNode, QBoard>(nodes[i]).contains(x)
                && #[trigger] found_from::<QNode, QBoard>(nodes[j]).contains(y) ==> comes_before(
                x,
                y,
            ),
    ensures
        ascending(found_from_all::<QNode, QBoard>(nodes)),
    decreases nodes.len(),
{
    if nodes.len() > 0 {
        let rest = nodes.drop_first();
        let front = found_from::<QNode, QBoard>(nodes[0]);
        let back = found_from_all::<QNode, QBoard>(rest);
        assert forall|i: int| 0 <= i < rest.len() implies ascending(
            #[trigger] found_from::<QNode, QBoard>(rest[i]),
        ) by {
            assert(rest[i] == nodes[i + 1]);
        }
        assert forall|i: int, j: int, x: Seq<Option<usize>>, y: Seq<Option<usize>>|
            0 <= i < j < rest.len() && #[trigger] found_from::<QNode, QBoard>(rest[i]).contains(x)
                && #[trigger] found_from::<QNode, QBoard>(rest[j]).contains(
                y,
            ) implies comes_before(x, y) by {
            assert(rest[i] == nodes[i + 1] && rest[j] == nodes[j + 1]);
        }
        lemma_found_from_all_ascending(rest);
        assert forall|i: int, j: int| 0 <= i < front.len() && 0 <= j < back.len() implies comes_before(
            #[trigger] front[i],
            #[trigger] back[j],
        ) by {
            assert(back.contains(back[j]));
            let k = lemma_found_from_all_origin::<QNode, QBoard>(rest, back[j]);
            assert(rest[k] == nodes[k + 1]);
            assert(found_from::<QNode, QBoard>(nodes[0]).contains(front[i]));
            assert(found_from::<QNode, QBoard>(nodes[k + 1]).contains(back[j]));
        }
        lemma_ascending_concat(front, back);
    }
}

/// Below a peaceful board filled from the top, the search finds the solved
/// boards in dictionary order.
pub proof fn lemma_found_ascending(v: Seq<Option<usize>>)
    requires
        is_board(v),
        stacked(v),
        peaceful(v),
    ensures
        ascending(found_from::<QNode, QBoard>(v)),
    decreases QNode::remaining(v),
{
    lemma_occupied_bound(v);
    if !QNode::leaf(v) {
        let row = occupied(v) as usize;
        let children = QNode::expansion(v);
        let columns = free_columns(v, row, v.len());
        lemma_found_from_inner::<QNode, QBoard>(v);
        lemma_free_columns(v, row, v.len());
        assert forall|i: int| 0 <= i < children.len() implies occupied(#[trigger] children[i])
            == row + 1 by {
            lemma_child_of_stacked(v, i);
        }
        if row + 1 == v.len() {
            lemma_last_row_has_one_place(v);
            lemma_children_all_leaves::<QNode, QBoard>(children);
            assert(found_from_all::<QNode, QBoard>(inner_nodes::<QNode, QBoard>(children))
                =~= Seq::<Seq<Option<usize>>>::empty());
            assert(found_from::<QNode, QBoard>(v).len() <= 1);
        } else {
            lemma_children_all_inner::<QNode, QBoard>(children);
            assert(found_from::<QNode, QBoard>(v) =~= found_from_all::<QNode, QBoard>(children));
            assert forall|i: int| 0 <= i < children.len() implies ascending(
                #[trigger] found_from::<QNode, QBoard>(children[i]),
            ) by {
                lemma_child_of_stacked(v, i);
                lemma_found_ascending(children[i]);
            }
            assert forall|i: int, j: int, x: Seq<Option<usize>>, y: Seq<Option<usize>>|
                0 <= i < j < children.len() && #[trigger] found_from::<QNode, QBoard>(
                    children[i],
                ).contains(x) && #[trigger] found_from::<QNode, QBoard>(children[j]).contains(
                    y,
                ) implies comes_before(x, y) by {
                lemma_child_of_stacked(v, i);
                lemma_child_of_stacked(v, j);
                lemma_found_are_solutions(children[i], x);
                lemma_found_are_solutions(children[j], y);
                assert(children[i][row as int] == Some(columns[i]));
                assert(children[j][row as int] == Some(columns[j]));
                assert(columns[i] < columns[j]);
                assert forall|q: int| 0 <= q < row implies x[q] == y[q] by {
                    assert(v[q] is Some);
                    assert(children[i][q] == v[q]);
                    assert(children[j][q] == v[q]);
                }
                assert(differ_first_at(x, y, row as int));
            }
            lemma_found_from_all_ascending(children);
        }
    }
}

/// Complete boards are their own results, so the results of a list of them
/// are the list itself.
pub proof fn lemma_results_of_complete(found: Seq<Seq<Option<usize>>>)
    requires
        forall|i: int| 0 <= i < found.len() ==> QNode::leaf(#[trigger] found[i]),
    ensures
        results_of::<QNode, QBoard>(found) == found,
    decreases found.len(),
{
    if found.len() > 0 {
        let before = found.drop_last();
        assert forall|i: int| 0 <= i < before.len() implies QNode::leaf(#[trigger] before[i]) by {
            assert(before[i] == found[i]);
        }
        lemma_results_of_complete(before);
        assert(QNode::leaf(found[found.len() - 1]));
        assert(before.push(found.last()) =~= found);
    }
}

/// The search from the empty board of side `n` finds the solved boards of
/// side `n`, all of them and nothing else, in dictionary order.
pub proof fn lemma_search_finds_the_solutions(n: nat, w: Seq<Option<usize>>)
    requires
        1 <= n <= MAX_BOARD_SIZE,
    ensures
        found_from::<QNode, QBoard>(empty_rows(n)).contains(w) <==> is_solution(w) && w.len() == n,
        ascending(found_from::<QNode, QBoard>(empty_rows(n))),
{
    let start = empty_rows(n);
    lemma_occupied_empty(n);
    lemma_found_ascending(start);
    if found_from::<QNode, QBoard>(start).contains(w) {
        lemma_found_are_solutions(start, w);
    }
    if is_solution(w) && w.len() == n {
        lemma_solutions_are_found(start, w);
    }
}

} // verus!
