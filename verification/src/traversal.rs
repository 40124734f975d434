//! The search engine: a worklist of states that are still to be expanded,
//! and the complete states found so far.

use crate::exploration::{
    found_from, found_from_all, inner_nodes, leaves_last_first, lemma_found_from_all_concat,
    lemma_found_from_inner, lemma_found_is_leaf, results_of, steps_from_all,
};
use crate::node::{views, QNode, TraversalNode};
use crate::qboard::{empty_rows, BoardError, QBoard, MAX_BOARD_SIZE};
use crate::solutions::{
    ascending, is_solution, lemma_results_of_complete, lemma_search_finds_the_solutions,
};
use std::collections::VecDeque;
use std::marker::PhantomData;
use vstd::prelude::*;

verus! {

/// A depth-first search over states of type `T` with results of type `Q`.
///
/// A traversal is open until `solve` has run, and closed from then on. While
/// it is open it gives no answer; once it is closed its worklist is empty
/// and its answer stays what it is.
pub struct Traversal<T, Q> where T: TraversalNode<Q>, Q: View {
    queue: VecDeque<T>,
    answer: Vec<T>,
    solved: bool,
    _t: PhantomData<Q>,
}

impl<Node, Board> Traversal<Node, Board> where Node: TraversalNode<Board>, Board: View {
    /// A closed traversal has nothing left on its worklist.
    #[verifier::type_invariant]
    spec fn well_formed(&self) -> bool {
        self.solved ==> self.queue@.len() == 0
    }

    /// The states that are still to be expanded, the next one first.
    pub closed spec fn worklist(&self) -> Seq<Node::V> {
        views(self.queue@)
    }

    /// The complete states found so far, in the order they were found.
    pub closed spec fn found(&self) -> Seq<Node::V> {
        views(self.answer@)
    }

    /// Whether the search has run to its end.
    pub closed spec fn is_closed(&self) -> bool {
        self.solved
    }

    /// What `answer` reports: the results of the complete states that were
    /// found, once the traversal is closed, and nothing while it is open.
    pub open spec fn reported(&self) -> Option<Seq<Board::V>> {
        if self.is_closed() {
            Some(results_of::<Node, Board>(self.found()))
        } else {
            None
        }
    }

    /// A traversal that has not been solved reports nothing: not even an
    /// empty list, which would look like a search without results. `init`
    /// returns such a traversal.
    pub proof fn lemma_open_reports_nothing(&self)
        requires
            !self.is_closed(),
        ensures
            self.reported() is None,
    {
    }

    /// Asking a closed traversal for its answer gives a list each time, and
    /// each time the same results in the same order.
    pub proof fn lemma_answer_repeats(
        &self,
        first: Option<Vec<Board>>,
        second: Option<Vec<Board>>,
    )
        requires
            self.is_closed(),
            match first {
                Some(list) => self.reported() == Some(views(list@)),
                None => self.reported() is None,
            },
            match second {
                Some(list) => self.reported() == Some(views(list@)),
                None => self.reported() is None,
            },
        ensures
            first is Some,
            second is Some,
            views(first->0@) == views(second->0@),
    {
    }

    /// Creates a traversal that will search below `node`.
    pub fn init(node: Node) -> (traversal: Self)
        ensures
            traversal.worklist() == seq![node@],
            traversal.found() == Seq::<Node::V>::empty(),
            !traversal.is_closed(),
    {
        let mut queue = VecDeque::new();
        queue.push_back(node);
        let answer: Vec<Node> = Vec::new();
        assert(views(queue@) =~= seq![node@]);
        assert(views(answer@) =~= Seq::<Node::V>::empty());

        Self { queue, answer, solved: false, _t: PhantomData }
    }

    /// Runs the search until the worklist is empty, and closes the traversal.
    /// A second run finds the worklist empty and changes nothing.
    pub fn solve(&mut self)
        ensures
            final(self).is_closed(),
            final(self).worklist() == Seq::<Node::V>::empty(),
            final(self).found() == old(self).found() + found_from_all::<Node, Board>(
                old(self).worklist(),
            ),
            old(self).is_closed() ==> final(self).found() == old(self).found(),
    {
        proof {
            use_type_invariant(&*self);
        }
        // The loop works on the worklist and the answers as locals and hands
        // the answers back when the worklist is empty.
        let mut queue: VecDeque<Node> = VecDeque::new();
        let mut answer: Vec<Node> = Vec::new();
        std::mem::swap(&mut queue, &mut self.queue);
        std::mem::swap(&mut answer, &mut self.answer);
        let ghost target = views(answer@) + found_from_all::<Node, Board>(views(queue@));
        loop
            invariant
                views(answer@) + found_from_all::<Node, Board>(views(queue@)) == target,
            ensures
                queue@.len() == 0,
                views(answer@) == target,
            decreases steps_from_all::<Node, Board>(views(queue@)),
        {
            let ghost found_before = views(answer@);
            let ghost waiting = views(queue@);
            let current_node = match queue.pop_front() {
                Some(node) => node,
                None => {
                    assert(views(answer@) + Seq::<Node::V>::empty() =~= views(answer@));
                    break ;
                },
            };
            let ghost rest = views(queue@);
            proof {
                assert(waiting.drop_first() =~= rest);
                assert(waiting[0] == current_node@);
                assert(waiting =~= seq![current_node@] + rest);
            }

            if current_node.is_leaf() {
                answer.push(current_node);
                proof {
                    assert(views(answer@) =~= found_before.push(current_node@));
                    assert(found_before + (seq![current_node@] + found_from_all::<Node, Board>(
                        rest,
                    )) =~= views(answer@) + found_from_all::<Node, Board>(rest));
                }
            } else {
                let mut next_gen = current_node.gen_next();
                let ghost children = views(next_gen@);
                proof {
                    lemma_found_from_inner::<Node, Board>(current_node@);
                    assert(children.skip(children.len() as int) =~= Seq::<Node::V>::empty());
                    assert(children.take(children.len() as int) =~= children);
                    assert(found_before + Seq::<Node::V>::empty() =~= found_before);
                    assert(Seq::<Node::V>::empty() + rest =~= rest);
                }
                loop
                    invariant
                        next_gen@.len() <= children.len(),
                        views(next_gen@) == children.take(next_gen@.len() as int),
                        views(answer@) == found_before + leaves_last_first::<Node, Board>(
                            children.skip(next_gen@.len() as int),
                        ),
                        views(queue@) == inner_nodes::<Node, Board>(
                            children.skip(next_gen@.len() as int),
                        ) + rest,
                    ensures
                        views(answer@) == found_before + leaves_last_first::<Node, Board>(
                            children,
                        ),
                        views(queue@) == inner_nodes::<Node, Board>(children) + rest,
                    decreases next_gen@.len(),
                {
                    let ghost left = next_gen@.len() as int;
                    let ghost found_here = views(answer@);
                    let ghost waiting_here = views(queue@);
                    let node = match next_gen.pop() {
                        Some(node) => node,
                        None => {
                            assert(children.skip(0) =~= children);
                            break ;
                        },
                    };
                    proof {
                        assert(views(next_gen@) =~= children.take(left - 1));
                        assert(children.take(left)[left - 1] == node@);
                        assert(children.skip(left - 1).drop_first() =~= children.skip(left));
                        assert(children.skip(left - 1)[0] == node@);
                    }
                    if node.is_leaf() {
                        answer.push(node);
                        assert(views(answer@) =~= found_here.push(node@));
                        assert(found_before + leaves_last_first::<Node, Board>(
                            children.skip(left),
                        ).push(node@) =~= views(answer@));
                    } else {
                        queue.push_front(node);
                        assert(views(queue@) =~= seq![node@] + waiting_here);
                        assert((seq![node@] + inner_nodes::<Node, Board>(children.skip(left)))
                            + rest =~= views(queue@));
                    }
                }
                proof {
                    let inner = inner_nodes::<Node, Board>(children);
                    let leaves = leaves_last_first::<Node, Board>(children);
                    lemma_found_from_all_concat::<Node, Board>(inner, rest);
                    assert(found_before + ((leaves + found_from_all::<Node, Board>(inner))
                        + found_from_all::<Node, Board>(rest)) =~= (found_before + leaves) + (
                    found_from_all::<Node, Board>(inner) + found_from_all::<Node, Board>(rest)));
                }
            }
        }
        proof {
            if old(self).is_closed() {
                assert(old(self).worklist() =~= Seq::<Node::V>::empty());
                assert(old(self).found() + Seq::<Node::V>::empty() =~= old(self).found());
            }
            assert(views(self.queue@) =~= Seq::<Node::V>::empty());
        }
        self.answer = answer;
        self.solved = true;
    }

    /// The results of the complete states that were found, in the order they
    /// were found, once the traversal is closed; `None` while it is open.
    pub fn answer(&self) -> (results: Option<Vec<Board>>)
        ensures
            match results {
                Some(list) => self.reported() == Some(views(list@)),
                None => self.reported() is None,
            },
    {
        if self.solved {
            let mut list: Vec<Board> = Vec::new();
            let mut i: usize = 0;
            assert(views(self.answer@).take(0) =~= Seq::<Node::V>::empty());
            assert(views(list@) =~= Seq::<Board::V>::empty());
            while i < self.answer.len()
                invariant
                    i <= self.answer@.len(),
                    views(list@) == results_of::<Node, Board>(views(self.answer@).take(i as int)),
                decreases self.answer@.len() - i,
            {
                let ghost so_far = views(list@);
                proof {
                    let upto = views(self.answer@).take(i + 1);
                    assert(upto.drop_last() =~= views(self.answer@).take(i as int));
                    assert(upto.last() == self.answer@[i as int]@);
                }
                if let Some(value) = self.answer[i].answer() {
                    list.push(value);
                    assert(views(list@) =~= so_far.push(value@));
                }
                i += 1;
            }
            assert(views(self.answer@).take(i as int) =~= views(self.answer@));
            Some(list)
        } else {
            None
        }
    }
}

/// Finds every way to put `n` queens on a board of side `n` so that no two
/// of them see each other.
///
/// The result holds the solved boards of side `n`, all of them and each
/// once, in dictionary order: that is the order of the depth-first search
/// that fills the rows from the first to the last and tries the columns of
/// each row from the first to the last. A side length outside
/// `1..=MAX_BOARD_SIZE` is refused.
pub fn run(n: u8) -> (outcome: Result<Vec<QBoard>, BoardError>)
    ensures
        match outcome {
            Ok(boards) => {
                &&& 1 <= n <= MAX_BOARD_SIZE
                &&& views(boards@) == found_from::<QNode, QBoard>(empty_rows(n as nat))
                &&& forall|i: int|
                    0 <= i < boards@.len() ==> is_solution(#[trigger] boards@[i]@) && boards@[i]@.len()
                        == n
                &&& forall|w: Seq<Option<usize>>|
                    is_solution(w) && w.len() == n ==> #[trigger] views(boards@).contains(w)
                &&& ascending(views(boards@))
            },
            Err(e) => e == BoardError::InvalidSize && !(1 <= n <= MAX_BOARD_SIZE),
        },
{
    let init_board = match QBoard::new(n as usize) {
        Ok(board) => board,
        Err(e) => {
            return Err(e);
        },
    };
    let node = QNode::from_board(init_board);
    let ghost start = node@;

    let mut traversal = Traversal::init(node);
    traversal.solve();

    let boards = traversal.answer().expect("Unexpected NONE after calling traversal.solve()");
    proof {
        let found = traversal.found();
        assert(found =~= found_from::<QNode, QBoard>(start)) by {
            let rest = seq![start].drop_first();
            assert(rest =~= Seq::<Seq<Option<usize>>>::empty());
            assert(found_from_all::<QNode, QBoard>(rest) =~= Seq::<Seq<Option<usize>>>::empty());
            assert(found_from_all::<QNode, QBoard>(seq![start]) =~= found_from::<QNode, QBoard>(
                start,
            ));
        }
        assert forall|i: int| 0 <= i < found.len() implies QNode::leaf(#[trigger] found[i]) by {
            lemma_found_is_leaf::<QNode, QBoard>(start, found[i]);
        }
        lemma_results_of_complete(found);
        lemma_search_finds_the_solutions(n as nat, start);
        assert forall|i: int| 0 <= i < boards@.len() implies is_solution(#[trigger] boards@[i]@)
            && boards@[i]@.len() == n by {
            assert(views(boards@)[i] == boards@[i]@);
            lemma_search_finds_the_solutions(n as nat, boards@[i]@);
        }
        assert forall|w: Seq<Option<usize>>| is_solution(w) && w.len() == n implies #[trigger] views(
            boards@,
        ).contains(w) by {
            lemma_search_finds_the_solutions(n as nat, w);
        }
    }
    Ok(boards)
}

} // verus!
