//! The search driver: a fixed number of select / simulate /
//! backpropagate cycles over one tree, then the robust-child answer.

use vstd::prelude::*;

use crate::board::Board;
use crate::monte_carlo::types::{SearchTree, EXPANSION_THRESHOLD};
use crate::rng::RngSource;
use crate::types::{Color, Coordinate};

verus! {

/// The iteration budget of a full search.
pub const DEFAULT_ITERATIONS: u32 = 1000;

/// Run `iterations` complete select / simulate / backpropagate cycles.
/// Afterwards the root's visit counter has grown by exactly
/// `iterations`: every cycle backpropagates to the root once. And as
/// long as the root has a move at all, every cycle credits exactly one
/// immediate root child, so their visit counters grow by `iterations`
/// in sum.
pub fn run_search(tree: &mut SearchTree, iterations: u32, rng: &mut RngSource)
    requires
        old(tree).wf(),
        old(tree).visits_bounded(),
        old(tree).nodes@[0].visits >= EXPANSION_THRESHOLD,
        old(tree).nodes@[0].visits + iterations <= u32::MAX,
    ensures
        final(tree).wf(),
        final(tree).visits_bounded(),
        final(tree).nodes@[0].visits == old(tree).nodes@[0].visits + iterations,
        final(tree).nodes@[0].board == old(tree).nodes@[0].board,
        final(tree).nodes@[0].turn == old(tree).nodes@[0].turn,
        final(tree).self_color == old(tree).self_color,
        iterations >= 1 && (old(tree).nodes@[0].untried_moves@.len() > 0 || old(
            tree,
        ).nodes@[0].children@.len() > 0) ==> final(tree).nodes@[0].children@.len() > 0,
        (old(tree).nodes@[0].untried_moves@.len() > 0 || old(tree).nodes@[0].children@.len() > 0)
            ==> final(tree).root_child_visit_sum(final(tree).nodes@[0].children@.len() as int)
            == old(tree).root_child_visit_sum(old(tree).nodes@[0].children@.len() as int)
            + iterations,
{
    let mut t: u32 = 0;
    while t < iterations
        invariant
            tree.wf(),
            tree.visits_bounded(),
            t <= iterations,
            tree.nodes@[0].visits == old(tree).nodes@[0].visits + t,
            old(tree).nodes@[0].visits >= EXPANSION_THRESHOLD,
            old(tree).nodes@[0].visits + iterations <= u32::MAX,
            tree.nodes@[0].board == old(tree).nodes@[0].board,
            tree.nodes@[0].turn == old(tree).nodes@[0].turn,
            tree.self_color == old(tree).self_color,
            t == 0 ==> tree.nodes@[0].untried_moves@.len() == old(
                tree,
            ).nodes@[0].untried_moves@.len() && tree.nodes@[0].children@.len() == old(
                tree,
            ).nodes@[0].children@.len(),
            t >= 1 && (old(tree).nodes@[0].untried_moves@.len() > 0 || old(
                tree,
            ).nodes@[0].children@.len() > 0) ==> tree.nodes@[0].children@.len() > 0,
            (old(tree).nodes@[0].untried_moves@.len() > 0 || old(tree).nodes@[0].children@.len()
                > 0) ==> tree.root_child_visit_sum(tree.nodes@[0].children@.len() as int) == old(
                tree,
            ).root_child_visit_sum(old(tree).nodes@[0].children@.len() as int) + t,
        decreases iterations - t,
    {
        t = t + 1;
        let ghost pre = *tree;
        let idx = tree.select(t, rng);
        let ghost mid = *tree;
        let ghost prem = old(tree).nodes@[0].untried_moves@.len() > 0 || old(
            tree,
        ).nodes@[0].children@.len() > 0;
        let ghost mut jstar: int = 0;
        proof {
            if prem {
                let path = choose|path: Seq<int>|
                    #[trigger] pre.select_path(path, t) && ({
                        let stop = path.last();
                        &&& 0 <= stop < pre.nodes@.len()
                        &&& if pre.nodes@[stop].visits < EXPANSION_THRESHOLD {
                            idx == stop && mid == pre
                        } else if pre.nodes@[stop].untried_moves@.len() > 0 {
                            idx == pre.nodes@.len() && SearchTree::expanded_from(
                                mid,
                                pre,
                                stop,
                                idx as int,
                            )
                        } else {
                            pre.nodes@[stop].children@.len() == 0 && idx == stop && mid == pre
                        }
                    });
                let stop = path.last();
                // the stop node is never the root: the root is past the
                // threshold, and under the premise it is never terminal
                assert(pre.nodes@[0].visits >= EXPANSION_THRESHOLD);
                let mlen = mid.nodes@[0].children@.len() as int;
                let plen = pre.nodes@[0].children@.len() as int;
                if pre.nodes@[stop].visits >= EXPANSION_THRESHOLD && pre.nodes@[
                    stop].untried_moves@.len() > 0 && stop == 0 {
                    // expansion at the root: the fresh child is the one
                    // root child on the chain of idx
                    assert(SearchTree::expanded_from(mid, pre, 0, idx as int));
                    assert(mid.nodes@[0].children@ == pre.nodes@[0].children@.push(
                        (pre.nodes@[0].untried_moves@.last(), idx),
                    ));
                    jstar = plen;
                    assert(mid.nodes@[0].children@[jstar].1 == idx);
                    assert(mid.on_path(idx as int, mid.nodes@[0].children@[jstar].1 as int));
                    // the new child holds zero visits, so the sum is kept
                    assert forall|j: int|
                        0 <= j < plen implies #[trigger] mid.root_child_visits(j)
                        == pre.root_child_visits(j) by {
                        assert(mid.nodes@[0].children@[j] == pre.nodes@[0].children@[j]);
                        assert(pre.node_wf(0));
                    }
                    SearchTree::lemma_sum_congruent(pre, mid, plen);
                    assert(mid.root_child_visit_sum(mlen) == mid.root_child_visit_sum(plen)
                        + mid.root_child_visits(plen));
                    assert(mid.root_child_visits(plen) == 0);
                } else {
                    // the stop lies strictly below the root, so the path
                    // has a second node: a root child on the chain of idx
                    assert(stop != 0) by {
                        if stop == 0 {
                            assert(pre.nodes@[0].untried_moves@.len() == 0 && pre.nodes@[
                            0].children@.len() == 0);
                        }
                    }
                    assert(path.len() >= 2);
                    assert(path[0] == 0);
                    assert(pre.descends_to(path[0], path[0int + 1], t));
                    assert(path[0int + 1] == path[1]);
                    let j0 = choose|j0: int|
                        #[trigger] pre.is_best_child(0, j0, t) && pre.nodes@[0].children@[j0].1
                            == path[1];
                    jstar = j0;
                    assert(pre.node_wf(0));
                    pre.lemma_select_path_on_path(path, t, 1, path.len() - 1);
                    assert(pre.on_path(stop, path[1]));
                    // the select step left the root's children untouched
                    if pre.nodes@[stop].visits >= EXPANSION_THRESHOLD && pre.nodes@[
                        stop].untried_moves@.len() > 0 {
                        assert(SearchTree::expanded_from(mid, pre, stop, idx as int));
                        assert(mid.nodes@[0].children == pre.nodes@[0].children);
                        assert forall|n: int|
                            0 <= n <= stop implies (#[trigger] mid.nodes@[n]).parent
                            == pre.nodes@[n].parent by {}
                        SearchTree::lemma_on_path_transfer(pre, mid, stop, path[1]);
                        assert(mid.on_path(stop, path[1]));
                        assert(mid.nodes@[idx as int].parent == Some(stop as usize));
                        assert(0 <= path[1] < pre.nodes@.len());
                        assert(mid.on_path(idx as int, path[1]));
                    } else {
                        assert(mid == pre);
                        assert(mid.on_path(idx as int, path[1]));
                    }
                    assert(mid.nodes@[0].children@[jstar].1 == path[1]);
                    assert(mid.on_path(idx as int, mid.nodes@[0].children@[jstar].1 as int));
                    assert forall|j: int|
                        0 <= j < mlen implies #[trigger] mid.root_child_visits(j)
                        == pre.root_child_visits(j) by {
                        assert(pre.node_wf(0));
                    }
                    SearchTree::lemma_sum_congruent(pre, mid, mlen);
                }
                assert(0 <= jstar < mlen);
                assert(mid.root_child_visit_sum(mlen) == pre.root_child_visit_sum(plen));
            }
        }
        let winner = tree.simulate(idx, rng);
        tree.backpropagate(idx, winner);
        proof {
            if prem {
                let mlen = mid.nodes@[0].children@.len() as int;
                assert(tree.nodes@[0].children == mid.nodes@[0].children);
                assert forall|j: int|
                    0 <= j < mlen implies #[trigger] tree.root_child_visits(j) as int
                    == mid.root_child_visits(j) + (if j == jstar {
                    1int
                } else {
                    0int
                }) by {
                    assert(mid.node_wf(0));
                    let cj = mid.nodes@[0].children@[j].1 as int;
                    if j == jstar {
                        assert(mid.on_path(idx as int, cj));
                    } else {
                        if mid.on_path(idx as int, cj) {
                            mid.lemma_root_child_on_chain_unique(idx as int, jstar, j);
                        }
                        assert(!mid.on_path(idx as int, cj));
                        assert(tree.nodes@[cj] == mid.nodes@[cj]);
                    }
                }
                SearchTree::lemma_sum_one_more(mid, *tree, jstar, mlen);
            }
        }
    }
}

/// Build a fresh tree rooted at `board` with `color` to move and run
/// the full search; the answer is the most-visited root child's move,
/// which is always a legal move of `board` for `color`.
pub fn get_best_move(board: &Board, color: Color, iterations: u32, rng: &mut RngSource) -> (mv:
    Coordinate)
    requires
        board.wf(),
        board.has_any_move(color),
        1 <= iterations,
        iterations <= u32::MAX - EXPANSION_THRESHOLD - 1,
    ensures
        mv.x < 8,
        mv.y < 8,
        board.spec_valid_move(color, mv.x as int, mv.y as int),
        exists|t: SearchTree|
            #[trigger] t.wf() && t.nodes@[0].board == *board && t.nodes@[0].turn == color
                && t.self_color == color && t.nodes@[0].visits == EXPANSION_THRESHOLD + 1
                + iterations && t.nodes@[0].children@.len() > 0 && t.root_child_visit_sum(
                t.nodes@[0].children@.len() as int,
            ) == iterations && (exists|j: int|
                {
                    &&& 0 <= j < t.nodes@[0].children@.len()
                    &&& mv.x == (#[trigger] t.nodes@[0].children@[j]).0 % 8
                    &&& mv.y == t.nodes@[0].children@[j].0 / 8
                    &&& forall|k: int|
                        0 <= k < t.nodes@[0].children@.len() ==> t.root_child_visits(k)
                            <= t.root_child_visits(j)
                    &&& forall|k: int| 0 <= k < j ==> t.root_child_visits(k) < t.root_child_visits(j)
                }),
{
    let mut tree = SearchTree::new(*board, color, rng);
    run_search(&mut tree, iterations, rng);
    let mv = tree.best_move();
    proof {
        assert(tree.wf() && tree.nodes@[0].board == *board && tree.nodes@[0].turn == color
            && tree.self_color == color && tree.nodes@[0].visits == EXPANSION_THRESHOLD + 1
            + iterations && tree.nodes@[0].children@.len() > 0);
        assert(tree.root_child_visit_sum(tree.nodes@[0].children@.len() as int) == iterations);
    }
    mv
}

} // verus!
