//! The search tree of the Monte Carlo engine. Nodes live in an arena
//! (`SearchTree::nodes`); a node names its parent and its children by
//! index, children always have larger indices than their parent, and
//! backpropagation walks parent indices upward. Selection descends by
//! the UCB1 rule computed in fixed point (`numeric`); ties are broken
//! deterministically in favor of the earliest-registered child.

use vstd::prelude::*;

use crate::board::{
    legal_cells, lemma_count_total_bound, lemma_legal_cells_upto_props, lemma_move_piece_counts,
    play_reachable, play_step, spec_winner_of, Board,
};
use crate::monte_carlo::numeric::{ln_fp, ln_fp_exec, isqrt, sqrt_floor};
use crate::rng::RngSource;
use crate::types::{Color, Coordinate};

verus! {

/// A board cell packed into one byte: `y * 8 + x`.
pub type LightCoord = u8;

/// A node must gather this many simulations of its own before its
/// children are compared by UCB1.
pub const EXPANSION_THRESHOLD: u32 = 10;

/// Pack a coordinate into its cell index.
pub fn coord_to_light(coord: Coordinate) -> (l: LightCoord)
    requires
        coord.x < 8,
        coord.y < 8,
    ensures
        l == coord.y * 8 + coord.x,
{
    (coord.y * 8 + coord.x) as LightCoord
}

/// Unpack a cell index into its coordinate.
pub fn light_to_coord(light: LightCoord) -> (c: Coordinate)
    ensures
        c.x == light % 8,
        c.y == light / 8,
        light < 64 ==> c.x < 8 && c.y < 8,
{
    Coordinate { x: (light % 8) as u32, y: (light / 8) as u32 }
}

/// True when `l` names a cell on which `t` may legally place on `b`.
pub open spec fn light_valid(b: Board, t: Color, l: LightCoord) -> bool {
    l < 64 && b.spec_valid_move(t, l as int % 8, l as int / 8)
}

/// The UCB1 score of a node, in fixed point scaled by 2^16: `None`
/// stands for positive infinity (an unvisited node), otherwise
/// exploitation `(2*wins + draws) / (2*visits)` plus exploration
/// `sqrt(2 * ln(total_visits) / visits)`.
pub open spec fn ucb1_spec(wins: u32, draws: u32, visits: u32, total: u32) -> Option<int> {
    if visits == 0 {
        None
    } else {
        Some(
            ((2 * wins + draws) * 65536) / (2 * visits) + sqrt_floor(
                (2 * ln_fp(total as int) * 65536) / (visits as int),
            ),
        )
    }
}

/// Strict order on UCB1 scores, with `None` as positive infinity.
pub open spec fn ucb1_lt(a: Option<int>, b: Option<int>) -> bool {
    match (a, b) {
        (Option::Some(_), Option::None) => true,
        (Option::Some(x), Option::Some(y)) => x < y,
        (Option::None, _) => false,
    }
}

/// The UCB1 score as the engine computes it; exactly `ucb1_spec`.
pub fn ucb1_value(wins: u32, draws: u32, visits: u32, total: u32) -> (r: Option<u64>)
    requires
        wins + draws <= visits,
        total >= 1,
    ensures
        r is Some <==> visits != 0,
        r is Some ==> r.unwrap() as int == ucb1_spec(wins, draws, visits, total).unwrap(),
{
    if visits == 0 {
        return None;
    }
    let lnfp = ln_fp_exec(total);
    let num: u64 = 2 * lnfp * 65536;
    let expl_sq: u64 = num / (visits as u64);
    proof {
        vstd::arithmetic::div_mod::lemma_div_nonincreasing(num as int, visits as int);
    }
    let expl = isqrt(expl_sq);
    proof {
        crate::monte_carlo::numeric::lemma_sqrt_floor_bounds(expl_sq as int);
        assert(expl < 0x10_0000) by (nonlinear_arith)
            requires
                expl as int * expl as int <= expl_sq,
                expl_sq < 0x100_0000_0000,
                expl >= 0,
        ;
        let e2 = ((2 * wins + draws) as int) * 65536;
        assert(e2 <= ((2 * visits) as int) * 65536);
        vstd::arithmetic::div_mod::lemma_multiply_divide_le(e2, (2 * visits) as int, 65536);
    }
    let exploit: u64 = ((2 * (wins as u64) + (draws as u64)) * 65536) / (2 * (visits as u64));
    Some(exploit + expl)
}

/// One explored position: the board after the move that reached it, the
/// color to move there, the rollout statistics, and the tree links.
pub struct Node {
    pub wins: u32,
    pub visits: u32,
    pub draws: u32,
    pub board: Board,
    pub turn: Color,
    pub children: Vec<(LightCoord, usize)>,
    pub parent: Option<usize>,
    pub untried_moves: Vec<LightCoord>,
    pub depth: usize,
}

impl Node {
    /// A fresh node: statistics at zero (the root starts past the
    /// expansion threshold so the first selection expands it), and the
    /// legal moves of the position shuffled once into `untried_moves`.
    pub fn new(
        board: Board,
        turn: Color,
        parent: Option<usize>,
        depth: usize,
        rng: &mut RngSource,
    ) -> (n: Node)
        requires
            board.wf(),
        ensures
            n.board == board,
            n.turn == turn,
            n.parent == parent,
            n.depth == depth,
            n.wins == 0,
            n.draws == 0,
            n.visits == if parent is None {
                (EXPANSION_THRESHOLD + 1) as u32
            } else {
                0u32
            },
            n.children@.len() == 0,
            forall|j: int|
                0 <= j < n.untried_moves@.len() ==> light_valid(
                    board,
                    turn,
                    #[trigger] n.untried_moves@[j],
                ),
            n.untried_moves@.len() > 0 <==> board.has_any_move(turn),
            n.untried_moves@.to_multiset() == legal_cells(board, turn).to_multiset(),
            n.untried_moves@.no_duplicates(),
    {
        let vm = board.valid_moves(turn);
        let mut lights: Vec<LightCoord> = Vec::new();
        let mut i: usize = 0;
        while i < vm.len()
            invariant
                i <= vm@.len(),
                lights@.len() == i,
                forall|j: int|
                    0 <= j < vm@.len() ==> (#[trigger] vm@[j]).x < 8 && vm@[j].y < 8
                        && board.spec_valid_move(turn, vm@[j].x as int, vm@[j].y as int),
                forall|j: int|
                    0 <= j < i ==> light_valid(board, turn, #[trigger] lights@[j]),
                vm@.len() == legal_cells(board, turn).len(),
                forall|j: int|
                    0 <= j < vm@.len() ==> (#[trigger] vm@[j]).y * 8 + vm@[j].x == legal_cells(
                        board,
                        turn,
                    )[j],
                forall|j: int| 0 <= j < i ==> #[trigger] lights@[j] == legal_cells(board, turn)[j],
            decreases vm@.len() - i,
        {
            let c = vm[i];
            let l = coord_to_light(c);
            proof {
                assert(c == vm@[i as int]);
                assert(c.y * 8 + c.x == legal_cells(board, turn)[i as int]);
                assert(l == legal_cells(board, turn)[i as int]);
            }
            lights.push(l);
            i = i + 1;
        }
        let ghost before = lights@;
        proof {
            assert(before =~= legal_cells(board, turn));
            lemma_legal_cells_upto_props(board, turn, 64);
            assert forall|a: int, b: int|
                0 <= a < before.len() && 0 <= b < before.len() && a != b implies before[a]
                != before[b] by {
                if a < b {
                    assert(legal_cells(board, turn)[a] < legal_cells(board, turn)[b]);
                } else {
                    assert(legal_cells(board, turn)[b] < legal_cells(board, turn)[a]);
                }
            }
            assert(before.no_duplicates());
            before.lemma_multiset_has_no_duplicates();
        }
        rng.shuffle(&mut lights);
        proof {
            before.to_multiset_ensures();
            lights@.to_multiset_ensures();
            assert forall|j: int|
                0 <= j < lights@.len() implies light_valid(
                board,
                turn,
                #[trigger] lights@[j],
            ) by {
                assert(lights@.contains(lights@[j]));
                assert(lights@.to_multiset().count(lights@[j]) > 0);
                assert(before.contains(lights@[j]));
                let k = choose|k: int| 0 <= k < before.len() && before[k] == lights@[j];
                assert(light_valid(board, turn, before[k]));
            }
            assert forall|x: u8|
                lights@.to_multiset().contains(x) implies lights@.to_multiset().count(x) == 1 by {
                assert(before.to_multiset().count(x) == lights@.to_multiset().count(x));
            }
            lights@.lemma_multiset_has_no_duplicates_conv();
        }
        let visits: u32 = if parent.is_none() {
            EXPANSION_THRESHOLD + 1
        } else {
            0
        };
        Node {
            wins: 0,
            visits,
            draws: 0,
            board,
            turn,
            children: Vec::new(),
            parent,
            untried_moves: lights,
            depth,
        }
    }
}

/// The search tree: an arena of nodes whose root is index 0, plus the
/// color the whole search is run for (fixed at construction).
pub struct SearchTree {
    pub nodes: Vec<Node>,
    pub self_color: Color,
}

impl SearchTree {
    /// Well-formedness of one node: its board invariant, the link
    /// discipline (the root alone has no parent; parents precede
    /// children), and that untried moves and children keys are legal
    /// moves of the node's own position.
    pub open spec fn node_wf(self, i: int) -> bool {
        let n = self.nodes@[i];
        &&& n.board.wf()
        &&& (n.parent is None <==> i == 0)
        &&& (n.parent is Some ==> 0 <= n.parent.unwrap() < i)
        &&& n.depth <= i
        &&& n.wins + n.draws <= n.visits
        &&& forall|j: int|
            0 <= j < n.children@.len() ==> i < (#[trigger] n.children@[j]).1 < self.nodes@.len()
        &&& forall|j: int|
            0 <= j < n.children@.len() ==> light_valid(n.board, n.turn, (#[trigger] n.children@[j]).0)
        &&& forall|j: int|
            0 <= j < n.untried_moves@.len() ==> light_valid(
                n.board,
                n.turn,
                #[trigger] n.untried_moves@[j],
            )
        &&& forall|j: int, k: int|
            0 <= j < k < n.children@.len() ==> (#[trigger] n.children@[j]).0 != (
            #[trigger] n.children@[k]).0
        &&& forall|j: int, k: int|
            0 <= j < k < n.children@.len() ==> (#[trigger] n.children@[j]).1 != (
            #[trigger] n.children@[k]).1
        &&& forall|j: int|
            0 <= j < n.children@.len() ==> self.nodes@[(#[trigger] n.children@[j]).1 as int].parent
                == Some(i as usize)
        &&& n.untried_moves@.no_duplicates()
        &&& forall|j: int, k: int|
            0 <= j < n.untried_moves@.len() && 0 <= k < n.children@.len() ==> (
            #[trigger] n.untried_moves@[j]) != (#[trigger] n.children@[k]).0
    }

    /// The whole arena is well-formed.
    pub open spec fn wf(self) -> bool {
        &&& self.nodes@.len() >= 1
        &&& forall|i: int| 0 <= i < self.nodes@.len() ==> #[trigger] self.node_wf(i)
    }

    /// No node was visited more often than the root.
    pub open spec fn visits_bounded(self) -> bool {
        forall|i: int|
            0 <= i < self.nodes@.len() ==> (#[trigger] self.nodes@[i]).visits
                <= self.nodes@[0].visits
    }

    /// The UCB1 score of the `j`-th child of node `cur`.
    pub open spec fn child_score(self, cur: int, j: int, total: u32) -> Option<int> {
        let c = self.nodes@[cur].children@[j].1 as int;
        ucb1_spec(self.nodes@[c].wins, self.nodes@[c].draws, self.nodes@[c].visits, total)
    }

    /// The visit count of the `j`-th child of the root.
    pub open spec fn root_child_visits(self, j: int) -> u32 {
        self.nodes@[self.nodes@[0].children@[j].1 as int].visits
    }

    /// True when `i` lies on the parent chain from `from` up to the
    /// root, both ends included.
    pub open spec fn on_path(self, from: int, i: int) -> bool
        decreases from,
    {
        if i == from {
            true
        } else {
            match self.nodes@[from].parent {
                Some(p) => if 0 <= p < from {
                    self.on_path(p as int, i)
                } else {
                    false
                },
                None => false,
            }
        }
    }

    /// `j` is the child of `p` that the UCB1 rule picks: no child scores
    /// higher, and every earlier-registered child scores strictly lower
    /// (the deterministic tie-break).
    pub open spec fn is_best_child(self, p: int, j: int, total: u32) -> bool {
        &&& 0 <= j < self.nodes@[p].children@.len()
        &&& forall|k: int|
            0 <= k < self.nodes@[p].children@.len() ==> !ucb1_lt(
                self.child_score(p, j, total),
                #[trigger] self.child_score(p, k, total),
            )
        &&& forall|k: int|
            0 <= k < j ==> ucb1_lt(
                #[trigger] self.child_score(p, k, total),
                self.child_score(p, j, total),
            )
    }

    /// The descent step of selection: from a fully-simulated node with
    /// no untried move left into its UCB1-best child.
    pub open spec fn descends_to(self, p: int, c: int, total: u32) -> bool {
        &&& 0 <= p < self.nodes@.len()
        &&& self.nodes@[p].visits >= EXPANSION_THRESHOLD
        &&& self.nodes@[p].untried_moves@.len() == 0
        &&& exists|j: int|
            #[trigger] self.is_best_child(p, j, total) && self.nodes@[p].children@[j].1 == c
    }

    /// A selection path: it starts at the root and every step enters the
    /// UCB1-best child of a fully-simulated, fully-expanded node.
    pub open spec fn select_path(self, path: Seq<int>, total: u32) -> bool {
        &&& path.len() >= 1
        &&& path[0] == 0
        &&& forall|i: int|
            0 <= i < path.len() - 1 ==> #[trigger] self.descends_to(path[i], path[i + 1], total)
    }

    /// `post` is `pre` with one child expanded at node `p`: the tail of
    /// `p`'s pre-shuffled untried moves is popped and applied to `p`'s
    /// board, the fresh child (index `c`, statistics zero, one level
    /// deeper) is appended and registered under the popped move, the
    /// child's turn follows the turn-skip rule, and every other node is
    /// unchanged.
    pub open spec fn expanded_from(post: SearchTree, pre: SearchTree, p: int, c: int) -> bool {
        let pn = pre.nodes@[p];
        let mv = pn.untried_moves@.last();
        let cn = post.nodes@[c];
        let fx = mv as int % 8;
        let fy = mv as int / 8;
        &&& 0 <= p < pre.nodes@.len()
        &&& c == pre.nodes@.len()
        &&& pn.untried_moves@.len() > 0
        &&& post.nodes@.len() == pre.nodes@.len() + 1
        &&& post.self_color == pre.self_color
        &&& forall|i: int|
            0 <= i < pre.nodes@.len() ==> {
                let on = #[trigger] pre.nodes@[i];
                let nn = post.nodes@[i];
                nn.visits == on.visits && nn.wins == on.wins && nn.draws == on.draws && nn.board
                    == on.board && nn.turn == on.turn && nn.parent == on.parent && nn.depth
                    == on.depth
            }
        &&& forall|i: int|
            0 <= i < pre.nodes@.len() && i != p ==> (#[trigger] post.nodes@[i]).children
                == pre.nodes@[i].children && post.nodes@[i].untried_moves
                == pre.nodes@[i].untried_moves
        &&& post.nodes@[p].untried_moves@ == pn.untried_moves@.drop_last()
        &&& post.nodes@[p].children@ == pn.children@.push((mv, c as usize))
        &&& cn.parent == Some(p as usize)
        &&& cn.visits == 0
        &&& cn.wins == 0
        &&& cn.draws == 0
        &&& cn.depth == pn.depth + 1
        &&& cn.children@.len() == 0
        &&& cn.board == pn.board.spec_after_move(pn.turn, fx, fy)
        &&& cn.board.own_mask(pn.turn) == (pn.board.own_mask(pn.turn) | pn.board.spec_move_flips(
            pn.turn,
            fx,
            fy,
        )) | (1u64 << (mv as u64))
        &&& cn.board.opp_mask(pn.turn) == pn.board.opp_mask(pn.turn) & !pn.board.spec_move_flips(
            pn.turn,
            fx,
            fy,
        )
        &&& cn.turn == if cn.board.has_any_move(pn.turn.spec_opponent()) {
            pn.turn.spec_opponent()
        } else {
            pn.turn
        }
        &&& (cn.untried_moves@.len() > 0 <==> cn.board.has_any_move(cn.turn))
        &&& cn.untried_moves@.to_multiset() == legal_cells(cn.board, cn.turn).to_multiset()
    }

    /// A tree holding one fresh root for `board` with `turn` to move.
    pub fn new(board: Board, turn: Color, rng: &mut RngSource) -> (t: SearchTree)
        requires
            board.wf(),
        ensures
            t.wf(),
            t.visits_bounded(),
            t.nodes@.len() == 1,
            t.self_color == turn,
            t.nodes@[0].board == board,
            t.nodes@[0].turn == turn,
            t.nodes@[0].visits == EXPANSION_THRESHOLD + 1,
            t.nodes@[0].children@.len() == 0,
            t.nodes@[0].untried_moves@.len() > 0 <==> board.has_any_move(turn),
    {
        let root = Node::new(board, turn, None, 0, rng);
        let mut nodes: Vec<Node> = Vec::new();
        nodes.push(root);
        let t = SearchTree { nodes, self_color: turn };
        proof {
            assert(t.node_wf(0));
        }
        t
    }

    /// The number of nodes the search has explored.
    pub fn node_count(&self) -> (n: usize)
        ensures
            n == self.nodes@.len(),
    {
        self.nodes.len()
    }

    /// The root's visit counter.
    pub fn root_visits(&self) -> (v: u32)
        requires
            self.nodes@.len() >= 1,
        ensures
            v == self.nodes@[0].visits,
    {
        self.nodes[0].visits
    }

    /// Each root child's move key and visit count, in insertion order.
    pub fn root_child_stats(&self) -> (s: Vec<(LightCoord, u32)>)
        requires
            self.wf(),
        ensures
            s@.len() == self.nodes@[0].children@.len(),
            forall|j: int|
                0 <= j < s@.len() ==> (#[trigger] s@[j]).0 == self.nodes@[0].children@[j].0
                    && s@[j].1 == self.root_child_visits(j),
    {
        proof {
            assert(self.node_wf(0));
        }
        let mut s: Vec<(LightCoord, u32)> = Vec::new();
        let mut j: usize = 0;
        let n = self.nodes[0].children.len();
        while j < n
            invariant
                self.wf(),
                j <= n,
                n == self.nodes@[0].children@.len(),
                s@.len() == j,
                forall|k: int|
                    0 <= k < j ==> (#[trigger] s@[k]).0 == self.nodes@[0].children@[k].0 && s@[k].1
                        == self.root_child_visits(k),
            decreases n - j,
        {
            proof {
                assert(self.node_wf(0));
            }
            let (mv, ci) = self.nodes[0].children[j];
            let v = self.nodes[ci].visits;
            s.push((mv, v));
            j = j + 1;
        }
        s
    }

    /// The UCB1 score of node `i` under `total_visits` completed
    /// iterations; `None` is positive infinity.
    pub fn ucb1(&self, i: usize, total_visits: u32) -> (r: Option<u64>)
        requires
            self.wf(),
            i < self.nodes@.len(),
            total_visits >= 1,
        ensures
            r is Some <==> self.nodes@[i as int].visits != 0,
            r is Some ==> r.unwrap() as int == ucb1_spec(
                self.nodes@[i as int].wins,
                self.nodes@[i as int].draws,
                self.nodes@[i as int].visits,
                total_visits,
            ).unwrap(),
    {
        proof {
            assert(self.node_wf(i as int));
        }
        let n = &self.nodes[i];
        ucb1_value(n.wins, n.draws, n.visits, total_visits)
    }

    /// The child of `cur` with the highest UCB1 score; among equal
    /// scores the earliest-registered child wins.
    fn best_child(&self, cur: usize, total_visits: u32) -> (best: usize)
        requires
            self.wf(),
            cur < self.nodes@.len(),
            self.nodes@[cur as int].children@.len() > 0,
            total_visits >= 1,
        ensures
            cur < best < self.nodes@.len(),
            exists|j: int|
                #[trigger] self.is_best_child(cur as int, j, total_visits)
                    && self.nodes@[cur as int].children@[j].1 == best,
    {
        proof {
            assert(self.node_wf(cur as int));
        }
        let n_children = self.nodes[cur].children.len();
        let first = self.nodes[cur].children[0].1;
        let mut best: usize = first;
        let mut best_score: Option<u64> = self.ucb1(first, total_visits);
        let ghost mut bj: int = 0;
        let mut j: usize = 1;
        while j < n_children
            invariant
                self.wf(),
                cur < self.nodes@.len(),
                total_visits >= 1,
                n_children == self.nodes@[cur as int].children@.len(),
                1 <= j <= n_children,
                0 <= bj < j,
                (#[trigger] self.nodes@[cur as int].children@[bj]).1 == best,
                best_score is Some <==> self.nodes@[best as int].visits != 0,
                cur < best < self.nodes@.len(),
                best_score is Some ==> best_score.unwrap() as int == ucb1_spec(
                    self.nodes@[best as int].wins,
                    self.nodes@[best as int].draws,
                    self.nodes@[best as int].visits,
                    total_visits,
                ).unwrap(),
                forall|k: int|
                    0 <= k < j ==> !ucb1_lt(
                        self.child_score(cur as int, bj, total_visits),
                        self.child_score(cur as int, k, total_visits),
                    ),
                forall|k: int|
                    0 <= k < bj ==> ucb1_lt(
                        self.child_score(cur as int, k, total_visits),
                        self.child_score(cur as int, bj, total_visits),
                    ),
            decreases n_children - j,
        {
            proof {
                assert(self.node_wf(cur as int));
            }
            let ci = self.nodes[cur].children[j].1;
            let sc = self.ucb1(ci, total_visits);
            let better = match (&best_score, &sc) {
                (Option::Some(_), Option::None) => true,
                (Option::Some(b), Option::Some(c)) => *c > *b,
                (Option::None, _) => false,
            };
            proof {
                assert(better == ucb1_lt(
                    self.child_score(cur as int, bj, total_visits),
                    self.child_score(cur as int, j as int, total_visits),
                ));
            }
            if better {
                best = ci;
                best_score = sc;
                proof {
                    bj = j as int;
                }
            }
            j = j + 1;
        }
        proof {
            assert(self.is_best_child(cur as int, bj, total_visits));
        }
        best
    }

    /// Walk from the root: a node still below the expansion threshold is
    /// the simulation target itself; a node with untried moves expands
    /// one child; otherwise descend into the best child by UCB1 (or stop
    /// at a terminal node with no children).
    pub fn select(&mut self, total_visits: u32, rng: &mut RngSource) -> (idx: usize)
        requires
            old(self).wf(),
            total_visits >= 1,
        ensures
            final(self).wf(),
            idx < final(self).nodes@.len(),
            old(self).nodes@.len() <= final(self).nodes@.len() <= old(self).nodes@.len() + 1,
            final(self).self_color == old(self).self_color,
            forall|i: int|
                0 <= i < old(self).nodes@.len() ==> {
                    let on = #[trigger] old(self).nodes@[i];
                    let nn = final(self).nodes@[i];
                    nn.visits == on.visits && nn.wins == on.wins && nn.draws == on.draws
                        && nn.board == on.board && nn.turn == on.turn && nn.parent == on.parent
                },
            (old(self).nodes@[0].visits >= EXPANSION_THRESHOLD && (old(
                self,
            ).nodes@[0].untried_moves@.len() > 0 || old(self).nodes@[0].children@.len() > 0))
                ==> final(self).nodes@[0].children@.len() > 0,
            old(self).visits_bounded() ==> final(self).visits_bounded(),
            ({
                let n = final(self).nodes@[idx as int];
                n.visits < EXPANSION_THRESHOLD || n.visits == 0 || (n.untried_moves@.len() == 0
                    && n.children@.len() == 0)
            }),
            exists|path: Seq<int>|
                #[trigger] old(self).select_path(path, total_visits) && ({
                    let stop = path.last();
                    &&& 0 <= stop < old(self).nodes@.len()
                    &&& if old(self).nodes@[stop].visits < EXPANSION_THRESHOLD {
                        // still gathering simulations: the node itself, tree untouched
                        idx == stop && *final(self) == *old(self)
                    } else if old(self).nodes@[stop].untried_moves@.len() > 0 {
                        // room to grow: one child expanded at the stop node
                        idx == old(self).nodes@.len() && Self::expanded_from(
                            *final(self),
                            *old(self),
                            stop,
                            idx as int,
                        )
                    } else {
                        // terminal node with nothing to descend into
                        old(self).nodes@[stop].children@.len() == 0 && idx == stop && *final(self)
                            == *old(self)
                    }
                }),
    {
        let mut cur: usize = 0;
        let ghost mut path: Seq<int> = seq![0int];
        loop
            invariant
                self.wf(),
                total_visits >= 1,
                cur < self.nodes@.len(),
                *self == *old(self),
                cur > 0 ==> self.nodes@[0].children@.len() > 0,
                path.len() >= 1,
                path[0] == 0,
                path.last() == cur as int,
                forall|i: int|
                    0 <= i < path.len() - 1 ==> #[trigger] self.descends_to(
                        path[i],
                        path[i + 1],
                        total_visits,
                    ),
            decreases self.nodes@.len() - cur,
        {
            if self.nodes[cur].visits < EXPANSION_THRESHOLD {
                proof {
                    assert(old(self).select_path(path, total_visits));
                }
                return cur;
            }
            if self.nodes[cur].untried_moves.len() > 0 {
                let c = self.expand(cur, rng);
                proof {
                    assert(old(self).select_path(path, total_visits));
                }
                return c;
            }
            if self.nodes[cur].children.len() == 0 {
                proof {
                    assert(old(self).select_path(path, total_visits));
                }
                return cur;
            }
            let next = self.best_child(cur, total_visits);
            proof {
                assert(self.node_wf(cur as int));
                assert(self.descends_to(cur as int, next as int, total_visits));
                let ghost prev = path;
                path = path.push(next as int);
                assert forall|i: int|
                    0 <= i < path.len() - 1 implies #[trigger] self.descends_to(
                    path[i],
                    path[i + 1],
                    total_visits,
                ) by {
                    if i < prev.len() - 1 {
                        assert(path[i] == prev[i] && path[i + 1] == prev[i + 1]);
                    } else {
                        assert(path[i] == cur as int && path[i + 1] == next as int);
                    }
                }
            }
            cur = next;
        }
    }

    /// Pop the tail of the node's pre-shuffled untried moves, apply it
    /// to the node's board, and register the resulting child. The
    /// child's turn is the opponent, unless the opponent has no reply on
    /// the new board, in which case the same color moves again.
    pub fn expand(&mut self, idx: usize, rng: &mut RngSource) -> (child: usize)
        requires
            old(self).wf(),
            idx < old(self).nodes@.len(),
            old(self).nodes@[idx as int].untried_moves@.len() > 0,
        ensures
            final(self).wf(),
            child == old(self).nodes@.len(),
            Self::expanded_from(*final(self), *old(self), idx as int, child as int),
            old(self).visits_bounded() ==> final(self).visits_bounded(),
    {
        proof {
            assert(self.node_wf(idx as int));
        }
        let node_board = self.nodes[idx].board;
        let node_turn = self.nodes[idx].turn;
        let node_depth = self.nodes[idx].depth;
        let mv_opt = self.nodes[idx].untried_moves.pop();
        let mv = mv_opt.unwrap();
        proof {
            assert(light_valid(node_board, node_turn, mv));
        }
        let coord = light_to_coord(mv);
        let mut new_board = node_board;
        let r = new_board.move_piece(coord, node_turn);
        proof {
            assert(r is Ok);
            assert(cell_ix_of_light(mv) == mv as int) by {
                assert(mv as int / 8 * 8 + mv as int % 8 == mv as int);
            }
        }
        let opp = node_turn.opponent();
        let opp_moves = new_board.valid_moves(opp);
        let next_turn = if opp_moves.len() == 0 {
            node_turn
        } else {
            opp
        };
        let child = self.nodes.len();
        proof {
            assert(node_depth <= idx < child);
        }
        let child_node = Node::new(new_board, next_turn, Some(idx), node_depth + 1, rng);
        self.nodes.push(child_node);
        self.nodes[idx].children.push((mv, child));
        proof {
            assert forall|i: int| 0 <= i < self.nodes@.len() implies #[trigger] self.node_wf(
                i,
            ) by {
                assert(old(self).nodes@.len() >= 1);
                if i < old(self).nodes@.len() {
                    assert(old(self).node_wf(i));
                } else {
                    assert(i == child);
                }
            }
        }
        child
    }

    /// Every node of the parent chain lies at or below the chain's start.
    pub proof fn lemma_on_path_le(self, from: int, i: int)
        requires
            self.on_path(from, i),
        ensures
            i <= from,
        decreases from,
    {
        if i != from {
            match self.nodes@[from].parent {
                Some(q) => {
                    if 0 <= q < from {
                        self.lemma_on_path_le(q as int, i);
                    } else {
                        assert(!self.on_path(from, i));
                    }
                },
                None => {
                    assert(!self.on_path(from, i));
                },
            }
        }
    }

    /// Two nodes of one parent chain are chain-ordered between themselves.
    pub proof fn lemma_on_path_linear(self, a: int, b: int, c: int)
        requires
            self.on_path(a, b),
            self.on_path(a, c),
        ensures
            self.on_path(b, c) || self.on_path(c, b),
        decreases a,
    {
        if a != b && a != c {
            match self.nodes@[a].parent {
                Some(q) => {
                    if 0 <= q < a {
                        self.lemma_on_path_linear(q as int, b, c);
                    } else {
                        assert(!self.on_path(a, b));
                    }
                },
                None => {
                    assert(!self.on_path(a, b));
                },
            }
        }
    }

    /// Chains agree between trees whose parent links agree below the start.
    pub proof fn lemma_on_path_transfer(t1: SearchTree, t2: SearchTree, from: int, i: int)
        requires
            t1.on_path(from, i),
            forall|n: int| 0 <= n <= from ==> (#[trigger] t2.nodes@[n]).parent == t1.nodes@[n].parent,
        ensures
            t2.on_path(from, i),
        decreases from,
    {
        if i != from {
            match t1.nodes@[from].parent {
                Some(q) => {
                    if 0 <= q < from {
                        Self::lemma_on_path_transfer(t1, t2, q as int, i);
                    } else {
                        assert(!t1.on_path(from, i));
                    }
                },
                None => {
                    assert(!t1.on_path(from, i));
                },
            }
        }
    }

    /// Along a selection path, every earlier node lies on the parent
    /// chain of every later one.
    pub proof fn lemma_select_path_on_path(self, path: Seq<int>, total: u32, a: int, b: int)
        requires
            self.wf(),
            self.select_path(path, total),
            0 <= a <= b < path.len(),
        ensures
            self.on_path(path[b], path[a]),
        decreases b - a,
    {
        if a < b {
            self.lemma_select_path_on_path(path, total, a, b - 1);
            assert(self.descends_to(path[b - 1], path[b - 1 + 1], total));
            assert(path[b - 1 + 1] == path[b]);
            assert(self.descends_to(path[b - 1], path[b], total));
            let j = choose|j: int|
                #[trigger] self.is_best_child(path[b - 1], j, total) && self.nodes@[path[b
                    - 1]].children@[j].1 == path[b];
            assert(self.node_wf(path[b - 1]));
            assert(0 <= path[b - 1] < path[b] < self.nodes@.len());
            assert(self.nodes@[path[b]].parent == Some(path[b - 1] as usize));
            assert(self.on_path(path[b], path[a]));
        }
    }

    /// At most one immediate root child lies on any one parent chain.
    pub proof fn lemma_root_child_on_chain_unique(self, idx: int, j: int, k: int)
        requires
            self.wf(),
            0 <= j < self.nodes@[0].children@.len(),
            0 <= k < self.nodes@[0].children@.len(),
            self.on_path(idx, self.nodes@[0].children@[j].1 as int),
            self.on_path(idx, self.nodes@[0].children@[k].1 as int),
        ensures
            j == k,
    {
        if j != k {
            let cj = self.nodes@[0].children@[j].1 as int;
            let ck = self.nodes@[0].children@[k].1 as int;
            assert(self.node_wf(0));
            assert(cj != ck);
            assert(self.nodes@[cj].parent == Some(0usize));
            assert(self.nodes@[ck].parent == Some(0usize));
            assert(self.node_wf(cj) && self.node_wf(ck));
            self.lemma_on_path_linear(idx, cj, ck);
            if self.on_path(cj, ck) {
                assert(!self.on_path(0int, ck));
                assert(!self.on_path(cj, ck));
            } else {
                assert(!self.on_path(0int, cj));
                assert(!self.on_path(ck, cj));
            }
        }
    }

    /// Sum of the visit counters of the first `n` root children.
    pub open spec fn root_child_visit_sum(self, n: int) -> int
        decreases n,
    {
        if n <= 0 {
            0
        } else {
            self.root_child_visit_sum(n - 1) + self.root_child_visits(n - 1)
        }
    }

    /// Equal root-child visit counters give equal partial sums.
    pub proof fn lemma_sum_congruent(t1: SearchTree, t2: SearchTree, n: int)
        requires
            forall|j: int|
                0 <= j < n ==> #[trigger] t2.root_child_visits(j) == t1.root_child_visits(j),
        ensures
            t2.root_child_visit_sum(n) == t1.root_child_visit_sum(n),
        decreases n,
    {
        if n > 0 {
            Self::lemma_sum_congruent(t1, t2, n - 1);
        }
    }

    /// When exactly the `jstar`-th root child gained one visit, the
    /// partial sum past it grew by exactly one.
    pub proof fn lemma_sum_one_more(t1: SearchTree, t2: SearchTree, jstar: int, n: int)
        requires
            forall|j: int|
                0 <= j < n ==> #[trigger] t2.root_child_visits(j) == t1.root_child_visits(j) + (
                if j == jstar {
                    1int
                } else {
                    0int
                }),
        ensures
            t2.root_child_visit_sum(n) == t1.root_child_visit_sum(n) + (if 0 <= jstar < n {
                1int
            } else {
                0int
            }),
        decreases n,
    {
        if n > 0 {
            Self::lemma_sum_one_more(t1, t2, jstar, n - 1);
        }
    }

    /// Extending the parent chain: the parent of a chain node is on the
    /// chain as well.
    pub proof fn lemma_on_path_parent(self, from: int, mid: int, p: usize)
        requires
            self.on_path(from, mid),
            self.nodes@[mid].parent == Some(p),
            p < mid,
        ensures
            self.on_path(from, p as int),
        decreases from,
    {
        if from == mid {
            assert(self.on_path(p as int, p as int));
            assert(self.on_path(from, p as int));
        } else {
            match self.nodes@[from].parent {
                Some(q) => {
                    if 0 <= q < from {
                        self.lemma_on_path_parent(q as int, mid, p);
                        assert(self.on_path(from, p as int));
                    } else {
                        assert(!self.on_path(from, mid));
                    }
                },
                None => {
                    assert(!self.on_path(from, mid));
                },
            }
        }
    }

    /// Credit one simulation outcome along the path from `idx` up to the
    /// root: every node on the path gains a visit; a node whose `turn`
    /// differs from the winner gains a win (the mover who produced the
    /// position is the winner); a draw adds to `draws`.
    pub fn backpropagate(&mut self, idx: usize, winner: Option<Color>)
        requires
            old(self).wf(),
            old(self).visits_bounded(),
            idx < old(self).nodes@.len(),
            old(self).nodes@[0].visits < u32::MAX,
        ensures
            final(self).wf(),
            final(self).visits_bounded(),
            final(self).nodes@.len() == old(self).nodes@.len(),
            final(self).self_color == old(self).self_color,
            final(self).nodes@[0].visits == old(self).nodes@[0].visits + 1,
            forall|i: int|
                0 <= i < old(self).nodes@.len() ==> {
                    let on = #[trigger] old(self).nodes@[i];
                    let nn = final(self).nodes@[i];
                    nn.board == on.board && nn.turn == on.turn && nn.parent == on.parent
                        && nn.children == on.children && nn.untried_moves == on.untried_moves
                        && nn.depth == on.depth && on.visits <= nn.visits <= on.visits + 1
                },
            forall|i: int|
                0 <= i < old(self).nodes@.len() && old(self).on_path(idx as int, i) ==> {
                    let on = #[trigger] old(self).nodes@[i];
                    let nn = final(self).nodes@[i];
                    &&& nn.visits == on.visits + 1
                    &&& nn.wins == on.wins + (if winner is Some && winner.unwrap() != on.turn {
                        1int
                    } else {
                        0int
                    })
                    &&& nn.draws == on.draws + (if winner is None {
                        1int
                    } else {
                        0int
                    })
                },
            forall|i: int|
                0 <= i < old(self).nodes@.len() && !old(self).on_path(idx as int, i)
                    ==> #[trigger] final(self).nodes@[i] == old(self).nodes@[i],
    {
        let mut cur = idx;
        loop
            invariant_except_break
                old(self).wf(),
                old(self).visits_bounded(),
                old(self).nodes@[0].visits < u32::MAX,
                self.wf(),
                self.self_color == old(self).self_color,
                self.nodes@.len() == old(self).nodes@.len(),
                cur < self.nodes@.len(),
                idx < self.nodes@.len(),
                old(self).on_path(idx as int, cur as int),
                forall|i: int|
                    0 <= i <= cur ==> #[trigger] self.nodes@[i] == old(self).nodes@[i],
                forall|i: int|
                    0 <= i < self.nodes@.len() ==> {
                        let on = #[trigger] old(self).nodes@[i];
                        let nn = self.nodes@[i];
                        nn.board == on.board && nn.turn == on.turn && nn.parent == on.parent
                            && nn.children == on.children && nn.untried_moves == on.untried_moves
                            && nn.depth == on.depth && on.visits <= nn.visits <= on.visits + 1
                    },
                forall|i: int|
                    0 <= i < self.nodes@.len() && old(self).on_path(idx as int, i) && !old(
                        self,
                    ).on_path(cur as int, i) ==> {
                        let on = #[trigger] old(self).nodes@[i];
                        let nn = self.nodes@[i];
                        &&& nn.visits == on.visits + 1
                        &&& nn.wins == on.wins + (if winner is Some && winner.unwrap() != on.turn {
                            1int
                        } else {
                            0int
                        })
                        &&& nn.draws == on.draws + (if winner is None {
                            1int
                        } else {
                            0int
                        })
                    },
                forall|i: int|
                    0 <= i < self.nodes@.len() && !(old(self).on_path(idx as int, i) && !old(
                        self,
                    ).on_path(cur as int, i)) ==> #[trigger] self.nodes@[i] == old(self).nodes@[i],
            ensures
                self.wf(),
                self.self_color == old(self).self_color,
                self.nodes@.len() == old(self).nodes@.len(),
                self.nodes@[0].visits == old(self).nodes@[0].visits + 1,
                forall|i: int|
                    0 <= i < self.nodes@.len() ==> {
                        let on = #[trigger] old(self).nodes@[i];
                        let nn = self.nodes@[i];
                        nn.board == on.board && nn.turn == on.turn && nn.parent == on.parent
                            && nn.children == on.children && nn.untried_moves == on.untried_moves
                            && nn.depth == on.depth && on.visits <= nn.visits <= on.visits + 1
                    },
                forall|i: int|
                    0 <= i < self.nodes@.len() && old(self).on_path(idx as int, i) ==> {
                        let on = #[trigger] old(self).nodes@[i];
                        let nn = self.nodes@[i];
                        &&& nn.visits == on.visits + 1
                        &&& nn.wins == on.wins + (if winner is Some && winner.unwrap() != on.turn {
                            1int
                        } else {
                            0int
                        })
                        &&& nn.draws == on.draws + (if winner is None {
                            1int
                        } else {
                            0int
                        })
                    },
                forall|i: int|
                    0 <= i < self.nodes@.len() && !old(self).on_path(idx as int, i)
                        ==> #[trigger] self.nodes@[i] == old(self).nodes@[i],
            decreases cur,
        {
            proof {
                assert(self.node_wf(cur as int));
                assert(self.nodes@[cur as int] == old(self).nodes@[cur as int]);
                assert(old(self).nodes@[cur as int].visits <= old(self).nodes@[0].visits);
            }
            let ghost snap = *self;
            let v = self.nodes[cur].visits;
            self.nodes[cur].visits = v + 1;
            match winner {
                Some(wc) => {
                    if wc != self.nodes[cur].turn {
                        let w = self.nodes[cur].wins;
                        self.nodes[cur].wins = w + 1;
                    }
                },
                None => {
                    let dr = self.nodes[cur].draws;
                    self.nodes[cur].draws = dr + 1;
                },
            }
            proof {
                assert forall|i: int| 0 <= i < self.nodes@.len() implies #[trigger] self.node_wf(
                    i,
                ) by {
                    assert(snap.node_wf(i));
                    if i != cur {
                        assert(self.nodes@[i] == snap.nodes@[i]);
                    }
                }
            }
            let parent = self.nodes[cur].parent;
            match parent {
                Some(p) => {
                    proof {
                        let ghost c0 = cur as int;
                        assert(old(self).nodes@[c0].parent == Some(p));
                        assert(0 <= p < cur);
                        old(self).lemma_on_path_parent(idx as int, c0, p);
                        assert(!old(self).on_path(p as int, c0)) by {
                            if old(self).on_path(p as int, c0) {
                                old(self).lemma_on_path_le(p as int, c0);
                            }
                        }
                        assert forall|i: int| 0 <= i < self.nodes@.len() implies (
                        #[trigger] old(self).on_path(c0, i)) == (i == c0 || old(self).on_path(
                            p as int,
                            i,
                        )) by {}
                        assert forall|i: int| i != c0 && 0 <= i < self.nodes@.len() implies
                            self.nodes@[i] == snap.nodes@[i] by {}
                    }
                    cur = p;
                },
                None => {
                    proof {
                        assert(cur == 0);
                        assert(old(self).node_wf(0));
                        assert forall|i: int| 0 <= i < self.nodes@.len() implies (
                        #[trigger] old(self).on_path(0int, i)) == (i == 0) by {}
                        assert forall|i: int| i != 0 && 0 <= i < self.nodes@.len() implies
                            self.nodes@[i] == snap.nodes@[i] by {}
                    }
                    break;
                },
            }
        }
        proof {
            assert forall|i: int|
                0 <= i < self.nodes@.len() implies (#[trigger] self.nodes@[i]).visits
                <= self.nodes@[0].visits by {
                assert(old(self).nodes@[i].visits <= old(self).nodes@[0].visits);
            }
        }
    }

    /// Play uniformly random legal moves from the node's position,
    /// skipping a side with no move, until both sides pass; the winner
    /// is the side with more pieces, or no one on a tie. The outcome
    /// depends on the injected randomness; the tree itself is unchanged.
    pub fn simulate(&self, idx: usize, rng: &mut RngSource) -> (winner: Option<Color>)
        requires
            self.wf(),
            idx < self.nodes@.len(),
        ensures
            (!self.nodes@[idx as int].board.has_any_move(Color::Black) && !self.nodes@[
                idx as int].board.has_any_move(Color::White)) ==> winner == spec_winner_of(
                self.nodes@[idx as int].board,
            ),
            exists|b: Board, k: nat|
                {
                    &&& #[trigger] play_reachable(self.nodes@[idx as int].board, b, k)
                    &&& !b.has_any_move(Color::Black)
                    &&& !b.has_any_move(Color::White)
                    &&& winner == spec_winner_of(b)
                },
    {
        proof {
            assert(self.node_wf(idx as int));
        }
        let ghost start = self.nodes@[idx as int].board;
        let mut board = self.nodes[idx].board;
        let mut turn = self.nodes[idx].turn;
        let mut pass = false;
        let ghost mut steps: nat = 0;
        loop
            invariant_except_break
                board.wf(),
                play_reachable(start, board, steps),
                (!start.has_any_move(Color::Black) && !start.has_any_move(Color::White))
                    ==> board == start,
                pass ==> !board.has_any_move(turn.spec_opponent()),
            ensures
                board.wf(),
                play_reachable(start, board, steps),
                !board.has_any_move(Color::Black),
                !board.has_any_move(Color::White),
                (!start.has_any_move(Color::Black) && !start.has_any_move(Color::White))
                    ==> board == start,
            decreases
                    64 - crate::bits::count_bits(board.black_mask(), 64) - crate::bits::count_bits(
                        board.white_mask(),
                        64,
                    ),
                    (if pass {
                        0int
                    } else {
                        1int
                    }),
        {
            proof {
                lemma_count_total_bound(board);
            }
            let vm = board.valid_moves(turn);
            if vm.len() == 0 {
                if pass {
                    proof {
                        // both sides just passed: no color can move
                        assert(!board.has_any_move(turn));
                        assert(!board.has_any_move(turn.spec_opponent()));
                        assert(!board.has_any_move(Color::Black) && !board.has_any_move(
                            Color::White,
                        ));
                    }
                    break;
                }
                pass = true;
                turn = turn.opponent();
            } else {
                pass = false;
                let i = rng.index_below(vm.len());
                let coord = vm[i];
                let ghost pre = board;
                let r = board.move_piece(coord, turn);
                proof {
                    assert(r is Ok);
                    lemma_move_piece_counts(pre, turn, coord.x as int, coord.y as int);
                    assert(board == pre.spec_after_move(turn, coord.x as int, coord.y as int));
                    assert(play_step(pre, board));
                    assert(play_reachable(start, board, steps + 1)) by {
                        assert(play_reachable(start, pre, steps));
                    }
                    steps = steps + 1;
                }
                turn = turn.opponent();
            }
        }
        let (black_count, white_count) = board.count_pieces();
        proof {
            assert(black_count == crate::bits::count_bits(board.black_mask(), 64));
        }
        if black_count < white_count {
            proof {
                assert(spec_winner_of(board) == Some(Color::White));
            }
            Some(Color::White)
        } else if black_count == white_count {
            None
        } else {
            Some(Color::Black)
        }
    }

    /// The move of the root child with the most visits (the robust
    /// child); among equal counts the earliest-registered child wins.
    pub fn best_move(&self) -> (mv: Coordinate)
        requires
            self.wf(),
            self.nodes@[0].children@.len() > 0,
        ensures
            mv.x < 8,
            mv.y < 8,
            self.nodes@[0].board.spec_valid_move(self.nodes@[0].turn, mv.x as int, mv.y as int),
            exists|j: int|
                {
                    &&& 0 <= j < self.nodes@[0].children@.len()
                    &&& mv.x == (#[trigger] self.nodes@[0].children@[j]).0 % 8
                    &&& mv.y == self.nodes@[0].children@[j].0 / 8
                    &&& forall|k: int|
                        0 <= k < self.nodes@[0].children@.len() ==> self.root_child_visits(k)
                            <= self.root_child_visits(j)
                    &&& forall|k: int| 0 <= k < j ==> self.root_child_visits(k) < self.root_child_visits(j)
                },
    {
        proof {
            assert(self.node_wf(0));
        }
        let n_children = self.nodes[0].children.len();
        let (first_mv, first_ci) = self.nodes[0].children[0];
        let mut best_coord: LightCoord = first_mv;
        let mut best_visits: u32 = self.nodes[first_ci].visits;
        let ghost mut bj: int = 0;
        let mut j: usize = 1;
        while j < n_children
            invariant
                self.wf(),
                n_children == self.nodes@[0].children@.len(),
                1 <= j <= n_children,
                0 <= bj < j,
                best_coord == (#[trigger] self.nodes@[0].children@[bj]).0,
                best_visits == self.root_child_visits(bj),
                forall|k: int| 0 <= k < j ==> self.root_child_visits(k) <= self.root_child_visits(bj),
                forall|k: int| 0 <= k < bj ==> self.root_child_visits(k) < self.root_child_visits(bj),
            decreases n_children - j,
        {
            proof {
                assert(self.node_wf(0));
            }
            let (mv, ci) = self.nodes[0].children[j];
            let v = self.nodes[ci].visits;
            if best_visits < v {
                best_coord = mv;
                best_visits = v;
                proof {
                    bj = j as int;
                }
            }
            j = j + 1;
        }
        proof {
            assert(self.node_wf(0));
            assert(light_valid(self.nodes@[0].board, self.nodes@[0].turn, best_coord));
        }
        light_to_coord(best_coord)
    }
}

/// The cell index a packed coordinate stands for.
pub open spec fn cell_ix_of_light(l: LightCoord) -> int {
    crate::board::cell_ix(l as int % 8, l as int / 8)
}

/// The UCB1 score of an unvisited node is positive infinity (`None` in
/// the score order), and it outranks every sibling with at least one
/// visit, whatever that sibling's win and draw counts are.
pub proof fn lemma_unvisited_outranks_visited(
    w0: u32,
    d0: u32,
    w1: u32,
    d1: u32,
    v1: u32,
    total: u32,
)
    requires
        v1 > 0,
    ensures
        ucb1_spec(w0, d0, 0, total) is None,
        ucb1_lt(ucb1_spec(w1, d1, v1, total), ucb1_spec(w0, d0, 0, total)),
{
}

/// Whenever some child is unvisited, a child that is maximal under the
/// UCB1 order -- as the child `select` descends into is -- is itself
/// unvisited, regardless of its siblings' win rates. Child `k` of the
/// sequence has statistics `(wins, draws, visits) == stats[k]`.
pub proof fn lemma_unvisited_child_selected(stats: Seq<(u32, u32, u32)>, chosen: int, total: u32)
    requires
        0 <= chosen < stats.len(),
        forall|k: int|
            0 <= k < stats.len() ==> !ucb1_lt(
                ucb1_spec(stats[chosen].0, stats[chosen].1, stats[chosen].2, total),
                ucb1_spec((#[trigger] stats[k]).0, stats[k].1, stats[k].2, total),
            ),
        exists|k: int| 0 <= k < stats.len() && (#[trigger] stats[k]).2 == 0,
    ensures
        stats[chosen].2 == 0,
{
    let k = choose|k: int| 0 <= k < stats.len() && (#[trigger] stats[k]).2 == 0;
    assert(ucb1_spec(stats[k].0, stats[k].1, stats[k].2, total) is None);
    assert(!ucb1_lt(
        ucb1_spec(stats[chosen].0, stats[chosen].1, stats[chosen].2, total),
        ucb1_spec(stats[k].0, stats[k].1, stats[k].2, total),
    ));
}

} // verus!
