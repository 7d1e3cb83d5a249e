//! Monte Carlo tree search: a growing, statistics-bearing game tree held in
//! an arena of nodes addressed by stable indices, with UCT selection,
//! single-child expansion, uniform-random rollout, backpropagation, and root
//! advancement for tree reuse across real moves.

use vstd::prelude::*;

use crate::game::{fresh_game, step_next, step_verdict, Game, GameView, Move};
use crate::rng::{rand_below, rng_from_seed};
use crate::signals::Signals;
use crate::stones::Stone;
use crate::uct::{calculate_selection_criteria, uct_score};

verus! {

/// The mathematical model of one tree node.
#[verifier::ext_equal]
pub ghost struct NodeView {
    /// The game snapshot the node wraps.
    pub state: GameView,
    /// The children, each keyed by the move that produced it, holding the
    /// child's arena index.
    pub children: Seq<(Move, int)>,
    /// Cumulative win score in half-points: a win at this node counts two,
    /// a draw one.
    pub won: int,
    /// Visit count.
    pub total: int,
}

/// One node of the search tree: a game snapshot, the children keyed by
/// move, and the node's win and visit statistics.
pub struct Node {
    state: Game,
    children: Vec<(Move, usize)>,
    won: u64,
    total: u32,
}

impl View for Node {
    type V = NodeView;

    closed spec fn view(&self) -> NodeView {
        NodeView {
            state: self.state@,
            children: self.children@.map_values(|c: (Move, usize)| (c.0, c.1 as int)),
            won: self.won as int,
            total: self.total as int,
        }
    }
}

impl Node {
    /// Representation invariant of the held game.
    pub closed spec fn inv(self) -> bool {
        self.state.wf()
    }

    /// Builds a fresh, unvisited, childless node around a game snapshot.
    pub fn new(state: Game) -> (r: Node)
        requires
            state.wf(),
        ensures
            r.inv(),
            r@.state == state@,
            r@.children.len() == 0,
            r@.won == 0,
            r@.total == 0,
    {
        Node { state, children: Vec::new(), won: 0, total: 0 }
    }

    /// Assembles a node from explicit parts. The win score never exceeds
    /// two half-points per visit.
    pub fn from(state: Game, children: Vec<(Move, usize)>, won: u64, total: u32) -> (r: Node)
        requires
            state.wf(),
            won <= 2 * total,
        ensures
            r.inv(),
            r@.state == state@,
            r@.children == children@.map_values(|c: (Move, usize)| (c.0, c.1 as int)),
            r@.won == won,
            r@.total == total,
    {
        Node { state, children, won, total }
    }

    /// Whether the node has no children.
    pub fn is_leaf(&self) -> (r: bool)
        ensures
            r <==> self@.children.len() == 0,
    {
        self.children.len() == 0
    }

    /// Whether the wrapped game snapshot is terminal.
    pub fn is_over(&self) -> (r: bool)
        ensures
            r == self@.state.over,
    {
        self.state.is_over()
    }

    /// The node's win score in half-points.
    pub fn get_won(&self) -> (r: u64)
        ensures
            r == self@.won,
    {
        self.won
    }

    /// The node's visit count.
    pub fn get_total(&self) -> (r: u32)
        ensures
            r == self@.total,
    {
        self.total
    }

    /// A reference to the wrapped game snapshot.
    pub fn get_state(&self) -> (r: &Game)
        requires
            self.inv(),
        ensures
            r@ == self@.state,
            r.wf(),
    {
        &self.state
    }

    /// The node's children, as move and arena index pairs.
    pub fn get_children(&self) -> (r: &Vec<(Move, usize)>)
        ensures
            r@.map_values(|c: (Move, usize)| (c.0, c.1 as int)) == self@.children,
    {
        &self.children
    }

    /// Records a visit that ended in a win for this node's player to move.
    fn increment_won(&mut self)
        requires
            old(self)@.won <= 2 * old(self)@.total,
            old(self)@.total < u32::MAX,
        ensures
            final(self)@ == (NodeView {
                won: old(self)@.won + 2,
                total: old(self)@.total + 1,
                ..old(self)@
            }),
            final(self).inv() == old(self).inv(),
    {
        self.won = self.won + 2;
        self.increment_total();
    }

    /// Records a visit that ended in a draw.
    fn increment_draw(&mut self)
        requires
            old(self)@.won <= 2 * old(self)@.total,
            old(self)@.total < u32::MAX,
        ensures
            final(self)@ == (NodeView {
                won: old(self)@.won + 1,
                total: old(self)@.total + 1,
                ..old(self)@
            }),
            final(self).inv() == old(self).inv(),
    {
        self.won = self.won + 1;
        self.increment_total();
    }

    /// Records a visit that ended in a loss.
    fn increment_lost(&mut self)
        requires
            old(self)@.total < u32::MAX,
        ensures
            final(self)@ == (NodeView { total: old(self)@.total + 1, ..old(self)@ }),
            final(self).inv() == old(self).inv(),
    {
        self.increment_total();
    }

    /// Raises the visit count by one.
    fn increment_total(&mut self)
        requires
            old(self)@.total < u32::MAX,
        ensures
            final(self)@ == (NodeView { total: old(self)@.total + 1, ..old(self)@ }),
            final(self).inv() == old(self).inv(),
    {
        self.total = self.total + 1;
    }
}

/// The win increment, in half-points, that a rollout outcome contributes at
/// a node: two for a win of the node's player to move, one for a draw,
/// nothing for a loss.
pub open spec fn win_delta(winner: Option<Stone>, g: GameView) -> int {
    match winner {
        None => 1,
        Some(s) => if s == g.mover_stone() {
            2
        } else {
            0
        },
    }
}

/// Samples one legal move of the state uniformly at random; a move rejected
/// by the rules engine is resampled, a bounded number of times, after which
/// a pass is played. Returns the move together with the resulting state;
/// the move either committed or ended the game by a second pass.
fn generate_random_child(state: &Game, rng: &mut rand::rngs::StdRng) -> (r: (Move, Game))
    requires
        state.wf(),
        !state@.over,
    ensures
        r.1.wf(),
        r.1@ == step_next(state@, r.0),
        step_verdict(state@, r.0) == Ok::<(), Signals>(()) || step_verdict(state@, r.0)
            == Err::<(), Signals>(Signals::DoublePass),
{
    let player = state.get_current_player();
    let cases = state.available_cases(player);
    let mut attempts: usize = 0;
    while attempts < 32
        invariant
            state.wf(),
            !state@.over,
            cases@.len() >= 1,
        decreases 32 - attempts,
    {
        let k = rand_below(rng, cases.len());
        let mv = cases[k];
        let mut state_clone = state.duplicate();
        let result_step = state_clone.step(mv);
        match result_step {
            Ok(()) => {
                return (mv, state_clone);
            },
            Err(_) => {
                if state_clone.is_over() {
                    proof {
                        assert(state_clone@ == step_next(state@, mv));
                        assert(step_verdict(state@, mv) == Err::<(), Signals>(
                            Signals::DoublePass,
                        ));
                    }
                    return (mv, state_clone);
                }
            },
        }
        attempts = attempts + 1;
    }
    let mut state_clone = state.duplicate();
    let result_step = state_clone.step(None);
    proof {
        if result_step is Err {
            assert(step_verdict(state@, None) == Err::<(), Signals>(Signals::DoublePass));
        }
    }
    (None, state_clone)
}

/// Whether the sequence of moves `ms`, applied in order from `g`, leads to
/// `g2`, every move either committing or ending the game by a second pass.
pub open spec fn plays_to(g: GameView, ms: Seq<Move>, g2: GameView) -> bool
    decreases ms.len(),
{
    if ms.len() == 0 {
        g2 == g
    } else {
        &&& (step_verdict(g, ms[0]) == Ok::<(), Signals>(()) || step_verdict(g, ms[0])
            == Err::<(), Signals>(Signals::DoublePass))
        &&& plays_to(step_next(g, ms[0]), ms.drop_first(), g2)
    }
}

/// Whether `g2` is reachable from `g` by a finite sequence of moves, each
/// committing or ending the game by a second pass.
pub open spec fn reachable_by_steps(g: GameView, g2: GameView) -> bool {
    exists|ms: Seq<Move>| plays_to(g, ms, g2)
}

/// A play extends by one more accepted move.
proof fn lemma_plays_to_push(g: GameView, ms: Seq<Move>, g2: GameView, mv: Move)
    requires
        plays_to(g, ms, g2),
        step_verdict(g2, mv) == Ok::<(), Signals>(()) || step_verdict(g2, mv) == Err::<(
        ), Signals>(Signals::DoublePass),
    ensures
        plays_to(g, ms.push(mv), step_next(g2, mv)),
    decreases ms.len(),
{
    if ms.len() == 0 {
        let one = ms.push(mv);
        assert(one[0] == mv);
        assert(one.drop_first() =~= Seq::<Move>::empty());
        assert(g2 == g);
        assert(plays_to(step_next(g, mv), Seq::<Move>::empty(), step_next(g2, mv)));
        assert(plays_to(g, one, step_next(g2, mv)));
    } else {
        assert(ms.push(mv)[0] == ms[0]);
        assert(ms.push(mv).drop_first() =~= ms.drop_first().push(mv));
        lemma_plays_to_push(step_next(g, ms[0]), ms.drop_first(), g2, mv);
        assert(plays_to(step_next(g, ms[0]), ms.push(mv).drop_first(), step_next(g2, mv)));
        assert(plays_to(g, ms.push(mv), step_next(g2, mv)));
    }
}

/// Reachability is reflexive.
proof fn lemma_reachable_refl(g: GameView)
    ensures
        reachable_by_steps(g, g),
{
    assert(plays_to(g, Seq::<Move>::empty(), g));
}

/// Reachability extends across one more accepted move.
proof fn lemma_reachable_step(g: GameView, g2: GameView, mv: Move)
    requires
        reachable_by_steps(g, g2),
        step_verdict(g2, mv) == Ok::<(), Signals>(()) || step_verdict(g2, mv) == Err::<(
        ), Signals>(Signals::DoublePass),
    ensures
        reachable_by_steps(g, step_next(g2, mv)),
{
    let ms = choose|ms: Seq<Move>| plays_to(g, ms, g2);
    lemma_plays_to_push(g, ms, g2, mv);
}

/// A uniformly random play-out from the state to a terminal state (with a
/// generous cap on its length, after which the game is closed by passes);
/// the outcome is the winning colour by area scoring, or nothing on a draw.
pub fn simulate_rollout(state: &Game, rng: &mut rand::rngs::StdRng) -> (r: Option<Stone>)
    requires
        state.wf(),
    ensures
        r matches Some(s) ==> s.is_color() && (s == state@.players.0 || s == state@.players.1),
        state@.over ==> r == state@.winner_stone(),
        exists|g2: GameView|
            #![auto]
            reachable_by_steps(state@, g2) && g2.over && r == g2.winner_stone(),
{
    let mut current = state.duplicate();
    proof {
        lemma_reachable_refl(state@);
    }
    let mut fuel: usize = 512;
    while fuel > 0 && !current.is_over()
        invariant
            current.wf(),
            current@.players == state@.players,
            reachable_by_steps(state@, current@),
            state@.over ==> current@ == state@,
        decreases fuel,
    {
        let (mv, next) = generate_random_child(&current, rng);
        proof {
            lemma_reachable_step(state@, current@, mv);
        }
        current = next;
        fuel = fuel - 1;
    }
    if !current.is_over() {
        let ghost before = current@;
        let _ = current.step(None);
        proof {
            lemma_reachable_step(state@, before, None);
        }
        if !current.is_over() {
            let ghost before2 = current@;
            let _ = current.step(None);
            proof {
                lemma_reachable_step(state@, before2, None);
            }
        }
    }
    proof {
        assert(current@.over);
    }
    current.winner()
}

/// The mathematical model of the search tree.
#[verifier::ext_equal]
pub ghost struct TreeView {
    /// The arena of nodes; children address their entries by index.
    pub nodes: Seq<NodeView>,
    /// Index of the current root.
    pub root: int,
    /// Number of search steps performed over the arena's lifetime; every
    /// node's visit count stays below it.
    pub steps: int,
}

/// Whether node `c` is listed among the children of node `p`.
pub open spec fn is_child_of(t: TreeView, c: int, p: int) -> bool {
    exists|k: int| 0 <= k < t.nodes[p].children.len() && (#[trigger] t.nodes[p].children[k]).1 == c
}

/// Well-formedness of the tree model: the root and all child indices lie in
/// the arena; a child's index is strictly greater than its parent's, so the
/// structure is acyclic; every game snapshot is well-formed; each child's
/// snapshot arises from its parent's by the child's move, which was either
/// committed or ended the game by a second pass; a terminal snapshot is
/// never expanded; and no node's win score exceeds two half-points per
/// visit, nor its visit count the tree's step count.
pub open spec fn tree_view_wf(t: TreeView) -> bool {
    &&& 0 <= t.root < t.nodes.len()
    &&& forall|i: int| 0 <= i < t.nodes.len() ==> (#[trigger] t.nodes[i]).state.wf()
    &&& forall|i: int, k: int|
        0 <= i < t.nodes.len() && 0 <= k < t.nodes[i].children.len() ==> i < (
        #[trigger] t.nodes[i].children[k]).1 < t.nodes.len()
    &&& forall|i: int, k: int|
        0 <= i < t.nodes.len() && 0 <= k < t.nodes[i].children.len() ==> {
            let mv = (#[trigger] t.nodes[i].children[k]).0;
            let c = t.nodes[i].children[k].1;
            &&& t.nodes[c].state == step_next(t.nodes[i].state, mv)
            &&& (step_verdict(t.nodes[i].state, mv) == Ok::<(), Signals>(()) || step_verdict(
                t.nodes[i].state,
                mv,
            ) == Err::<(), Signals>(Signals::DoublePass))
        }
    &&& forall|i: int|
        0 <= i < t.nodes.len() ==> ((#[trigger] t.nodes[i]).state.over ==> t.nodes[i].children.len()
            == 0)
    &&& forall|i: int|
        0 <= i < t.nodes.len() ==> 0 <= (#[trigger] t.nodes[i]).won <= 2 * t.nodes[i].total
    &&& forall|i: int| 0 <= i < t.nodes.len() ==> 0 <= (#[trigger] t.nodes[i]).total <= t.steps
    &&& 0 <= t.steps <= u32::MAX
}

/// The search tree: an arena of nodes and the index of the current root.
/// The root is replaced, never mutated in place, when advancing past a real
/// move.
pub struct Tree {
    nodes: Vec<Node>,
    root: usize,
    steps: u32,
}

impl View for Tree {
    type V = TreeView;

    closed spec fn view(&self) -> TreeView {
        TreeView {
            nodes: self.nodes@.map_values(|n: Node| n@),
            root: self.root as int,
            steps: self.steps as int,
        }
    }
}

impl Tree {
    /// Representation invariant: every held game is well-formed.
    pub closed spec fn inv(self) -> bool {
        forall|i: int| 0 <= i < self.nodes@.len() ==> (#[trigger] self.nodes@[i]).inv()
    }

    /// A well-formed tree.
    pub open spec fn wf(self) -> bool {
        self.inv() && tree_view_wf(self@)
    }

    /// Builds a tree whose root wraps the given game snapshot.
    pub fn new(state: Game) -> (r: Tree)
        requires
            state.wf(),
        ensures
            r.wf(),
            r@.root == 0,
            r@.nodes.len() == 1,
            r@.nodes[0].state == state@,
            r@.nodes[0].won == 0,
            r@.nodes[0].total == 0,
            r@.steps == 0,
    {
        let mut nodes: Vec<Node> = Vec::new();
        nodes.push(Node::new(state));
        Tree { nodes, root: 0, steps: 0 }
    }

    /// Number of nodes in the arena.
    pub fn node_count(&self) -> (r: usize)
        ensures
            r == self@.nodes.len(),
    {
        self.nodes.len()
    }

    /// Number of search steps performed so far.
    pub fn steps_done(&self) -> (r: u32)
        ensures
            r == self@.steps,
    {
        self.steps
    }

    /// The arena index of the current root.
    pub fn root_index(&self) -> (r: usize)
        ensures
            r == self@.root,
    {
        self.root
    }

    /// A reference to the node at the given arena index.
    pub fn node_at(&self, idx: usize) -> (r: &Node)
        requires
            self.wf(),
            idx < self@.nodes.len(),
        ensures
            r@ == self@.nodes[idx as int],
            r.inv(),
    {
        &self.nodes[idx]
    }

    /// Makes the node at the given index the new root, preserving its
    /// accumulated statistics.
    pub fn replace_root(&mut self, idx: usize)
        requires
            old(self).wf(),
            idx < old(self)@.nodes.len(),
        ensures
            final(self).wf(),
            final(self)@.nodes == old(self)@.nodes,
            final(self)@.root == idx,
            final(self)@.steps == old(self)@.steps,
    {
        self.root = idx;
        proof {
            assert(self@.nodes =~~= old(self)@.nodes);
        }
    }

    /// The child of node `idx` with the lowest win/visit ratio: no other
    /// child's ratio is strictly lower. Returns the move leading to the
    /// child and the child's arena index.
    fn least_winning_child(&self, idx: usize) -> (r: (Move, usize))
        requires
            self.wf(),
            idx < self@.nodes.len(),
            self@.nodes[idx as int].children.len() > 0,
        ensures
            (idx as int) < r.1 < self@.nodes.len(),
            least_winning_choice(self@, idx as int, r.0, r.1 as int),
    {
        let (m0, c0) = self.nodes[idx].children[0];
        let mut worst_m: Move = m0;
        let mut worst_c: usize = c0;
        let mut worst_k: usize = 0;
        proof {
            assert(self@.nodes[idx as int].children[0] == (m0, c0 as int));
        }
        let mut k: usize = 1;
        let n_children = self.nodes[idx].children.len();
        while k < n_children
            invariant
                self.wf(),
                idx < self@.nodes.len(),
                n_children == self@.nodes[idx as int].children.len(),
                0 < n_children,
                worst_k < k <= n_children,
                self@.nodes[idx as int].children[worst_k as int] == (worst_m, worst_c as int),
                forall|k2: int|
                    0 <= k2 < k ==> !child_ratio_less(self@, idx as int, k2, worst_k as int),
                forall|k2: int|
                    0 <= k2 < worst_k ==> child_ratio_less(self@, idx as int, worst_k as int, k2),
            decreases n_children - k,
        {
            let (mk, ck) = self.nodes[idx].children[k];
            proof {
                assert(self@.nodes[idx as int].children[k as int] == (mk, ck as int));
            }
            let less = ratio_lt(
                self.nodes[ck].won,
                self.nodes[ck].total,
                self.nodes[worst_c].won,
                self.nodes[worst_c].total,
            );
            if less {
                proof {
                    let old_k = worst_k as int;
                    assert forall|k2: int| 0 <= k2 < k implies !child_ratio_less(
                        self@,
                        idx as int,
                        k2,
                        k as int,
                    ) by {
                        if child_ratio_less(self@, idx as int, k2, k as int) {
                            let c2 = self@.nodes[idx as int].children[k2].1;
                            assert(self@.nodes[idx as int].children[k as int].1 == ck as int);
                            assert(self@.nodes[idx as int].children[worst_k as int].1
                                == worst_c as int);
                            assert(0 <= self@.nodes[c2].total && 0 <= self@.nodes[
                                ck as int
                            ].total && 0 <= self@.nodes[worst_c as int].total);
                            assert(ratio_less(
                                self@.nodes[ck as int].won,
                                self@.nodes[ck as int].total,
                                self@.nodes[worst_c as int].won,
                                self@.nodes[worst_c as int].total,
                            ));
                            lemma_ratio_less_trans(
                                self@.nodes[c2].won,
                                self@.nodes[c2].total,
                                self@.nodes[ck as int].won,
                                self@.nodes[ck as int].total,
                                self@.nodes[worst_c as int].won,
                                self@.nodes[worst_c as int].total,
                            );
                            assert(child_ratio_less(self@, idx as int, k2, worst_k as int));
                            assert(!child_ratio_less(self@, idx as int, k2, worst_k as int));
                        }
                    }
                    assert forall|k2: int| 0 <= k2 < k implies child_ratio_less(
                        self@,
                        idx as int,
                        k as int,
                        k2,
                    ) by {
                        let c2 = self@.nodes[idx as int].children[k2].1;
                        assert(self@.nodes[idx as int].children[k as int].1 == ck as int);
                        assert(self@.nodes[idx as int].children[worst_k as int].1
                            == worst_c as int);
                        assert(0 <= self@.nodes[c2].total && 0 <= self@.nodes[ck as int].total
                            && 0 <= self@.nodes[worst_c as int].total);
                        assert(ratio_less(
                            self@.nodes[ck as int].won,
                            self@.nodes[ck as int].total,
                            self@.nodes[worst_c as int].won,
                            self@.nodes[worst_c as int].total,
                        ));
                        assert(!child_ratio_less(self@, idx as int, k2, worst_k as int));
                        lemma_ratio_less_compat(
                            self@.nodes[ck as int].won,
                            self@.nodes[ck as int].total,
                            self@.nodes[worst_c as int].won,
                            self@.nodes[worst_c as int].total,
                            self@.nodes[c2].won,
                            self@.nodes[c2].total,
                        );
                    }
                }
                worst_m = mk;
                worst_c = ck;
                worst_k = k;
            } else {
                proof {
                    assert(!child_ratio_less(self@, idx as int, k as int, worst_k as int));
                }
            }
            k = k + 1;
        }
        proof {
            let kk = worst_k as int;
            assert(0 <= kk < self@.nodes[idx as int].children.len() && self@.nodes[
                idx as int
            ].children[kk] == (worst_m, worst_c as int));
        }
        (worst_m, worst_c)
    }

    /// The move to play: the root's child with the lowest win/visit ratio,
    /// together with the child's arena index. The move was checked legal
    /// when the child was created: it either commits or ends the game by a
    /// second pass.
    pub fn best_move(&self) -> (r: (Move, usize))
        requires
            self.wf(),
            self@.nodes[self@.root].children.len() > 0,
        ensures
            self@.root < r.1 < self@.nodes.len(),
            is_child_of(self@, r.1 as int, self@.root),
            self@.nodes[r.1 as int].state == step_next(self@.nodes[self@.root].state, r.0),
            step_verdict(self@.nodes[self@.root].state, r.0) == Ok::<(), Signals>(())
                || step_verdict(self@.nodes[self@.root].state, r.0) == Err::<(), Signals>(
                Signals::DoublePass,
            ),
            least_winning_choice(self@, self@.root, r.0, r.1 as int),
    {
        let r = self.least_winning_child(self.root);
        proof {
            let k = choose|k: int|
                #![auto]
                0 <= k < self@.nodes[self@.root].children.len() && self@.nodes[
                    self@.root
                ].children[k] == (r.0, r.1 as int) && (forall|k2: int|
                    0 <= k2 < self@.nodes[self@.root].children.len() ==> !child_ratio_less(
                        self@,
                        self@.root,
                        k2,
                        k,
                    )) && (forall|k2: int|
                    0 <= k2 < k ==> child_ratio_less(self@, self@.root, k, k2));
            assert(is_child_of(self@, r.1 as int, self@.root));
        }
        r
    }

    /// Descends from `idx` to the child maximising the fixed-point UCT
    /// score; ties keep the first-encountered maximiser.
    fn most_suited_child_selection(&self, idx: usize) -> (r: usize)
        requires
            self.wf(),
            idx < self@.nodes.len(),
            self@.nodes[idx as int].children.len() > 0,
        ensures
            (idx as int) < r < self@.nodes.len(),
            uct_selected_child(self@, idx as int, r as int),
    {
        let parent_total = self.nodes[idx].total;
        let (m0, c0) = self.nodes[idx].children[0];
        let mut best_c: usize = c0;
        let mut best_k: usize = 0;
        proof {
            assert(self@.nodes[idx as int].children[0].1 == c0 as int);
        }
        let mut best_val = calculate_selection_criteria(
            self.nodes[c0].won,
            self.nodes[c0].total,
            parent_total,
        );
        let mut k: usize = 1;
        let n_children = self.nodes[idx].children.len();
        while k < n_children
            invariant
                self.wf(),
                idx < self@.nodes.len(),
                n_children == self@.nodes[idx as int].children.len(),
                parent_total == self@.nodes[idx as int].total,
                0 < n_children,
                best_k < k <= n_children,
                self@.nodes[idx as int].children[best_k as int].1 == best_c as int,
                best_val == child_uct(self@, idx as int, best_k as int),
                forall|k2: int|
                    0 <= k2 < k ==> child_uct(self@, idx as int, k2) <= child_uct(
                        self@,
                        idx as int,
                        best_k as int,
                    ),
                forall|k2: int|
                    0 <= k2 < best_k ==> child_uct(self@, idx as int, k2) < child_uct(
                        self@,
                        idx as int,
                        best_k as int,
                    ),
            decreases n_children - k,
        {
            let (mk, ck) = self.nodes[idx].children[k];
            proof {
                assert(self@.nodes[idx as int].children[k as int].1 == ck as int);
            }
            let val = calculate_selection_criteria(
                self.nodes[ck].won,
                self.nodes[ck].total,
                parent_total,
            );
            if val > best_val {
                best_c = ck;
                best_k = k;
                best_val = val;
            }
            k = k + 1;
        }
        proof {
            let kk = best_k as int;
            assert(0 <= kk < self@.nodes[idx as int].children.len() && self@.nodes[
                idx as int
            ].children[kk].1 == best_c as int);
        }
        best_c
    }

    /// Selection: from the root, while the current node has at least one
    /// child, descend to the child maximising the UCT score. Returns the
    /// path from the root to the reached leaf; indices along it strictly
    /// increase.
    fn selection(&self) -> (path: Vec<usize>)
        requires
            self.wf(),
        ensures
            is_selection_path(self@, path@),
            path@.len() >= 1,
            path@[0] == self@.root,
            forall|t: int| 0 <= t < path@.len() ==> (#[trigger] path@[t]) < self@.nodes.len(),
            forall|t: int| 0 <= t < path@.len() - 1 ==> #[trigger] path@[t] < path@[t + 1],
            forall|t: int|
                0 <= t < path@.len() - 1 ==> is_child_of(
                    self@,
                    #[trigger] path@[t + 1] as int,
                    path@[t] as int,
                ),
            path@.no_duplicates(),
            self@.nodes[path@[path@.len() - 1] as int].children.len() == 0,
    {
        let mut path: Vec<usize> = Vec::new();
        let mut current = self.root;
        path.push(current);
        while self.nodes[current].children.len() > 0
            invariant
                self.wf(),
                current < self@.nodes.len(),
                path@.len() >= 1,
                path@[0] == self@.root,
                path@[path@.len() - 1] == current,
                forall|t: int| 0 <= t < path@.len() ==> (#[trigger] path@[t]) < self@.nodes.len(),
                forall|t: int| 0 <= t < path@.len() - 1 ==> #[trigger] path@[t] < path@[t + 1],
                forall|t: int|
                    0 <= t < path@.len() - 1 ==> is_child_of(
                        self@,
                        #[trigger] path@[t + 1] as int,
                        path@[t] as int,
                    ),
                forall|t: int|
                    0 <= t < path@.len() - 1 ==> uct_selected_child(
                        self@,
                        (#[trigger] path@[t]) as int,
                        path@[t + 1] as int,
                    ),
            decreases self@.nodes.len() - current,
        {
            let next = self.most_suited_child_selection(current);
            proof {
                let k = choose|k: int|
                    #![auto]
                    0 <= k < self@.nodes[current as int].children.len() && self@.nodes[
                        current as int
                    ].children[k].1 == next as int;
                assert(is_child_of(self@, next as int, current as int));
            }
            path.push(next);
            current = next;
        }
        proof {
            lemma_increasing_no_dup(path@);
        }
        path
    }

    /// Expansion: samples one legal move at the non-terminal node `idx` and
    /// adds exactly one new child for it, keyed by that move, with fresh
    /// statistics. Returns the new child's arena index.
    fn expand(&mut self, idx: usize, rng: &mut rand::rngs::StdRng) -> (c: usize)
        requires
            old(self).wf(),
            idx < old(self)@.nodes.len(),
            !old(self)@.nodes[idx as int].state.over,
        ensures
            final(self).wf(),
            c == old(self)@.nodes.len(),
            final(self)@.root == old(self)@.root,
            final(self)@.steps == old(self)@.steps,
            final(self)@.nodes.len() == old(self)@.nodes.len() + 1,
            forall|i: int|
                0 <= i < old(self)@.nodes.len() && i != idx ==> final(self)@.nodes[i] == old(
                    self,
                )@.nodes[i],
            final(self)@.nodes[idx as int].state == old(self)@.nodes[idx as int].state,
            final(self)@.nodes[idx as int].won == old(self)@.nodes[idx as int].won,
            final(self)@.nodes[idx as int].total == old(self)@.nodes[idx as int].total,
            exists|mv: Move|
                {
                    &&& final(self)@.nodes[idx as int].children == old(self)@.nodes[
                        idx as int
                    ].children.push((mv, old(self)@.nodes.len() as int))
                    &&& final(self)@.nodes[c as int].state == step_next(
                        old(self)@.nodes[idx as int].state,
                        mv,
                    )
                    &&& (step_verdict(old(self)@.nodes[idx as int].state, mv) == Ok::<(
                    ), Signals>(()) || step_verdict(old(self)@.nodes[idx as int].state, mv)
                        == Err::<(), Signals>(Signals::DoublePass))
                },
            final(self)@.nodes[c as int].won == 0,
            final(self)@.nodes[c as int].total == 0,
            final(self)@.nodes[c as int].children.len() == 0,
    {
        let new_idx = self.nodes.len();
        let (mv, child_state) = generate_random_child(self.nodes[idx].get_state(), rng);
        self.nodes.push(Node::new(child_state));
        let node = &mut self.nodes[idx];
        node.children.push((mv, new_idx));
        proof {
            assert(self@.nodes.len() == old(self)@.nodes.len() + 1);
            assert forall|i: int|
                0 <= i < old(self)@.nodes.len() && i != idx implies self@.nodes[i] == old(
                self,
            )@.nodes[i] by {}
            assert(self@.nodes[idx as int].children =~= old(self)@.nodes[
                idx as int
            ].children.push((mv, new_idx as int)));
            assert(tree_view_wf(self@)) by {
                let t = self@;
                let t0 = old(self)@;
                assert forall|i: int, k: int|
                    0 <= i < t.nodes.len() && 0 <= k < t.nodes[i].children.len() implies i < (
                #[trigger] t.nodes[i].children[k]).1 < t.nodes.len() by {
                    if i < t0.nodes.len() {
                        if i == idx && k == t0.nodes[i].children.len() {
                        } else {
                            assert(t.nodes[i].children[k] == t0.nodes[i].children[k]);
                        }
                    }
                }
                assert forall|i: int, k: int|
                    0 <= i < t.nodes.len() && 0 <= k < t.nodes[i].children.len() implies {
                    let mv2 = (#[trigger] t.nodes[i].children[k]).0;
                    let c2 = t.nodes[i].children[k].1;
                    &&& t.nodes[c2].state == step_next(t.nodes[i].state, mv2)
                    &&& (step_verdict(t.nodes[i].state, mv2) == Ok::<(), Signals>(())
                        || step_verdict(t.nodes[i].state, mv2) == Err::<(), Signals>(
                        Signals::DoublePass,
                    ))
                } by {
                    if i < t0.nodes.len() {
                        if i == idx && k == t0.nodes[i].children.len() {
                            assert(t.nodes[i].children[k] == (mv, new_idx as int));
                            assert(t.nodes[new_idx as int].state == child_state@);
                        } else {
                            assert(t.nodes[i].children[k] == t0.nodes[i].children[k]);
                            assert(t.nodes[t0.nodes[i].children[k].1].state == t0.nodes[
                                t0.nodes[i].children[k].1
                            ].state);
                        }
                    }
                }
            }
        }
        new_idx
    }

    /// Backpropagation: walks the given path and, at every node on it,
    /// raises the visit count by one and the win score by the rollout
    /// outcome's worth for that node's player to move.
    fn backpropagation(&mut self, path: &Vec<usize>, winner: Option<Stone>)
        requires
            old(self).wf(),
            path@.no_duplicates(),
            forall|t: int| 0 <= t < path@.len() ==> (#[trigger] path@[t]) < old(self)@.nodes.len(),
            forall|i: int| 0 <= i < old(self)@.nodes.len() ==> (#[trigger] old(self)@.nodes[i]).total
                < old(self)@.steps,
        ensures
            final(self).wf(),
            final(self)@.root == old(self)@.root,
            final(self)@.steps == old(self)@.steps,
            final(self)@.nodes.len() == old(self)@.nodes.len(),
            forall|i: int|
                0 <= i < old(self)@.nodes.len() ==> final(self)@.nodes[i] == (if path@.contains(
                    i as usize,
                ) {
                    NodeView {
                        won: old(self)@.nodes[i].won + win_delta(winner, old(self)@.nodes[i].state),
                        total: old(self)@.nodes[i].total + 1,
                        ..old(self)@.nodes[i]
                    }
                } else {
                    old(self)@.nodes[i]
                }),
    {
        let n_nodes = self.nodes.len();
        let mut t: usize = 0;
        while t < path.len()
            invariant
                path@.no_duplicates(),
                t <= path@.len(),
                old(self)@.nodes.len() == n_nodes,
                self.inv(),
                tree_view_wf(self@),
                tree_view_wf(old(self)@),
                forall|i: int|
                    0 <= i < old(self)@.nodes.len() ==> (#[trigger] old(self)@.nodes[i]).total
                        < old(self)@.steps,
                self@.root == old(self)@.root,
                self@.steps == old(self)@.steps,
                self@.nodes.len() == old(self)@.nodes.len(),
                forall|i: int| 0 <= i < path@.len() ==> (#[trigger] path@[i])
                    < old(self)@.nodes.len(),
                forall|i: int|
                    0 <= i < old(self)@.nodes.len() ==> self@.nodes[i] == (
                    if path@.subrange(0, t as int).contains(i as usize) {
                        NodeView {
                            won: old(self)@.nodes[i].won + win_delta(
                                winner,
                                old(self)@.nodes[i].state,
                            ),
                            total: old(self)@.nodes[i].total + 1,
                            ..old(self)@.nodes[i]
                        }
                    } else {
                        old(self)@.nodes[i]
                    }),
            decreases path@.len() - t,
        {
            let i = path[t];
            proof {
                assert(!path@.subrange(0, t as int).contains(i)) by {
                    if path@.subrange(0, t as int).contains(i) {
                        let s = choose|s: int|
                            0 <= s < t && path@.subrange(0, t as int)[s] == i;
                        assert(path@[s] == path@[t as int]);
                    }
                }
                assert(self@.nodes[i as int] == old(self)@.nodes[i as int]);
                assert(self@.nodes[i as int].won <= 2 * self@.nodes[i as int].total);
                assert(self@.nodes[i as int].total < u32::MAX);
            }
            let ghost pre = self@;
            let ghost delta = win_delta(winner, self@.nodes[i as int].state);
            let node = &mut self.nodes[i];
            match winner {
                Some(s) => {
                    let mover = node.state.get_current_player();
                    if mover == s {
                        node.increment_won();
                    } else {
                        node.increment_lost();
                    }
                },
                None => {
                    node.increment_draw();
                },
            }
            proof {
                assert(self@.nodes[i as int] == (NodeView {
                    won: pre.nodes[i as int].won + delta,
                    total: pre.nodes[i as int].total + 1,
                    ..pre.nodes[i as int]
                }));
                assert(forall|j: int|
                    0 <= j < pre.nodes.len() && j != i ==> #[trigger] self@.nodes[j]
                        == pre.nodes[j]);
                assert(path@.subrange(0, t as int + 1) =~= path@.subrange(0, t as int).push(
                    path@[t as int],
                ));
                assert forall|j: int|
                    0 <= j < old(self)@.nodes.len() implies self@.nodes[j] == (
                if path@.subrange(0, t as int + 1).contains(j as usize) {
                    NodeView {
                        won: old(self)@.nodes[j].won + win_delta(winner, old(self)@.nodes[j].state),
                        total: old(self)@.nodes[j].total + 1,
                        ..old(self)@.nodes[j]
                    }
                } else {
                    old(self)@.nodes[j]
                }) by {
                    broadcast use vstd::seq_lib::lemma_seq_contains_after_push;

                    assert(pre.nodes[j] == (if path@.subrange(0, t as int).contains(j as usize) {
                        NodeView {
                            won: old(self)@.nodes[j].won + win_delta(
                                winner,
                                old(self)@.nodes[j].state,
                            ),
                            total: old(self)@.nodes[j].total + 1,
                            ..old(self)@.nodes[j]
                        }
                    } else {
                        old(self)@.nodes[j]
                    }));
                    if j == i {
                        assert(path@.subrange(0, t as int + 1).contains(i));
                        assert(!path@.subrange(0, t as int).contains(i));
                        assert(pre.nodes[j] == old(self)@.nodes[j]);
                    } else {
                        assert(self@.nodes[j] == pre.nodes[j]);
                        if path@.subrange(0, t as int).contains(j as usize) {
                            let s2 = choose|s2: int|
                                0 <= s2 < t && path@.subrange(0, t as int)[s2] == j as usize;
                            assert(path@.subrange(0, t as int + 1)[s2] == j as usize);
                        }
                        if path@.subrange(0, t as int + 1).contains(j as usize) {
                            let s2 = choose|s2: int|
                                0 <= s2 < t + 1 && #[trigger] path@.subrange(
                                    0,
                                    t as int + 1,
                                )[s2] == j as usize;
                            if s2 < t {
                                assert(path@.subrange(0, t as int)[s2] == j as usize);
                            } else {
                                assert(path@[t as int] == j as usize);
                                assert(0 <= j < n_nodes);
                                assert(j as usize as int == j);
                                assert(false);
                            }
                        }
                    }
                }
                assert(tree_view_wf(self@)) by {
                    let tv = self@;
                    assert forall|a: int, k: int|
                        0 <= a < tv.nodes.len() && 0 <= k < tv.nodes[a].children.len() implies {
                        let mv2 = (#[trigger] tv.nodes[a].children[k]).0;
                        let c2 = tv.nodes[a].children[k].1;
                        &&& a < c2 < tv.nodes.len()
                        &&& tv.nodes[c2].state == step_next(tv.nodes[a].state, mv2)
                        &&& (step_verdict(tv.nodes[a].state, mv2) == Ok::<(), Signals>(())
                            || step_verdict(tv.nodes[a].state, mv2) == Err::<(), Signals>(
                            Signals::DoublePass,
                        ))
                    } by {
                        assert(tv.nodes[a].children == old(self)@.nodes[a].children);
                        assert(old(self)@.nodes[a].children[k] == tv.nodes[a].children[k]);
                        let c2 = tv.nodes[a].children[k].1;
                        assert(0 <= c2 < old(self)@.nodes.len());
                        assert(a < c2 < tv.nodes.len());
                        assert(tv.nodes[c2].state == old(self)@.nodes[c2].state);
                        assert(tv.nodes[a].state == old(self)@.nodes[a].state);
                    }
                    assert forall|a: int| 0 <= a < tv.nodes.len() implies 0 <= (
                    #[trigger] tv.nodes[a]).won <= 2 * tv.nodes[a].total && 0 <= tv.nodes[a].total
                        <= tv.steps by {
                        assert(old(self)@.nodes[a].total <= old(self)@.steps);
                        assert(old(self)@.nodes[a].won <= 2 * old(self)@.nodes[a].total);
                        if a == i {
                            assert(old(self)@.nodes[a].total < old(self)@.steps);
                            assert(0 <= win_delta(winner, old(self)@.nodes[a].state) <= 2);
                        }
                    }
                }
            }
            t = t + 1;
        }
        proof {
            assert(path@.subrange(0, path@.len() as int) =~= path@);
        }
    }

    /// One MCTS step: selection to a leaf, expansion of one child there
    /// when the leaf is not terminal, a random rollout, and backpropagation
    /// along the selection path. Some UCT selection path and rollout
    /// outcome relate the old and new tree exactly (`mcts_step_rel`): the
    /// path nodes alone gain one visit and the outcome's worth, and a
    /// non-terminal leaf alone gains exactly one fresh child.
    pub fn mcts_step(&mut self, rng: &mut rand::rngs::StdRng)
        requires
            old(self).wf(),
            old(self)@.steps < u32::MAX,
        ensures
            final(self).wf(),
            mcts_step_rel(old(self)@, final(self)@),
            final(self)@.root == old(self)@.root,
            final(self)@.steps == old(self)@.steps + 1,
            final(self)@.nodes.len() >= old(self)@.nodes.len(),
            final(self)@.nodes[final(self)@.root].total == old(self)@.nodes[old(self)@.root].total
                + 1,
            forall|i: int|
                0 <= i < old(self)@.nodes.len() ==> (#[trigger] final(self)@.nodes[i]).state == old(
                    self,
                )@.nodes[i].state && old(self)@.nodes[i].total <= final(self)@.nodes[i].total <= old(
                    self,
                )@.nodes[i].total + 1,
            old(self)@.nodes[old(self)@.root].state.over
                ==> final(self)@.nodes[final(self)@.root].children
                == old(self)@.nodes[old(self)@.root].children,
    {
        let ghost t0 = self@;
        let n0 = self.nodes.len();
        let path = self.selection();
        let leaf = path[path.len() - 1];
        let sim_start: usize = if self.nodes[leaf].is_over() {
            leaf
        } else {
            self.expand(leaf, rng)
        };
        let ghost t1 = self@;
        let winner = simulate_rollout(self.nodes[sim_start].get_state(), rng);
        proof {
            assert forall|i: int| 0 <= i < t1.nodes.len() implies (#[trigger] t1.nodes[i]).total
                < u32::MAX by {
                assert(t1.nodes[i].total <= t1.steps);
            }
        }
        self.steps = self.steps + 1;
        proof {
            assert(tree_view_wf(self@)) by {
                assert(self@.nodes =~~= t1.nodes);
            }
        }
        self.backpropagation(&path, winner);
        proof {
            assert(path@.contains(path@[0]));
            assert(self@.nodes[self@.root].total == t0.nodes[t0.root].total + 1);
            let leafi = path@.last() as int;
            assert(leaf == path@.last());
            assert(path@.contains(path@[path@.len() - 1]));
            if t0.nodes[leafi].state.over {
                assert forall|i: int| 0 <= i < t0.nodes.len() implies self@.nodes[i]
                    == backprop_node(t0.nodes[i], path@, i, winner) by {
                    assert(t1.nodes[i] == t0.nodes[i]);
                }
            } else {
                let mv = choose|mv: Move|
                    {
                        &&& t1.nodes[leafi].children == t0.nodes[leafi].children.push(
                            (mv, t0.nodes.len() as int),
                        )
                        &&& t1.nodes[t0.nodes.len() as int].state == step_next(
                            t0.nodes[leafi].state,
                            mv,
                        )
                        &&& (step_verdict(t0.nodes[leafi].state, mv) == Ok::<(), Signals>(())
                            || step_verdict(t0.nodes[leafi].state, mv) == Err::<(), Signals>(
                            Signals::DoublePass,
                        ))
                    };
                assert(t1.nodes[leafi] == expanded_leaf(
                    t0.nodes[leafi],
                    mv,
                    t0.nodes.len() as int,
                )) by {
                    assert(t1.nodes[leafi].state == t0.nodes[leafi].state);
                    assert(t1.nodes[leafi].won == t0.nodes[leafi].won);
                    assert(t1.nodes[leafi].total == t0.nodes[leafi].total);
                }
                assert(self@.nodes[t0.nodes.len() as int] =~~= (NodeView {
                    state: step_next(t0.nodes[leafi].state, mv),
                    children: Seq::empty(),
                    won: 0,
                    total: 0,
                }));
                assert(self@.nodes[leafi] == backprop_node(
                    expanded_leaf(t0.nodes[leafi], mv, t0.nodes.len() as int),
                    path@,
                    leafi,
                    winner,
                ));
                assert forall|i: int|
                    0 <= i < t0.nodes.len() && i != leafi implies self@.nodes[i] == backprop_node(
                    t0.nodes[i],
                    path@,
                    i,
                    winner,
                ) by {
                    assert(t1.nodes[i] == t0.nodes[i]);
                }
                assert(!path@.contains(n0)) by {
                    if path@.contains(n0) {
                        let t = choose|t: int| 0 <= t < path@.len() && path@[t] == n0;
                        assert(path@[t] < t0.nodes.len());
                    }
                }
                assert(self@.nodes[t0.nodes.len() as int] == t1.nodes[t0.nodes.len() as int]);
            }
            assert(mcts_step_rel_via(t0, self@, path@, winner));
            assert(mcts_step_rel(t0, self@));
            if t0.nodes[t0.root].state.over {
                assert(t0.nodes[t0.root].children.len() == 0);
                if path@.len() > 1 {
                    assert(uct_selected_child(t0, path@[0] as int, path@[1] as int));
                    let k = choose|k: int|
                        #![auto]
                        0 <= k < t0.nodes[path@[0] as int].children.len() && t0.nodes[
                            path@[0] as int
                        ].children[k].1 == path@[1] as int;
                    assert(false);
                }
                assert(leafi == t0.root);
                assert(self@.nodes[self@.root].children == t0.nodes[t0.root].children);
            }
        }
    }

    /// Runs a fixed budget of MCTS steps. From a fresh root with zero
    /// visits, the root's visit count afterwards equals exactly the number
    /// of iterations.
    pub fn run_iterations(&mut self, iters: u32, rng: &mut rand::rngs::StdRng)
        requires
            old(self).wf(),
            old(self)@.steps + iters <= u32::MAX,
        ensures
            final(self).wf(),
            mcts_steps_rel(old(self)@, final(self)@, iters as int),
            final(self)@.root == old(self)@.root,
            final(self)@.steps == old(self)@.steps + iters,
            final(self)@.nodes[final(self)@.root].total == old(self)@.nodes[old(self)@.root].total
                + iters,
            final(self)@.nodes[final(self)@.root].state == old(self)@.nodes[old(
                self,
            )@.root].state,
            old(self)@.nodes[old(self)@.root].state.over
                ==> final(self)@.nodes[final(self)@.root].children
                == old(self)@.nodes[old(self)@.root].children,
    {
        let mut t: u32 = 0;
        while t < iters
            invariant
                self.wf(),
                t <= iters,
                mcts_steps_rel(old(self)@, self@, t as int),
                self@.root == old(self)@.root,
                self@.steps == old(self)@.steps + t,
                old(self)@.steps + iters <= u32::MAX,
                self@.nodes[self@.root].total == old(self)@.nodes[old(self)@.root].total + t,
                self@.nodes[self@.root].state == old(self)@.nodes[old(self)@.root].state,
                old(self)@.nodes[old(self)@.root].state.over ==> self@.nodes[self@.root].children
                    == old(self)@.nodes[old(self)@.root].children,
            decreases iters - t,
        {
            let ghost tm = self@;
            self.mcts_step(rng);
            proof {
                assert(mcts_step_rel(tm, self@));
                assert(mcts_steps_rel(old(self)@, self@, t as int + 1));
            }
            t = t + 1;
        }
    }

    /// Searches the root's children for one whose captured state equals the
    /// given game.
    fn find_state_in_root_children(&self, game: &Game) -> (r: Option<usize>)
        requires
            self.wf(),
            game.wf(),
        ensures
            match r {
                Some(c) => c < self@.nodes.len() && is_child_of(self@, c as int, self@.root)
                    && self@.nodes[c as int].state == game@,
                None => forall|k: int|
                    0 <= k < self@.nodes[self@.root].children.len() ==> self@.nodes[(
                    #[trigger] self@.nodes[self@.root].children[k]).1].state != game@,
            },
    {
        let n_children = self.nodes[self.root].children.len();
        let mut k: usize = 0;
        while k < n_children
            invariant
                self.wf(),
                game.wf(),
                k <= n_children,
                n_children == self@.nodes[self@.root].children.len(),
                forall|k2: int|
                    0 <= k2 < k ==> self@.nodes[(#[trigger] self@.nodes[
                        self@.root
                    ].children[k2]).1].state != game@,
            decreases n_children - k,
        {
            let (mv, c) = self.nodes[self.root].children[k];
            proof {
                assert(self@.nodes[self@.root].children[k as int] == (mv, c as int));
            }
            if self.nodes[c].state.equals(game) {
                proof {
                    assert(is_child_of(self@, c as int, self@.root));
                }
                return Some(c);
            }
            k = k + 1;
        }
        None
    }

    /// Tree reuse: advances the root to the existing child whose captured
    /// state equals the new real state, preserving its accumulated
    /// statistics; when no such child exists, the root is replaced by a
    /// fresh zero-visit node wrapping the new state.
    pub fn update_root_after_move(&mut self, game: &Game)
        requires
            old(self).wf(),
            game.wf(),
        ensures
            final(self).wf(),
            advances_root(old(self)@, game@, final(self)@),
    {
        let found = self.find_state_in_root_children(game);
        match found {
            Some(c) => {
                self.replace_root(c);
                proof {
                    let k = choose|k: int|
                        0 <= k < old(self)@.nodes[old(self)@.root].children.len() && (
                        #[trigger] old(self)@.nodes[old(self)@.root].children[k]).1
                            == c as int;
                }
            },
            None => {
                let new_idx = self.nodes.len();
                self.nodes.push(Node::new(game.duplicate()));
                self.root = new_idx;
                proof {
                    assert(self@.nodes =~~= old(self)@.nodes.push(
                        NodeView { state: game@, children: Seq::empty(), won: 0, total: 0 },
                    ));
                    assert forall|i: int, k: int|
                        0 <= i < self@.nodes.len() && 0 <= k < self@.nodes[i].children.len()
                            implies i < (#[trigger] self@.nodes[i].children[k]).1
                        < self@.nodes.len() by {
                        assert(self@.nodes[i] == old(self)@.nodes[i]);
                    }
                    assert forall|i: int, k: int|
                        0 <= i < self@.nodes.len() && 0 <= k < self@.nodes[i].children.len()
                            implies {
                        let mv2 = (#[trigger] self@.nodes[i].children[k]).0;
                        let c2 = self@.nodes[i].children[k].1;
                        &&& self@.nodes[c2].state == step_next(self@.nodes[i].state, mv2)
                        &&& (step_verdict(self@.nodes[i].state, mv2) == Ok::<(), Signals>(())
                            || step_verdict(self@.nodes[i].state, mv2) == Err::<(), Signals>(
                            Signals::DoublePass,
                        ))
                    } by {
                        assert(self@.nodes[i] == old(self)@.nodes[i]);
                        assert(self@.nodes[self@.nodes[i].children[k].1] == old(self)@.nodes[
                            self@.nodes[i].children[k].1
                        ]);
                    }
                }
            },
        }
    }
}

/// At every node of a well-formed tree, the cumulative win score (in
/// half-points, a draw counting one) never exceeds two per visit: the sum
/// of win increments never exceeds the visit count.
pub proof fn lemma_wins_bounded_by_visits(t: TreeView, i: int)
    requires
        tree_view_wf(t),
        0 <= i < t.nodes.len(),
    ensures
        0 <= t.nodes[i].won <= 2 * t.nodes[i].total,
{
}

/// Plays one uniformly random game between two automated players from a
/// fresh position and reports the winning colour, or nothing on a draw.
pub fn run_simulation(board_size: usize, super_ko: bool, komi2: u32, seed: u64) -> (r: Option<
    Stone,
>)
    ensures
        r matches Some(s) ==> s.is_color(),
        exists|g2: GameView|
            #![auto]
            reachable_by_steps(
                fresh_game(
                    board_size as int,
                    super_ko,
                    (Stone::Black, Stone::White),
                    false,
                    komi2 as int,
                ),
                g2,
            ) && g2.over && r == g2.winner_stone(),
{
    let game = Game::new(board_size, super_ko, (Stone::Black, Stone::White), false, komi2);
    let mut rng = rng_from_seed(seed);
    simulate_rollout(&game, &mut rng)
}

/// Strict ordering of two win/visit ratios: w1/t1 is strictly lower than
/// w2/t2, compared exactly by cross-multiplication. A visited node's ratio
/// is below an unvisited node's; two unvisited nodes are not ordered.
pub open spec fn ratio_less(w1: int, t1: int, w2: int, t2: int) -> bool {
    if t1 > 0 && t2 > 0 {
        w1 * t2 < w2 * t1
    } else {
        t1 > 0 && t2 == 0
    }
}

/// Whether the `k1`-th child of node `p` has a strictly lower win/visit
/// ratio than the `k2`-th.
pub open spec fn child_ratio_less(t: TreeView, p: int, k1: int, k2: int) -> bool {
    let c1 = t.nodes[p].children[k1].1;
    let c2 = t.nodes[p].children[k2].1;
    ratio_less(t.nodes[c1].won, t.nodes[c1].total, t.nodes[c2].won, t.nodes[c2].total)
}

/// The ratio ordering is transitive over non-negative statistics.
proof fn lemma_ratio_less_trans(
    w1: int,
    t1: int,
    w2: int,
    t2: int,
    w3: int,
    t3: int,
)
    requires
        t1 >= 0,
        t2 >= 0,
        t3 >= 0,
        ratio_less(w1, t1, w2, t2),
        ratio_less(w2, t2, w3, t3),
    ensures
        ratio_less(w1, t1, w3, t3),
{
    assert(t1 > 0 && t2 > 0);
    if t3 == 0 {
    } else {
        assert(w1 * t3 < w3 * t1) by (nonlinear_arith)
            requires
                t1 > 0,
                t2 > 0,
                t3 > 0,
                w1 * t2 < w2 * t1,
                w2 * t3 < w3 * t2,
        {}
    }
}

/// Compatibility of the ratio ordering: whatever is strictly below one
/// value is strictly below everything that is not below it.
proof fn lemma_ratio_less_compat(
    w1: int,
    t1: int,
    w2: int,
    t2: int,
    w3: int,
    t3: int,
)
    requires
        t1 >= 0,
        t2 >= 0,
        t3 >= 0,
        ratio_less(w1, t1, w2, t2),
        !ratio_less(w3, t3, w2, t2),
    ensures
        ratio_less(w1, t1, w3, t3),
{
    assert(t1 > 0);
    if t2 == 0 {
        assert(t3 == 0);
    } else {
        if t3 == 0 {
        } else {
            assert(w1 * t3 < w3 * t1) by (nonlinear_arith)
                requires
                    t1 > 0,
                    t2 > 0,
                    t3 > 0,
                    w1 * t2 < w2 * t1,
                    !(w3 * t2 < w2 * t3),
            {}
        }
    }
}

/// Whether the `k`-th child entry of node `p` holds the move `mv` and child
/// index `c`, no child has a strictly lower win/visit ratio, and every
/// earlier entry has a strictly higher one (the first-encountered minimiser
/// is kept on ties).
pub open spec fn least_winning_choice(t: TreeView, p: int, mv: Move, c: int) -> bool {
    exists|k: int|
        #![auto]
        0 <= k < t.nodes[p].children.len() && t.nodes[p].children[k] == (mv, c) && (forall|k2: int|
            0 <= k2 < t.nodes[p].children.len() ==> !child_ratio_less(t, p, k2, k)) && (forall|
            k2: int,
        |
            0 <= k2 < k ==> child_ratio_less(t, p, k, k2))
}

/// Compares two win/visit ratios exactly, by cross-multiplication in wide
/// arithmetic.
fn ratio_lt(w1: u64, t1: u32, w2: u64, t2: u32) -> (r: bool)
    ensures
        r == ratio_less(w1 as int, t1 as int, w2 as int, t2 as int),
{
    if t1 > 0 && t2 > 0 {
        proof {
            assert((w1 as int) * (t2 as int) < u128::MAX as int && (w2 as int) * (t1 as int)
                < u128::MAX as int) by (nonlinear_arith)
                requires
                    w1 <= u64::MAX,
                    w2 <= u64::MAX,
                    t1 <= u32::MAX,
                    t2 <= u32::MAX,
            {}
        }
        (w1 as u128) * (t2 as u128) < (w2 as u128) * (t1 as u128)
    } else {
        t1 > 0 && t2 == 0
    }
}

/// The fixed-point UCT score of the `k`-th child of node `p`.
pub open spec fn child_uct(t: TreeView, p: int, k: int) -> int {
    let c = t.nodes[p].children[k].1;
    uct_score(t.nodes[c].won as nat, t.nodes[c].total as nat, t.nodes[p].total as nat)
}

/// Whether `c` is the child of `p` that selection descends to: some child
/// entry holds `c`, no child scores strictly higher under the fixed-point
/// UCT criterion, and every earlier entry scores strictly lower (ties keep
/// the first-encountered maximiser).
pub open spec fn uct_selected_child(t: TreeView, p: int, c: int) -> bool {
    exists|k: int|
        #![auto]
        0 <= k < t.nodes[p].children.len() && t.nodes[p].children[k].1 == c && (forall|k2: int|
            0 <= k2 < t.nodes[p].children.len() ==> child_uct(t, p, k2) <= child_uct(t, p, k)) && (
        forall|k2: int| 0 <= k2 < k ==> child_uct(t, p, k2) < child_uct(t, p, k))
}

/// A selection path: it starts at the root, each node descends to its
/// UCT-selected child, and it ends at a childless node (a leaf, whether or
/// not its state is terminal).
pub open spec fn is_selection_path(t: TreeView, path: Seq<usize>) -> bool {
    &&& path.len() >= 1
    &&& path[0] == t.root
    &&& forall|i: int| 0 <= i < path.len() ==> (#[trigger] path[i]) < t.nodes.len()
    &&& forall|i: int|
        0 <= i < path.len() - 1 ==> uct_selected_child(
            t,
            (#[trigger] path[i]) as int,
            path[i + 1] as int,
        )
    &&& t.nodes[path.last() as int].children.len() == 0
}

/// The node `n` as backpropagation leaves it: on the path, one more visit
/// and the rollout outcome's worth in half-points; off it, unchanged.
pub open spec fn backprop_node(n: NodeView, path: Seq<usize>, i: int, w: Option<Stone>) -> NodeView {
    if path.contains(i as usize) {
        NodeView { won: n.won + win_delta(w, n.state), total: n.total + 1, ..n }
    } else {
        n
    }
}

/// The leaf `n` with one fresh child appended, keyed by `mv`, at arena
/// index `c`.
pub open spec fn expanded_leaf(n: NodeView, mv: Move, c: int) -> NodeView {
    NodeView { children: n.children.push((mv, c)), ..n }
}

/// One MCTS step from `t0` to `t1` through the given selection path and
/// rollout outcome: the path is a UCT selection path of `t0`; when the
/// reached leaf is terminal nothing is expanded, otherwise exactly one
/// fresh zero-visit child appears beneath the leaf; exactly the nodes on
/// the path gain one visit and each gains the outcome's worth for its own
/// player to move; every other node is untouched.
pub open spec fn mcts_step_rel_via(
    t0: TreeView,
    t1: TreeView,
    path: Seq<usize>,
    w: Option<Stone>,
) -> bool {
    let leaf = path.last() as int;
    &&& is_selection_path(t0, path)
    &&& (w matches Some(s) ==> s.is_color())
    &&& t1.root == t0.root
    &&& t1.steps == t0.steps + 1
    &&& if t0.nodes[leaf].state.over {
        &&& t1.nodes.len() == t0.nodes.len()
        &&& forall|i: int|
            0 <= i < t0.nodes.len() ==> t1.nodes[i] == backprop_node(t0.nodes[i], path, i, w)
    } else {
        &&& t1.nodes.len() == t0.nodes.len() + 1
        &&& exists|mv: Move|
            {
                &&& t1.nodes[leaf] == #[trigger] backprop_node(
                    expanded_leaf(t0.nodes[leaf], mv, t0.nodes.len() as int),
                    path,
                    leaf,
                    w,
                )
                &&& t1.nodes[t0.nodes.len() as int] == (NodeView {
                    state: step_next(t0.nodes[leaf].state, mv),
                    children: Seq::empty(),
                    won: 0,
                    total: 0,
                })
                &&& (step_verdict(t0.nodes[leaf].state, mv) == Ok::<(), Signals>(())
                    || step_verdict(t0.nodes[leaf].state, mv) == Err::<(), Signals>(
                    Signals::DoublePass,
                ))
            }
        &&& forall|i: int|
            0 <= i < t0.nodes.len() && i != leaf ==> t1.nodes[i] == backprop_node(
                t0.nodes[i],
                path,
                i,
                w,
            )
    }
}

/// One MCTS step from `t0` to `t1`: some selection path and some rollout
/// outcome relate them as above.
pub open spec fn mcts_step_rel(t0: TreeView, t1: TreeView) -> bool {
    exists|path: Seq<usize>, w: Option<Stone>| mcts_step_rel_via(t0, t1, path, w)
}

/// `n` consecutive MCTS steps lead from `t0` to `t1`.
pub open spec fn mcts_steps_rel(t0: TreeView, t1: TreeView, n: int) -> bool
    decreases n,
{
    if n <= 0 {
        t1 == t0
    } else {
        exists|tm: TreeView| mcts_steps_rel(t0, tm, n - 1) && #[trigger] mcts_step_rel(tm, t1)
    }
}

/// Whether some child of the root wraps exactly the game `g`.
pub open spec fn has_matching_child(t: TreeView, g: GameView) -> bool {
    exists|k: int|
        0 <= k < t.nodes[t.root].children.len() && t.nodes[(
        #[trigger] t.nodes[t.root].children[k]).1].state == g
}

/// Root advancement for tree reuse: when some root child wraps the observed
/// state, that child becomes the root and every node keeps its accumulated
/// statistics; otherwise one fresh zero-visit node wrapping the state is
/// appended and becomes the root.
pub open spec fn advances_root(t0: TreeView, g: GameView, t1: TreeView) -> bool {
    &&& t1.steps == t0.steps
    &&& 0 <= t1.root < t1.nodes.len()
    &&& t1.nodes[t1.root].state == g
    &&& if has_matching_child(t0, g) {
        is_child_of(t0, t1.root, t0.root) && t1.nodes == t0.nodes
    } else {
        t1.nodes == t0.nodes.push(NodeView { state: g, children: Seq::empty(), won: 0, total: 0 })
            && t1.root == t0.nodes.len()
    }
}

/// The number of search steps a fixed budget yields before the step counter
/// would overflow: the budget itself, or what room is left below the
/// counter's limit.
pub open spec fn search_budget(iterations: int, steps: int) -> int {
    if steps + iterations <= u32::MAX {
        iterations
    } else {
        u32::MAX - steps
    }
}

/// A strictly increasing sequence has no duplicates.
proof fn lemma_increasing_no_dup(s: Seq<usize>)
    requires
        forall|t: int| 0 <= t < s.len() - 1 ==> #[trigger] s[t] < s[t + 1],
    ensures
        s.no_duplicates(),
{
    assert forall|i: int, j: int| 0 <= i < j < s.len() implies s[i] < s[j] by {
        lemma_increasing_at(s, i, j);
    }
}

proof fn lemma_increasing_at(s: Seq<usize>, i: int, j: int)
    requires
        forall|t: int| 0 <= t < s.len() - 1 ==> #[trigger] s[t] < s[t + 1],
        0 <= i < j < s.len(),
    ensures
        s[i] < s[j],
    decreases j - i,
{
    if i + 1 < j {
        lemma_increasing_at(s, i + 1, j);
    }
}

} // verus!
