//! Players: the capability of offering a colour identity and a display
//! name, with a human variant (whose move comes from the input layer
//! outside this library) and an automated variant that drives a Monte Carlo
//! search tree to choose its moves.

use vstd::prelude::*;

use crate::game::{step_verdict, Game, Move};
use crate::mcts::{
    advances_root, least_winning_choice, mcts_steps_rel, search_budget, Tree, TreeView,
};
use crate::rng::rng_from_seed;
use crate::signals::Signals;
use crate::stones::{get_stone_name_from_stone, spec_stone_name, Stone};

verus! {

/// What a player exposes to the driving loop: a colour identity and a
/// display name. Move choice is inherent to each player kind: the bot's in
/// `Bot::choose_case`; a human's comes from reading a line of text, which
/// lives outside this library.
pub trait Player {
    spec fn spec_stone(&self) -> Stone;

    spec fn spec_name(&self) -> Seq<char>;

    fn get_stone(&self) -> (r: Stone)
        ensures
            r == self.spec_stone(),
    ;

    fn get_name(&self) -> (r: &'static str)
        ensures
            r@ == self.spec_name(),
    ;
}

/// A human player: a colour and the name derived from it.
pub struct Human {
    pub stone: Stone,
    pub name: &'static str,
}

impl Human {
    /// Builds a human player of the given colour; the name is derived from
    /// the colour.
    pub fn new(stone: Stone) -> (r: Human)
        ensures
            r.stone == stone,
            r.name@ == spec_stone_name(stone),
    {
        Human { stone, name: get_stone_name_from_stone(stone) }
    }
}

impl Player for Human {
    open spec fn spec_stone(&self) -> Stone {
        self.stone
    }

    open spec fn spec_name(&self) -> Seq<char> {
        self.name@
    }

    fn get_stone(&self) -> Stone {
        self.stone
    }

    fn get_name(&self) -> &'static str {
        self.name
    }
}

/// The mathematical model of a bot: its colour, name, per-decision search
/// budget, and the search tree it holds.
#[verifier::ext_equal]
pub ghost struct BotView {
    pub stone: Stone,
    pub name: Seq<char>,
    pub iterations: int,
    pub tree: TreeView,
}

/// An automated player: owns a Monte Carlo search tree, a fixed iteration
/// budget per decision, and a seeded random generator, so its play is
/// reproducible.
pub struct Bot {
    name: &'static str,
    stone: Stone,
    tree: Tree,
    iterations: u32,
    rng: rand::rngs::StdRng,
}

impl View for Bot {
    type V = BotView;

    closed spec fn view(&self) -> BotView {
        BotView {
            stone: self.stone,
            name: self.name@,
            iterations: self.iterations as int,
            tree: self.tree@,
        }
    }
}

impl Bot {
    /// A well-formed bot: its tree is well-formed.
    pub closed spec fn wf(self) -> bool {
        self.tree.wf()
    }

    /// Builds a bot of the given colour over an initial game state, with a
    /// fixed search budget per decision and a random seed. The name is
    /// derived from the colour; the tree starts as one fresh root wrapping
    /// the initial state.
    pub fn new(stone: Stone, initial_state: Game, iterations: u32, seed: u64) -> (r: Bot)
        requires
            initial_state.wf(),
        ensures
            r.wf(),
            r@.stone == stone,
            r@.name == spec_stone_name(stone),
            r@.iterations == iterations,
            r@.tree.root == 0,
            r@.tree.steps == 0,
            r@.tree.nodes.len() == 1,
            r@.tree.nodes[0].state == initial_state@,
            r@.tree.nodes[0].won == 0,
            r@.tree.nodes[0].total == 0,
    {
        Bot {
            name: get_stone_name_from_stone(stone),
            stone,
            tree: Tree::new(initial_state),
            iterations,
            rng: rng_from_seed(seed),
        }
    }

    /// The bot's decision: advance the tree's root to the observed real
    /// state (statistics preserved on reuse), run the iteration budget of
    /// search steps, pick the root child with the lowest win/visit ratio,
    /// and commit that child as the new root. With no child to pick — in
    /// particular whenever the observed state is already terminal — the bot
    /// passes. A returned placement is always legal in the given state.
    pub fn next_best_move(&mut self, game: &Game) -> (r: Move)
        requires
            old(self).wf(),
            game.wf(),
        ensures
            final(self).wf(),
            final(self)@.stone == old(self)@.stone,
            final(self)@.name == old(self)@.name,
            final(self)@.iterations == old(self)@.iterations,
            r matches Some(c) ==> step_verdict(game@, Some(c)) == Ok::<(), Signals>(()),
            game@.over ==> r is None,
            exists|t1: TreeView, t2: TreeView|
                #![auto]
                {
                    &&& advances_root(old(self)@.tree, game@, t1)
                    &&& mcts_steps_rel(t1, t2, search_budget(old(self)@.iterations, t1.steps))
                    &&& t2.root == t1.root
                    &&& if t2.nodes[t2.root].children.len() == 0 {
                        r is None && final(self)@.tree == t2
                    } else {
                        exists|c: int|
                            #[trigger] least_winning_choice(t2, t2.root, r, c)
                                && final(self)@.tree == (TreeView { root: c, ..t2 })
                    }
                },
    {
        self.tree.update_root_after_move(game);
        let ghost t1v = self.tree@;
        let steps = self.tree.steps_done();
        let budget: u32 = if u32::MAX - steps < self.iterations {
            u32::MAX - steps
        } else {
            self.iterations
        };
        proof {
            assert(budget as int == search_budget(old(self)@.iterations, t1v.steps));
        }
        self.tree.run_iterations(budget, &mut self.rng);
        let ghost t2v = self.tree@;
        let root = self.tree.root_index();
        if self.tree.node_at(root).get_children().len() > 0 {
            proof {
                assert(self.tree@.nodes[self.tree@.root].children.len() > 0);
                if game@.over {
                    assert(t1v.nodes[t1v.root].state.over);
                    assert(t1v.nodes[t1v.root].children.len() == 0);
                    assert(t2v.nodes[t2v.root].children.len() == 0);
                }
            }
            let (mv, child) = self.tree.best_move();
            proof {
                if mv is Some {
                    assert(step_verdict(game@, mv) == Ok::<(), Signals>(()));
                }
            }
            self.tree.replace_root(child);
            proof {
                assert(self@.tree =~~= (TreeView { root: child as int, ..t2v }));
                assert(least_winning_choice(t2v, t2v.root, mv, child as int));
            }
            mv
        } else {
            None
        }
    }

    /// Chooses the bot's move for the given state.
    pub fn choose_case(&mut self, game: &Game) -> (r: Move)
        requires
            old(self).wf(),
            game.wf(),
        ensures
            final(self).wf(),
            final(self)@.stone == old(self)@.stone,
            final(self)@.name == old(self)@.name,
            final(self)@.iterations == old(self)@.iterations,
            r matches Some(c) ==> step_verdict(game@, Some(c)) == Ok::<(), Signals>(()),
            game@.over ==> r is None,
            exists|t1: TreeView, t2: TreeView|
                #![auto]
                {
                    &&& advances_root(old(self)@.tree, game@, t1)
                    &&& mcts_steps_rel(t1, t2, search_budget(old(self)@.iterations, t1.steps))
                    &&& t2.root == t1.root
                    &&& if t2.nodes[t2.root].children.len() == 0 {
                        r is None && final(self)@.tree == t2
                    } else {
                        exists|c: int|
                            #[trigger] least_winning_choice(t2, t2.root, r, c)
                                && final(self)@.tree == (TreeView { root: c, ..t2 })
                    }
                },
    {
        self.next_best_move(game)
    }
}

impl Player for Bot {
    open spec fn spec_stone(&self) -> Stone {
        self@.stone
    }

    open spec fn spec_name(&self) -> Seq<char> {
        self@.name
    }

    fn get_stone(&self) -> Stone {
        self.stone
    }

    fn get_name(&self) -> &'static str {
        self.name
    }
}

} // verus!
