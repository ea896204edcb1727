use vstd::prelude::*;

pub mod game;
pub mod mcts;

use crate::game::{cell_of, global_status, lemma_cell_of_injective, Board, GameState};
use crate::mcts::{child_of_move, MCTSArena, MCTSNode, NodeId};

verus! {

/// A game in progress together with the search tree that explores it.
pub struct Engine {
    arena: MCTSArena,
    current_node: NodeId,
}

/// The outcome of a search: the suggested move and its win rate for the side to move,
/// in millionths of a percent (hundred-millionths of a win).
#[derive(Debug)]
pub struct Evaluation {
    pub confidence: u64,
    pub best_move: NodeId,
}

/// The one error a caller can meet: a move that no legal transition matches.
#[derive(Clone, Copy, Debug, PartialEq, Eq, Structural)]
pub enum Error {
    IllegalMove,
}

impl Error {
    /// A short human-readable description.
    pub fn as_str(&self) -> (r: &'static str)
        ensures
            r@ == "Illegal move"@,
    {
        match self {
            Error::IllegalMove => "Illegal move",
        }
    }
}

impl Engine {
    pub closed spec fn wf(self) -> bool {
        self.arena.wf() && self.arena.has(self.current_node)
    }

    /// The position the engine stands at.
    pub closed spec fn board_spec(self) -> Board {
        self.arena@[self.current_node.0 as int].board
    }

    pub closed spec fn current_spec(self) -> NodeId {
        self.current_node
    }

    pub closed spec fn arena_spec(self) -> MCTSArena {
        self.arena
    }

    /// An engine at the initial position.
    pub fn init() -> (r: Self)
        ensures
            r.wf(),
            r.board_spec() == Board::initial(),
            r.current_spec() == NodeId(0),
    {
        let arena = MCTSArena::init();
        Self { current_node: arena.root(), arena }
    }

    /// Searches the current position afresh with `n_iters` rounds. The old tree is dropped:
    /// the current position becomes the root of a new one. `None` when the game is over
    /// (or `n_iters` is 0), as the root then has no children.
    pub fn analyze(&mut self, n_iters: u32) -> (r: Option<Evaluation>)
        requires
            old(self).wf(),
        ensures
            final(self).wf(),
            final(self).board_spec() == old(self).board_spec(),
            final(self).current_spec() == NodeId(0),
            r is None <==> !final(self).arena_spec().expanded(NodeId(0)),
            n_iters > 0 && global_status(old(self).board_spec().gx, old(self).board_spec().go)
                == GameState::InProgress ==> r is Some,
            r matches Some(e) ==> final(self).arena_spec().best_answer(
                NodeId(0),
                Some((e.confidence, e.best_move)),
            ),
    {
        let board = self.arena.resolve(&self.current_node).board;
        proof {
            assert(self.arena.shape_ok(self.current_node.0 as int));
        }
        self.arena = MCTSArena::from(board);
        self.current_node = self.arena.root();
        let answer = self.arena.analyze(self.current_node, n_iters);
        match answer {
            None => None,
            Some((confidence, best_move)) => Some(Evaluation { confidence, best_move }),
        }
    }

    /// Moves the engine to `mv`, a node of its tree (such as a suggested best move).
    pub fn step(&mut self, mv: NodeId)
        requires
            old(self).wf(),
            old(self).arena_spec().has(mv),
        ensures
            final(self).wf(),
            final(self).current_spec() == mv,
            final(self).arena_spec() == old(self).arena_spec(),
    {
        self.current_node = mv;
    }

    /// Plays `(sub_board, cell)` from the current position, expanding it first if needed.
    /// On success the engine stands at the child reached by that move.
    pub fn play(&mut self, mve: (u8, u8)) -> (r: Result<(), Error>)
        requires
            old(self).wf(),
        ensures
            final(self).wf(),
            r is Ok ==> {
                let m = Board::move_from_gl_spec(mve.0, mve.1);
                &&& old(self).board_spec().legal(m)
                &&& final(self).board_spec() == old(self).board_spec().play_spec(m)
                &&& final(self).arena_spec()@[final(self).current_spec().0 as int].parent == Some(
                    old(self).current_spec(),
                )
            },
            global_status(old(self).board_spec().gx, old(self).board_spec().go)
                != GameState::InProgress ==> r is Err && *final(self) == *old(self),
            r is Err ==> final(self).board_spec() == old(self).board_spec(),
            r is Err && global_status(old(self).board_spec().gx, old(self).board_spec().go)
                == GameState::InProgress && old(self).arena_spec()@.len() <= usize::MAX - 81
                ==> !old(self).board_spec().legal(Board::move_from_gl_spec(mve.0, mve.1)),
    {
        let m = Board::move_from_gl(mve.0, mve.1);
        if self.is_game_over() {
            return Err(Error::IllegalMove);
        }
        let is_leaf = self.arena.resolve(&self.current_node).children.is_none();
        let ghost old_board = self.board_spec();
        if is_leaf {
            self.arena.analyze(self.current_node, 1);
        }
        assert(self.board_spec() == old_board);
        let ghost cur = self.current_node;
        let node = self.arena.resolve(&self.current_node);
        proof {
            assert(self.arena.shape_ok(cur.0 as int));
        }
        match &node.children {
            None => Err(Error::IllegalMove),
            Some(children) => {
                proof {
                    assert(self.arena.shape_ok(cur.0 as int));
                    assert(self.arena.children_ok(cur.0 as int));
                }
                let mut i: usize = 0;
                while i < children.len()
                    invariant
                        self.wf(),
                        self.current_node == cur,
                        self.board_spec() == old_board,
                        old_board == old(self).board_spec(),
                        cur == old(self).current_spec(),
                        m == Board::move_from_gl_spec(mve.0, mve.1),
                        self.arena.children_ok(cur.0 as int),
                        i <= children@.len(),
                        forall|k: int|
                            0 <= k < i ==> self.arena@[(#[trigger] children@[k]).0 as int].board.last_move
                                != Some(m),
                        children@ == self.arena.children_of(cur),
                    decreases children.len() - i,
                {
                    let child = children[i];
                    let child_node = self.arena.resolve(&child);
                    if child_node.board.last_move == Some(m) {
                        proof {
                            let c = self.arena.children_of(cur)[i as int].0 as int;
                            assert(c == child.0);
                            assert(child_of_move(old_board, child_node.board));
                        }
                        self.step(child);
                        return Ok(());
                    }
                    i += 1;
                }
                proof {
                    if old_board.legal(m) {
                        let k = choose|k: int|
                            0 <= k < children@.len() && cell_of(
                                self.arena@[#[trigger] children@[k].0 as int].board.last_move->0,
                            ) == cell_of(m);
                        let c = children@[k].0 as int;
                        assert(child_of_move(old_board, self.arena@[c].board));
                        lemma_cell_of_injective(self.arena@[c].board.last_move->0, m);
                    }
                }
                Err(Error::IllegalMove)
            },
        }
    }

    pub fn is_game_over(&self) -> (r: bool)
        requires
            self.wf(),
        ensures
            r == (global_status(self.board_spec().gx, self.board_spec().go)
                != GameState::InProgress),
    {
        let node = self.arena.resolve(&self.current_node);
        node.board.game_over()
    }

    pub fn game_state(&self) -> (r: GameState)
        requires
            self.wf(),
        ensures
            r == global_status(self.board_spec().gx, self.board_spec().go),
    {
        let node = self.arena.resolve(&self.current_node);
        node.board.check_game_state()
    }

    /// Read access to a node of the engine's tree.
    pub fn resolve_node(&self, id: &NodeId) -> (r: &MCTSNode)
        requires
            self.arena_spec().has(*id),
        ensures
            *r == self.arena_spec()@[id.0 as int],
    {
        self.arena.resolve(id)
    }

    /// The node the engine stands at.
    pub fn current(&self) -> (r: NodeId)
        ensures
            r == self.current_spec(),
    {
        self.current_node
    }

    /// The search tree.
    pub fn arena(&self) -> (r: &MCTSArena)
        ensures
            *r == self.arena_spec(),
    {
        &self.arena
    }
}

} // verus!
