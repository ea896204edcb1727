use crate::game::{
    cell_of,
    bit, filled, find_kth_high_bit_index, count_cells, global_status, lemma_ones_below_bound,
    ones_below, Board, GameState, Player,
};
use rand::Rng;
use rayon::iter::{IntoParallelRefIterator, ParallelIterator};
use vstd::arithmetic::power2::{lemma2_to64, lemma_pow2_strictly_increases, lemma_pow2_unfold, pow2};
use vstd::prelude::*;

verus! {

/// Relies on rand's `thread_rng().gen_range(0..n)`: a number drawn from `0..n`, which it
/// panics on when the range is empty.
#[verifier::external_body]
fn random_below(n: u32) -> (r: u32)
    requires
        n > 0,
    ensures
        r < n,
{
    rand::thread_rng().gen_range(0..n)
}

proof fn lemma_place_union(x: u128, o: u128, i: u128)
    by (bit_vector)
    ensures
        (x | (1u128 << i)) | o == (x | o) | (1u128 << i),
        x | (o | (1u128 << i)) == (x | o) | (1u128 << i),
{
}

/// `ms` is a line of play from `b`: each move is legal and made while the game is not
/// over.
pub open spec fn valid_line(b: Board, ms: Seq<u8>) -> bool
    decreases ms.len(),
{
    if ms.len() == 0 {
        true
    } else {
        &&& global_status(b.gx, b.go) == GameState::InProgress
        &&& b.legal(ms[0])
        &&& valid_line(b.play_spec(ms[0]), ms.drop_first())
    }
}

/// The board reached from `b` by playing the moves `ms` in order.
pub open spec fn line_end(b: Board, ms: Seq<u8>) -> Board
    decreases ms.len(),
{
    if ms.len() == 0 {
        b
    } else {
        line_end(b.play_spec(ms[0]), ms.drop_first())
    }
}

/// A valid line extended by one more legal move on an unfinished board.
proof fn lemma_line_push(b: Board, ms: Seq<u8>, m: u8)
    requires
        valid_line(b, ms),
        global_status(line_end(b, ms).gx, line_end(b, ms).go) == GameState::InProgress,
        line_end(b, ms).legal(m),
    ensures
        valid_line(b, ms.push(m)),
        line_end(b, ms.push(m)) == line_end(b, ms).play_spec(m),
    decreases ms.len(),
{
    if ms.len() > 0 {
        lemma_line_push(b.play_spec(ms[0]), ms.drop_first(), m);
        assert(ms.push(m).drop_first() =~= ms.drop_first().push(m));
        assert(ms.push(m)[0] == ms[0]);
    } else {
        assert(ms.push(m).drop_first() =~= Seq::<u8>::empty());
        assert(ms.push(m)[0] == m);
        assert(line_end(b, ms) == b);
        assert(line_end(b.play_spec(m), Seq::<u8>::empty()) == b.play_spec(m));
        assert(valid_line(b.play_spec(m), Seq::<u8>::empty()));
    }
}

/// Plays uniformly random legal moves from `board` until the game is over. Returns the
/// final outcome and the number of moves played, which never exceeds the number of empty
/// cells.
pub fn rollout(board: &Board) -> (r: (GameState, u32))
    requires
        board.wf(),
    ensures
        r.0 != GameState::InProgress,
        r.1 + filled(*board) <= 81,
        exists|ms: Seq<u8>|
            {
                &&& #[trigger] valid_line(*board, ms)
                &&& ms.len() == r.1
                &&& r.0 == global_status(line_end(*board, ms).gx, line_end(*board, ms).go)
            },
{
    let mut b = *board;
    let mut plies: u32 = 0;
    let ghost mut line: Seq<u8> = Seq::empty();
    proof {
        lemma_ones_below_bound(board.x | board.o, 81);
    }
    while !b.game_over()
        invariant
            b.wf(),
            filled(b) <= 81,
            plies + filled(*board) == filled(b),
            valid_line(*board, line),
            line_end(*board, line) == b,
            line.len() == plies,
        decreases 81 - filled(b),
    {
        let moves = b.get_moves();
        let num_moves = count_cells(moves);
        proof {
            let i = b.lemma_moves_exist();
            assert(bit(moves, i));
            crate::game::lemma_ones_positive(moves, i, 81);
        }
        let k = random_below(num_moves);
        let found = find_kth_high_bit_index(moves, k);
        let index = match found {
            Some(i) => i,
            None => {
                proof {
                    assert(false);
                }
                0
            },
        };
        let m = Board::move_from_index(index);
        proof {
            assert(bit(moves, index as u128));
            assert(b.legal(m));
            b.lemma_legal_placeable(m);
            let i = crate::game::cell_of(m);
            lemma_place_union(b.x, b.o, i);
            crate::game::lemma_ones_insert(b.x | b.o, i, 81);
            lemma_line_push(*board, line, m);
            line = line.push(m);
        }
        b = b.unchecked_play(m);
        proof {
            lemma_ones_below_bound(b.x | b.o, 81);
        }
        plies = plies + 1;
    }
    let state = b.check_game_state();
    proof {
        assert(valid_line(*board, line));
    }
    (state, plies)
}


/// Wins are kept in hundred-millionths: a win adds this many units and a draw adds one,
/// so that draws rank just above losses without moving the win rate.
pub const WIN_UNITS: u64 = 100_000_000;

/// A stable handle to a node of one arena.
#[derive(Clone, Copy, Debug, PartialEq, Eq, Structural)]
pub struct NodeId(pub usize);

/// One node of the search tree. `children` is `None` until the node is expanded, and
/// stays `None` on a finished position.
#[derive(Debug)]
pub struct MCTSNode {
    pub board: Board,
    pub wins: u64,
    pub visits: u64,
    pub parent: Option<NodeId>,
    pub children: Option<Vec<NodeId>>,
}

/// The search tree: an append-only pool of nodes, with the root at index 0.
#[derive(Debug)]
pub struct MCTSArena {
    nodes: Vec<MCTSNode>,
}

/// The board `c` is `p` after one legal move, and records that move.
pub open spec fn child_of_move(p: Board, c: Board) -> bool {
    &&& c.last_move is Some
    &&& p.legal(c.last_move->0)
    &&& c == p.play_spec(c.last_move->0)
}

pub open spec fn saturated_add(a: u64, b: u64) -> u64 {
    if a + b > u64::MAX {
        u64::MAX
    } else {
        (a + b) as u64
    }
}

impl View for MCTSArena {
    type V = Seq<MCTSNode>;

    closed spec fn view(&self) -> Seq<MCTSNode> {
        self.nodes@
    }
}

impl MCTSArena {
    pub open spec fn has(self, id: NodeId) -> bool {
        id.0 < self@.len()
    }

    pub open spec fn visits_of(self, id: NodeId) -> u64 {
        self@[id.0 as int].visits
    }

    pub open spec fn children_of(self, id: NodeId) -> Seq<NodeId> {
        self@[id.0 as int].children->0@
    }

    pub open spec fn expanded(self, id: NodeId) -> bool {
        self@[id.0 as int].children is Some
    }

    /// The children of an expanded node: at least one, each created after it, pointing
    /// back to it, each the result of one legal move, and one for every legal cell; a
    /// finished position is never expanded.
    pub open spec fn children_ok(self, i: int) -> bool {
        let n = self@[i];
        let cs = n.children->0@;
        &&& cs.len() > 0
        &&& global_status(n.board.gx, n.board.go) == GameState::InProgress
        &&& forall|k: int|
            0 <= k < cs.len() ==> {
                let c = #[trigger] cs[k].0 as int;
                &&& i < c < self@.len()
                &&& self@[c].parent == Some(NodeId(i as usize))
                &&& child_of_move(n.board, self@[c].board)
            }
        &&& forall|j: u128|
            #[trigger] n.board.legal_cell(j) ==> exists|k: int|
                0 <= k < cs.len() && cell_of(self@[#[trigger] cs[k].0 as int].board.last_move->0) == j
    }

    /// The shape of node `i`: a well-formed board, a parent created before it (all but the
    /// root), and well-formed children once expanded.
    pub open spec fn shape_ok(self, i: int) -> bool {
        let n = self@[i];
        &&& n.board.wf()
        &&& (i == 0) == (n.parent is None)
        &&& n.parent is Some ==> (n.parent->0).0 < i
        &&& n.children is Some ==> self.children_ok(i)
    }

    /// A node has no more visits than its parent.
    pub open spec fn visits_ok(self, i: int) -> bool {
        let n = self@[i];
        n.parent is Some ==> self@[(n.parent->0).0 as int].visits >= n.visits
    }

    /// Every child of an expanded node has been visited.
    pub open spec fn visited(self, i: int) -> bool {
        let n = self@[i];
        n.children is Some ==> forall|k: int|
            0 <= k < n.children->0@.len() ==> self@[#[trigger] n.children->0@[k].0 as int].visits
                >= 1
    }

    /// A node's wins never exceed one win per visit.
    pub open spec fn stats_ok(self, i: int) -> bool {
        self@[i].wins <= self@[i].visits * WIN_UNITS
    }

    pub open spec fn wf_tree(self) -> bool {
        &&& self@.len() > 0
        &&& forall|i: int| 0 <= i < self@.len() ==> #[trigger] self.stats_ok(i)
        &&& forall|i: int| 0 <= i < self@.len() ==> #[trigger] self.shape_ok(i)
        &&& forall|i: int| 0 <= i < self@.len() ==> #[trigger] self.visits_ok(i)
    }

    /// The invariant kept between public operations.
    pub open spec fn wf(self) -> bool {
        &&& self.wf_tree()
        &&& forall|i: int| 0 <= i < self@.len() ==> #[trigger] self.visited(i)
    }

    /// Same boards, parents and children; only the statistics may differ.
    pub open spec fn same_shape(self, other: MCTSArena) -> bool {
        &&& self@.len() == other@.len()
        &&& forall|i: int|
            0 <= i < self@.len() ==> {
                &&& (#[trigger] self@[i]).board == other@[i].board
                &&& self@[i].parent == other@[i].parent
                &&& self@[i].children == other@[i].children
            }
    }

    /// No node lost a visit.
    pub open spec fn visits_grew(self, later: MCTSArena) -> bool {
        forall|i: int| 0 <= i < self@.len() ==> #[trigger] later@[i].visits >= self@[i].visits
    }

    /// An arena holding one unexpanded root node for `board`.
    pub fn from(board: Board) -> (r: Self)
        requires
            board.wf(),
        ensures
            r.wf(),
            r@.len() == 1,
            r@[0].board == board,
            r@[0].visits == 0,
            r@[0].wins == 0,
            r@[0].children is None,
    {
        let root = MCTSNode { board, wins: 0, visits: 0, parent: None, children: None };
        let mut nodes: Vec<MCTSNode> = Vec::new();
        nodes.push(root);
        let r = MCTSArena { nodes };
        proof {
            assert(r.shape_ok(0));
            assert(r.visits_ok(0));
            assert(r.visited(0));
        }
        r
    }

    /// An arena for the initial position.
    pub fn init() -> (r: Self)
        ensures
            r.wf(),
            r@.len() == 1,
            r@[0].board == Board::initial(),
            r@[0].visits == 0,
            r@[0].wins == 0,
            r@[0].children is None,
    {
        Self::from(Board::default())
    }

    pub fn root(&self) -> (r: NodeId)
        ensures
            r == NodeId(0),
    {
        NodeId(0)
    }

    /// The number of nodes.
    pub fn len(&self) -> (r: usize)
        ensures
            r == self@.len(),
    {
        self.nodes.len()
    }

    /// Read access to a node.
    pub fn resolve(&self, id: &NodeId) -> (r: &MCTSNode)
        requires
            self.has(*id),
        ensures
            *r == self@[id.0 as int],
    {
        &self.nodes[id.0]
    }
}


impl MCTSArena {
    /// Position `k` of `cs` holds the most visited node, and no earlier position ties it.
    pub open spec fn first_most_visited(self, cs: Seq<NodeId>, k: int) -> bool {
        &&& 0 <= k < cs.len()
        &&& forall|j: int| 0 <= j < cs.len() ==> self.visits_of(#[trigger] cs[j]) <= self.visits_of(cs[k])
        &&& forall|j: int| 0 <= j < k ==> self.visits_of(#[trigger] cs[j]) < self.visits_of(cs[k])
    }

    /// The most visited child (the first one among equals); `None` for a node that has no
    /// children.
    pub fn select_best_child(&self, id: NodeId) -> (r: Option<NodeId>)
        requires
            self.wf(),
            self.has(id),
        ensures
            !self.expanded(id) ==> r is None,
            self.expanded(id) ==> exists|k: int|
                self.first_most_visited(self.children_of(id), k) && r == Some(
                    #[trigger] self.children_of(id)[k],
                ),
            r matches Some(c) ==> self.has(c) && self.visits_of(c) > 0,
    {
        let node = &self.nodes[id.0];
        match &node.children {
            None => None,
            Some(children) => {
                proof {
                    assert(self.shape_ok(id.0 as int));
                    assert(self.visited(id.0 as int));
                }
                let mut best: usize = 0;
                let mut best_visits: u64 = self.nodes[children[0].0].visits;
                let mut i: usize = 1;
                while i < children.len()
                    invariant
                        children@ == self.children_of(id),
                        0 < i <= children@.len(),
                        best < i,
                        best_visits == self.visits_of(children@[best as int]),
                        self.wf(),
                        self.has(id),
                        self.children_ok(id.0 as int),
                        forall|j: int| 0 <= j < i ==> self.visits_of(#[trigger] children@[j]) <= best_visits,
                        forall|j: int| 0 <= j < best ==> self.visits_of(#[trigger] children@[j]) < best_visits,
                    decreases children.len() - i,
                {
                    let v = self.nodes[children[i].0].visits;
                    if v > best_visits {
                        best = i;
                        best_visits = v;
                    }
                    i += 1;
                }
                proof {
                    assert(self.first_most_visited(self.children_of(id), best as int));
                }
                Some(children[best])
            },
        }
    }

    /// A node that has a parent has no more visits than that parent.
    pub proof fn lemma_parent_visits(self, id: NodeId)
        requires
            self.wf(),
            self.has(id),
            self@[id.0 as int].parent is Some,
        ensures
            self.visits_of(self@[id.0 as int].parent->0) >= self.visits_of(id),
    {
        assert(self.visits_ok(id.0 as int));
    }

    /// Every child of an expanded node has been visited, so the best child of any
    /// expanded node has at least one visit.
    pub proof fn lemma_children_visited(self, id: NodeId, k: int)
        requires
            self.wf(),
            self.has(id),
            self.expanded(id),
            0 <= k < self.children_of(id).len(),
        ensures
            self.visits_of(self.children_of(id)[k]) > 0,
    {
        assert(self.visited(id.0 as int));
    }
}


/// What one playout result adds to the wins of a node, for the side `player`.
pub open spec fn gain_spec(result: GameState, player: Player) -> u64 {
    match result {
        GameState::Won(w) => if w == player {
            WIN_UNITS
        } else {
            0
        },
        GameState::Draw => 1,
        GameState::InProgress => 0,
    }
}

fn gain(result: GameState, player: Player) -> (r: u64)
    ensures
        r == gain_spec(result, player),
{
    match result {
        GameState::Won(w) => if w == player {
            WIN_UNITS
        } else {
            0
        },
        GameState::Draw => 1,
        GameState::InProgress => 0,
    }
}

/// `a` capped at the largest `u64`.
pub open spec fn capped(a: int) -> u64 {
    if a > u64::MAX {
        u64::MAX
    } else if a < 0 {
        0
    } else {
        a as u64
    }
}

impl MCTSArena {
    /// Node `a` lies on the parent path from node `d` up to the root, `d` included.
    pub open spec fn is_ancestor(self, a: int, d: int) -> bool
        decreases d,
    {
        if d == a {
            true
        } else if d <= 0 || d >= self@.len() {
            false
        } else {
            match self@[d].parent {
                Some(p) => if (p.0 as int) < d {
                    self.is_ancestor(a, p.0 as int)
                } else {
                    false
                },
                None => false,
            }
        }
    }

    /// The number of results whose node has `n` on its path to the root.
    pub open spec fn visits_through(self, results: Seq<(NodeId, GameState)>, n: int) -> nat
        decreases results.len(),
    {
        if results.len() == 0 {
            0
        } else {
            self.visits_through(results.drop_last(), n) + if self.is_ancestor(
                n,
                results.last().0.0 as int,
            ) {
                1nat
            } else {
                0nat
            }
        }
    }

    /// The wins that the results passing through `n` bring to it, for `player`.
    pub open spec fn wins_through(
        self,
        results: Seq<(NodeId, GameState)>,
        n: int,
        player: Player,
    ) -> nat
        decreases results.len(),
    {
        if results.len() == 0 {
            0
        } else {
            self.wins_through(results.drop_last(), n, player) + if self.is_ancestor(
                n,
                results.last().0.0 as int,
            ) {
                gain_spec(results.last().1, player) as nat
            } else {
                0nat
            }
        }
    }

    /// The root lies on the path of every node.
    proof fn lemma_root_ancestor(self, n: int)
        requires
            self.wf_tree(),
            0 <= n < self@.len(),
        ensures
            self.is_ancestor(0, n),
        decreases n,
    {
        assert(self.shape_ok(n));
        if n != 0 {
            let p = (self@[n].parent->0).0 as int;
            self.lemma_root_ancestor(p);
        }
    }

    /// Every result passes through the root.
    proof fn lemma_root_through(self, results: Seq<(NodeId, GameState)>)
        requires
            self.wf_tree(),
            forall|k: int| 0 <= k < results.len() ==> self.has((#[trigger] results[k]).0),
        ensures
            self.visits_through(results, 0) == results.len(),
        decreases results.len(),
    {
        if results.len() > 0 {
            let last = results.len() - 1;
            assert(self.has(results[last].0));
            self.lemma_root_ancestor(results.last().0.0 as int);
            assert forall|k: int| 0 <= k < results.drop_last().len() implies self.has((#[trigger] results.drop_last()[k]).0) by {
                assert(results.drop_last()[k] == results[k]);
            }
            self.lemma_root_through(results.drop_last());
        }
    }

    proof fn lemma_ancestor_le(self, a: int, d: int)
        requires
            self.is_ancestor(a, d),
        ensures
            a <= d,
        decreases d,
    {
        if d != a {
            let p = (self@[d].parent->0).0 as int;
            self.lemma_ancestor_le(a, p);
        }
    }

    proof fn lemma_ancestor_comparable(self, a: int, b: int, d: int)
        requires
            self.is_ancestor(a, d),
            self.is_ancestor(b, d),
        ensures
            self.is_ancestor(a, b) || self.is_ancestor(b, a),
        decreases d,
    {
        if d != a && d != b {
            let p = (self@[d].parent->0).0 as int;
            self.lemma_ancestor_comparable(a, b, p);
        }
    }

    proof fn lemma_ancestor_trans(self, a: int, b: int, c: int)
        requires
            self.is_ancestor(a, b),
            self.is_ancestor(b, c),
        ensures
            self.is_ancestor(a, c),
        decreases c,
    {
        if c != b {
            let p = (self@[c].parent->0).0 as int;
            self.lemma_ancestor_trans(a, b, p);
        }
    }

    proof fn lemma_ancestor_same(self, other: MCTSArena, a: int, d: int)
        requires
            self.same_shape(other),
        ensures
            self.is_ancestor(a, d) == other.is_ancestor(a, d),
        decreases d,
    {
        if d != a && 0 < d < self@.len() {
            assert(self@[d].parent == other@[d].parent);
            if let Some(p) = self@[d].parent {
                if (p.0 as int) < d {
                    self.lemma_ancestor_same(other, a, p.0 as int);
                }
            }
        }
    }
}

impl MCTSArena {
    /// `visits_ok`, except that the node `cur`, whose child was just counted, may be one
    /// visit behind that child.
    pub open spec fn visits_ok_below(self, i: int, cur: int) -> bool {
        let n = self@[i];
        n.parent is Some ==> {
            let p = (n.parent->0).0 as int;
            self@[p].visits >= n.visits || (p == cur && self@[p].visits + 1 >= n.visits)
        }
    }

    /// Counts one playout that ended in `result` at node `id` and at each of its ancestors
    /// up to the root: one more visit each, and `gain_spec(result, player)` more wins.
    fn backpropagate_path(&mut self, id: NodeId, result: GameState, player: Player)
        requires
            old(self).wf_tree(),
            old(self).has(id),
        ensures
            final(self).wf_tree(),
            final(self).same_shape(*old(self)),
            old(self).visits_grew(*final(self)),
            final(self).visits_of(id) == saturated_add(old(self).visits_of(id), 1),
            final(self)@[0].visits == saturated_add(old(self)@[0].visits, 1),
            final(self)@[id.0 as int].wins == saturated_add(
                old(self)@[id.0 as int].wins,
                gain_spec(result, player),
            ),
            final(self)@[0].wins == saturated_add(old(self)@[0].wins, gain_spec(result, player)),
            forall|n: int|
                0 <= n < old(self)@.len() ==> (#[trigger] final(self)@[n]).visits == if old(
                    self,
                ).is_ancestor(n, id.0 as int) {
                    saturated_add(old(self)@[n].visits, 1)
                } else {
                    old(self)@[n].visits
                },
            forall|n: int|
                0 <= n < old(self)@.len() ==> (#[trigger] final(self)@[n]).wins == if old(
                    self,
                ).is_ancestor(n, id.0 as int) {
                    saturated_add(old(self)@[n].wins, gain_spec(result, player))
                } else {
                    old(self)@[n].wins
                },
    {
        let g = gain(result, player);
        let mut cur: usize = id.0;
        let mut done = false;
        let ghost start = *self;
        proof {
            assert forall|i: int| 0 <= i < self@.len() implies #[trigger] self.visits_ok_below(i, cur as int) by {
                assert(self.visits_ok(i));
            }
            assert forall|n: int| 0 <= n < self@.len() && start.is_ancestor(n, id.0 as int) implies n <= cur by {
                start.lemma_ancestor_le(n, id.0 as int);
            }
        }
        while !done
            invariant
                self.same_shape(start),
                start.wf_tree(),
                start.has(id),
                start.visits_grew(*self),
                cur < self@.len(),
                self@.len() == start@.len(),
                forall|i: int| 0 <= i < self@.len() ==> #[trigger] self.shape_ok(i),
                forall|i: int| 0 <= i < self@.len() ==> #[trigger] self.stats_ok(i),
                g <= WIN_UNITS,
                done ==> forall|i: int| 0 <= i < self@.len() ==> #[trigger] self.visits_ok(i),
                !done ==> forall|i: int|
                    0 <= i < self@.len() ==> #[trigger] self.visits_ok_below(i, cur as int),
                forall|j: int| 0 <= j < cur ==> #[trigger] self@[j].visits == start@[j].visits,
                forall|j: int| 0 <= j < cur ==> #[trigger] self@[j].wins == start@[j].wins,
                g == gain_spec(result, player),
                !done ==> self@[cur as int].wins == start@[cur as int].wins,
                cur < id.0 || done ==> self@[id.0 as int].wins == saturated_add(start@[id.0 as int].wins, g),
                done ==> self@[0].wins == saturated_add(start@[0].wins, g),
                cur < id.0 ==> self.visits_of(id) == saturated_add(start.visits_of(id), 1),
                cur == id.0 && !done ==> self.visits_of(id) == start.visits_of(id),
                cur == id.0 && done ==> self.visits_of(id) == saturated_add(start.visits_of(id), 1),
                cur <= id.0,
                !done ==> self@[cur as int].visits == start@[cur as int].visits,
                done ==> cur == 0,
                cur > 0 || !done ==> self@[0].visits == start@[0].visits,
                done ==> self@[0].visits == saturated_add(start@[0].visits, 1),
                start.is_ancestor(cur as int, id.0 as int),
                forall|n: int|
                    0 <= n < self@.len() ==> (#[trigger] self@[n]).visits == if start.is_ancestor(
                        n,
                        id.0 as int,
                    ) && (done || n > cur) {
                        saturated_add(start@[n].visits, 1)
                    } else {
                        start@[n].visits
                    },
                forall|n: int|
                    0 <= n < self@.len() ==> (#[trigger] self@[n]).wins == if start.is_ancestor(
                        n,
                        id.0 as int,
                    ) && (done || n > cur) {
                        saturated_add(start@[n].wins, g)
                    } else {
                        start@[n].wins
                    },
            decreases cur + if done { 0usize } else { 1usize },
        {
            let ghost before = *self;
            let v = self.nodes[cur].visits;
            let w = self.nodes[cur].wins;
            self.nodes[cur].visits = v.saturating_add(1);
            self.nodes[cur].wins = w.saturating_add(g);
            proof {
                assert(self@ == before@.update(cur as int, self@[cur as int]));
                assert(self@[cur as int].visits == saturated_add(before@[cur as int].visits, 1));
                assert(self.same_shape(before));
                assert forall|i: int| 0 <= i < self@.len() implies #[trigger] self.shape_ok(i) by {
                    assert(before.shape_ok(i));
                    if self@[i].children is Some {
                        assert(before.children_ok(i));
                    }
                }
                assert(before.shape_ok(cur as int));
                assert(start.shape_ok(cur as int));
                assert(before.stats_ok(cur as int));
                assert(self@[cur as int].wins == saturated_add(w, g));
                assert(saturated_add(w, g) <= saturated_add(v, 1) * WIN_UNITS) by (nonlinear_arith)
                    requires
                        w <= v * WIN_UNITS,
                        g <= WIN_UNITS,
                ;
                assert forall|i: int| 0 <= i < self@.len() implies #[trigger] self.stats_ok(i) by {
                    if i != cur as int {
                        assert(before.stats_ok(i));
                    }
                }
            }
            match self.nodes[cur].parent {
                Some(p) => {
                    proof {
                        assert(start.shape_ok(cur as int));
                        assert(start.is_ancestor(p.0 as int, p.0 as int));
                        assert(start.is_ancestor(p.0 as int, cur as int));
                        start.lemma_ancestor_trans(p.0 as int, cur as int, id.0 as int);
                        assert forall|n: int| 0 <= n < self@.len() && start.is_ancestor(n, id.0 as int) && n > p.0 && n < cur implies false by {
                            start.lemma_ancestor_comparable(n, cur as int, id.0 as int);
                            if start.is_ancestor(cur as int, n) {
                                start.lemma_ancestor_le(cur as int, n);
                            } else {
                                start.lemma_ancestor_le(n, p.0 as int);
                            }
                        }
                        assert forall|n: int| 0 <= n < self@.len() implies (#[trigger] self@[n]).visits == if start.is_ancestor(n, id.0 as int) && n > p.0 {
                            saturated_add(start@[n].visits, 1)
                        } else {
                            start@[n].visits
                        } && self@[n].wins == if start.is_ancestor(n, id.0 as int) && n > p.0 {
                            saturated_add(start@[n].wins, g)
                        } else {
                            start@[n].wins
                        } by {
                            if n != cur as int {
                                assert(self@[n] == before@[n]);
                            }
                        }
                        assert(start.visits_ok(cur as int));
                        assert forall|i: int| 0 <= i < self@.len() implies #[trigger] self.visits_ok_below(i, p.0 as int) by {
                            assert(before.visits_ok_below(i, cur as int));
                            assert(start.visits_ok(i));
                            assert(start.shape_ok(i));
                            if i != cur as int {
                                assert(self@[i] == before@[i]);
                            }
                        }
                    }
                    cur = p.0;
                },
                None => {
                    proof {
                        assert(start.shape_ok(cur as int));
                        assert forall|n: int| 0 <= n < self@.len() implies (#[trigger] self@[n]).visits == if start.is_ancestor(n, id.0 as int) {
                            saturated_add(start@[n].visits, 1)
                        } else {
                            start@[n].visits
                        } && self@[n].wins == if start.is_ancestor(n, id.0 as int) {
                            saturated_add(start@[n].wins, g)
                        } else {
                            start@[n].wins
                        } by {
                            if n != cur as int {
                                assert(self@[n] == before@[n]);
                            }
                        }
                        assert forall|i: int| 0 <= i < self@.len() implies #[trigger] self.visits_ok(i) by {
                            assert(before.visits_ok_below(i, cur as int));
                            assert(start.shape_ok(i));
                            if i != cur as int {
                                assert(self@[i] == before@[i]);
                            }
                        }
                    }
                    done = true;
                },
            }
        }
        proof {
            assert forall|i: int| 0 <= i < self@.len() implies #[trigger] self.visits_ok(i) by {}
        }
    }
}


impl MCTSArena {
    /// Node `i` holds the same board, statistics and parent in both arenas.
    pub open spec fn same_node(self, other: MCTSArena, i: int) -> bool {
        &&& self@[i].board == other@[i].board
        &&& self@[i].visits == other@[i].visits
        &&& self@[i].wins == other@[i].wins
        &&& self@[i].parent == other@[i].parent
    }

    /// Expands the unexpanded node `id`: one new child per legal move, in cell order, each
    /// holding the board after that move and no statistics. Returns `false`, and changes
    /// nothing, when the arena cannot take 81 more nodes.
    fn expand(&mut self, id: NodeId) -> (r: bool)
        requires
            old(self).wf_tree(),
            old(self).has(id),
            !old(self).expanded(id),
            global_status(old(self)@[id.0 as int].board.gx, old(self)@[id.0 as int].board.go)
                == GameState::InProgress,
        ensures
            r == (old(self)@.len() <= usize::MAX - 81),
            !r ==> *final(self) == *old(self),
            r ==> {
                &&& final(self).wf_tree()
                &&& final(self).expanded(id)
                &&& final(self)@.len() > old(self)@.len()
                &&& forall|i: int| 0 <= i < old(self)@.len() ==> #[trigger] final(self).same_node(*old(self), i)
                &&& forall|i: int|
                    0 <= i < old(self)@.len() && i != id.0 ==> (#[trigger] final(self)@[i]).children
                        == old(self)@[i].children
                &&& forall|k: int|
                    0 <= k < final(self).children_of(id).len() ==> (#[trigger] final(self).children_of(id)[k]).0
                        == old(self)@.len() + k
                &&& final(self).children_of(id).len() == final(self)@.len() - old(self)@.len()
                &&& final(self)@.len() <= old(self)@.len() + 81
                &&& forall|i: int|
                    old(self)@.len() <= i < final(self)@.len() ==> (#[trigger] final(self)@[i]).visits == 0
                        && final(self)@[i].wins == 0 && final(self)@[i].children is None
                &&& forall|a: int, b: int|
                    old(self)@.len() <= a < b < final(self)@.len() ==> cell_of(
                        (#[trigger] final(self)@[a]).board.last_move->0,
                    ) < cell_of((#[trigger] final(self)@[b]).board.last_move->0)
            },
    {
        if self.nodes.len() > usize::MAX - 81 {
            return false;
        }
        let ghost start = *self;
        let board = self.nodes[id.0].board;
        proof {
            assert(start.shape_ok(id.0 as int));
        }
        let moves = board.get_moves();
        let ghost some_cell = board.lemma_moves_exist();
        let mut children: Vec<NodeId> = Vec::new();
        let mut i: u8 = 0;
        proof {
            assert(start.shape_ok(id.0 as int));
        }
        while i < 81
            invariant
                i <= 81,
                start.wf_tree(),
                start.has(id),
                board == start@[id.0 as int].board,
                board.wf(),
                forall|j: u128| j < 128 ==> #[trigger] bit(moves, j) == board.legal_cell(j),
                start@.len() <= usize::MAX - 81,
                self@.len() == start@.len() + children@.len(),
                children@.len() <= i,
                forall|j: int| 0 <= j < start@.len() ==> #[trigger] self@[j] == start@[j],
                forall|k: int|
                    0 <= k < children@.len() ==> (#[trigger] children@[k]).0 == start@.len() + k,
                forall|j: int|
                    start@.len() <= j < self@.len() ==> {
                        &&& (#[trigger] self@[j]).visits == 0
                        &&& self@[j].wins == 0
                        &&& self@[j].children is None
                        &&& self@[j].parent == Some(id)
                        &&& child_of_move(board, self@[j].board)
                        &&& self@[j].board.wf()
                    },
                some_cell < i ==> children@.len() > 0,
                forall|j: int|
                    start@.len() <= j < self@.len() ==> cell_of(
                        (#[trigger] self@[j]).board.last_move->0,
                    ) < i,
                forall|a: int, b: int|
                    start@.len() <= a < b < self@.len() ==> cell_of(
                        (#[trigger] self@[a]).board.last_move->0,
                    ) < cell_of((#[trigger] self@[b]).board.last_move->0),
                forall|j: u128|
                    j < i && #[trigger] board.legal_cell(j) ==> exists|k: int|
                        0 <= k < children@.len() && cell_of(
                            self@[#[trigger] children@[k].0 as int].board.last_move->0,
                        ) == j,
                some_cell < 81,
                bit(moves, some_cell),
            decreases 81 - i,
        {
            let ghost prev = *self;
            let ghost prev_children = children@;
            if (moves >> i as u128) & 1 == 1 {
                let m = Board::move_from_index(i);
                proof {
                    assert(bit(moves, i as u128));
                    board.lemma_legal_placeable(m);
                }
                let child_board = board.unchecked_play(m);
                let child = MCTSNode {
                    board: child_board,
                    wins: 0,
                    visits: 0,
                    parent: Some(id),
                    children: None,
                };
                self.nodes.push(child);
                children.push(NodeId(self.nodes.len() - 1));
                proof {
                    assert forall|j: u128|
                        j < i + 1 && #[trigger] board.legal_cell(j) implies exists|k: int|
                            0 <= k < children@.len() && cell_of(
                                self@[#[trigger] children@[k].0 as int].board.last_move->0,
                            ) == j by {
                        if j == i as u128 {
                            let k = children@.len() - 1;
                            assert(cell_of(self@[children@[k].0 as int].board.last_move->0) == j);
                        } else {
                            let k = choose|k: int|
                                0 <= k < prev_children.len() && cell_of(
                                    prev@[#[trigger] prev_children[k].0 as int].board.last_move->0,
                                ) == j;
                            assert(children@[k] == prev_children[k]);
                            assert(self@[children@[k].0 as int] == prev@[prev_children[k].0 as int]);
                        }
                    }
                }
            } else {
                proof {
                    assert(!bit(moves, i as u128)) by (bit_vector)
                        requires
                            (moves >> i as u128) & 1 != 1,
                    ;
                }
            }
            i = i + 1;
        }
        let ghost filled_arena = *self;
        self.nodes[id.0].children = Some(children);
        proof {
            assert forall|j: int| 0 <= j < self@.len() implies #[trigger] self.shape_ok(j) by {
                if j < start@.len() {
                    assert(start.shape_ok(j));
                    if j != id.0 && self@[j].children is Some {
                        assert(start.children_ok(j));
                        assert(self.children_ok(j));
                    }
                    if j == id.0 {
                        assert(self.children_ok(j));
                    }
                } else {
                    assert(filled_arena@[j] == self@[j]);
                    assert(start.shape_ok((id.0) as int));
                }
            }
            assert forall|j: int| 0 <= j < self@.len() implies #[trigger] self.visits_ok(j) by {
                if j < start@.len() {
                    assert(start.visits_ok(j));
                    assert(start.shape_ok(j));
                }
            }
            assert forall|j: int| 0 <= j < start@.len() implies #[trigger] self.same_node(start, j) by {}
            assert forall|j: int| 0 <= j < self@.len() implies #[trigger] self.stats_ok(j) by {
                if j < start@.len() {
                    assert(start.stats_ok(j));
                }
            }
        }
        true
    }
}


/// ln 2 in units of 1/65536.
pub const LN2_FIXED: u128 = 45426;

/// The square of the win unit: the exploration term is a square root taken in win units.
pub const WIN_UNITS_SQUARED: u128 = 10_000_000_000_000_000;

/// The key of a child that has no visit yet: above every score, so it is tried first.
pub const UNVISITED_KEY: u128 = 0x1_0000_0000_0000_0000_0000_0000;

pub open spec fn log2_floor(n: nat) -> nat
    decreases n,
{
    if n <= 1 {
        0
    } else {
        1 + log2_floor(n / 2)
    }
}

/// The bend of log2 between powers of two: `log2(1 + f)` is taken as
/// `f + LOG2_BEND / 65536 * f * (1 - f)` for `f` in `[0, 1)`.
pub const LOG2_BEND: u128 = 22708;

/// The natural logarithm of `n` in units of 1/65536; 0 for 0. The binary exponent is
/// exact and the fraction between powers of two is bent by `LOG2_BEND`, which keeps the
/// result within 0.006 of `ln(n)`.
pub open spec fn ln_fixed(n: nat) -> nat {
    let e = log2_floor(n);
    if n == 0 {
        0
    } else {
        let frac: int = (n - pow2(e)) * 65536 / (pow2(e) as int);
        let bend: int = frac * (65536 - frac) * LOG2_BEND / 0x1_0000_0000;
        (LN2_FIXED * (e * 65536 + frac + bend) / 65536) as nat
    }
}

pub open spec fn is_root(r: nat, q: nat) -> bool {
    r * r <= q && q < (r + 1) * (r + 1)
}

/// The integer square root: the `r` with `r * r <= q < (r + 1) * (r + 1)`.
pub open spec fn isqrt(q: nat) -> nat {
    choose|r: nat| #[trigger] is_root(r, q)
}

/// `2 ln(parent_visits) / visits`, in squared win units.
pub open spec fn explore_arg(parent_visits: nat, visits: nat) -> nat {
    (2 * ln_fixed(parent_visits) * WIN_UNITS_SQUARED / (visits * 65536) as int) as nat
}

/// The UCT score `wins / visits + sqrt(2) * sqrt(ln(parent_visits) / visits)` in win units.
pub open spec fn uct_score(wins: nat, visits: nat, parent_visits: nat) -> nat {
    wins / visits + isqrt(explore_arg(parent_visits, visits))
}

/// The rank used to descend the tree: unvisited children first, then by UCT score.
pub open spec fn uct_key(wins: nat, visits: nat, parent_visits: nat) -> nat {
    if visits == 0 {
        UNVISITED_KEY as nat
    } else {
        uct_score(wins, visits, parent_visits)
    }
}

proof fn lemma_isqrt_unique(q: nat, r: nat)
    requires
        r * r <= q < (r + 1) * (r + 1),
    ensures
        isqrt(q) == r,
{
    assert(is_root(r, q));
    let s = isqrt(q);
    assert(s * s <= q < (s + 1) * (s + 1));
    if s < r {
        assert((s + 1) * (s + 1) <= r * r) by (nonlinear_arith)
            requires
                s < r,
        ;
    } else if r < s {
        assert((r + 1) * (r + 1) <= s * s) by (nonlinear_arith)
            requires
                r < s,
        ;
    }
}

/// Integer square root by bisection.
fn integer_sqrt(q: u128) -> (r: u128)
    requires
        q < 0x1_0000_0000_0000_0000_0000,
    ensures
        r == isqrt(q as nat),
        r < 0x100_0000_0000,
{
    let mut lo: u128 = 0;
    let mut hi: u128 = 0x100_0000_0000;
    while hi - lo > 1
        invariant
            lo < hi <= 0x100_0000_0000,
            lo * lo <= q,
            q < hi * hi,
        decreases hi - lo,
    {
        let mid = lo + (hi - lo) / 2;
        assert(mid * mid <= 0x100_0000_0000 * 0x100_0000_0000) by (nonlinear_arith)
            requires
                mid < 0x100_0000_0000,
        ;
        if mid * mid <= q {
            lo = mid;
        } else {
            hi = mid;
        }
    }
    proof {
        lemma_isqrt_unique(q as nat, lo as nat);
    }
    lo
}

/// The natural logarithm of `n` in units of 1/65536 (see `ln_fixed`).
fn ln_fixed_of(n: u64) -> (r: u128)
    ensures
        r == ln_fixed(n as nat),
        r <= LN2_FIXED * 66,
{
    if n == 0 {
        return 0;
    }
    let mut m: u64 = n;
    let mut e: u128 = 0;
    let mut p: u128 = 1;
    proof {
        lemma2_to64();
    }
    while m > 1
        invariant
            m >= 1,
            log2_floor(n as nat) == e + log2_floor(m as nat),
            p == pow2(e as nat),
            p * m <= n,
            n < p * (m + 1),
            p >= 1,
            e <= 64,
        decreases m,
    {
        proof {
            lemma_pow2_unfold((e + 1) as nat);
            assert(2 * p * (m / 2) <= p * m) by (nonlinear_arith)
                requires
                    m >= 2,
            ;
            assert(n < 2 * p * (m / 2 + 1)) by (nonlinear_arith)
                requires
                    m >= 2,
                    n < p * (m + 1),
                    p >= 1,
            ;
            assert(2 * p <= n) by (nonlinear_arith)
                requires
                    m >= 2,
                    p * m <= n,
            ;
            lemma2_to64();
            if e + 1 > 64 {
                lemma_pow2_strictly_increases(64, (e + 1) as nat);
            }
        }
        m = m / 2;
        e = e + 1;
        p = p * 2;
    }
    proof {
        lemma2_to64();
        if e == 64 {
            assert(false);
        }
        assert(m == 1);
        assert(p * (m + 1) == 2 * p);
    }
    let frac = (n as u128 - p) * 65536 / p;
    assert(frac < 65536) by (nonlinear_arith)
        requires
            frac == ((n - p) * 65536) / (p as int),
            p >= 1,
            p <= n,
            n < 2 * p,
    ;
    assert(frac * (65536 - frac) <= 0x1_0000_0000) by (nonlinear_arith)
        requires
            frac < 65536,
    ;
    let spread = frac * (65536 - frac);
    assert(spread * LOG2_BEND <= 0x1_0000_0000 * LOG2_BEND) by (nonlinear_arith)
        requires
            spread <= 0x1_0000_0000,
    ;
    let bend = spread * LOG2_BEND / 0x1_0000_0000;
    assert(bend <= 65536) by (nonlinear_arith)
        requires
            bend == spread * LOG2_BEND / 0x1_0000_0000,
            spread <= 0x1_0000_0000,
    ;
    LN2_FIXED * (e * 65536 + frac + bend) / 65536
}

/// The descent key of a child with `wins` and `visits` under a parent with
/// `parent_visits`.
pub fn uct_rank(wins: u64, visits: u64, parent_visits: u64) -> (r: u128)
    ensures
        r == uct_key(wins as nat, visits as nat, parent_visits as nat),
{
    if visits == 0 {
        return UNVISITED_KEY;
    }
    let ln = ln_fixed_of(parent_visits);
    let q = 2 * ln * WIN_UNITS_SQUARED / (visits as u128 * 65536);
    assert(q <= 2 * ln * WIN_UNITS_SQUARED) by (nonlinear_arith)
        requires
            q == (2 * ln * WIN_UNITS_SQUARED) / ((visits * 65536) as int),
            visits >= 1,
    ;
    wins as u128 / visits as u128 + integer_sqrt(q)
}


/// Where a descent from a node stopped.
pub enum BestNode {
    /// An unexpanded node whose game is not over.
    Expand(NodeId),
    /// A node whose game is over.
    Terminal(NodeId),
}

/// Relies on rayon's `par_iter().map(..).collect()` on a slice: one result per board, in
/// the order of the boards, each the outcome that `rollout` returned for that board.
#[verifier::external_body]
fn rollouts(boards: &Vec<Board>) -> (r: Vec<GameState>)
    requires
        forall|k: int| 0 <= k < boards@.len() ==> (#[trigger] boards@[k]).wf(),
    ensures
        r@.len() == boards@.len(),
        forall|k: int| 0 <= k < r@.len() ==> #[trigger] r@[k] != GameState::InProgress,
{
    boards.par_iter().map(|b| rollout(b).0).collect()
}

impl MCTSArena {
    pub open spec fn game_over_at(self, id: NodeId) -> bool {
        global_status(self@[id.0 as int].board.gx, self@[id.0 as int].board.go)
            != GameState::InProgress
    }

    /// The descent key of child `c` under `id`.
    pub open spec fn key_of(self, id: NodeId, c: NodeId) -> nat {
        uct_key(self@[c.0 as int].wins as nat, self.visits_of(c) as nat, self.visits_of(id) as nat)
    }

    /// Position `k` of the children of `id` holds the highest key, and no earlier position
    /// ties it.
    pub open spec fn first_best_key(self, id: NodeId, k: int) -> bool {
        let cs = self.children_of(id);
        &&& 0 <= k < cs.len()
        &&& forall|j: int| 0 <= j < cs.len() ==> self.key_of(id, #[trigger] cs[j]) <= self.key_of(id, cs[k])
        &&& forall|j: int| 0 <= j < k ==> self.key_of(id, #[trigger] cs[j]) < self.key_of(id, cs[k])
    }

    /// Node `to` is `from` or is reached from it by steps that each go from an expanded,
    /// unfinished node to its child with the best key (the first such child).
    pub open spec fn uct_descent(self, from: int, to: int) -> bool
        decreases to,
    {
        if to == from {
            true
        } else if to <= from || to >= self@.len() {
            false
        } else {
            match self@[to].parent {
                Some(p) => {
                    &&& (p.0 as int) < to
                    &&& self.expanded(p)
                    &&& !self.game_over_at(p)
                    &&& exists|k: int|
                        self.first_best_key(p, k) && #[trigger] self.children_of(p)[k] == NodeId(
                            to as usize,
                        )
                    &&& self.uct_descent(from, p.0 as int)
                },
                None => false,
            }
        }
    }

    /// The position of the child of `id` to descend to: the first unvisited one, else the
    /// first with the highest UCT score.
    fn best_uct_child(&self, id: NodeId) -> (r: usize)
        requires
            self.wf_tree(),
            self.has(id),
            self.expanded(id),
        ensures
            self.first_best_key(id, r as int),
    {
        let parent_visits = self.nodes[id.0].visits;
        let children = self.nodes[id.0].children.as_ref().unwrap();
        proof {
            assert(self.shape_ok(id.0 as int));
        }
        let mut best: usize = 0;
        let mut best_key: u128 = uct_rank(
            self.nodes[children[0].0].wins,
            self.nodes[children[0].0].visits,
            parent_visits,
        );
        let mut i: usize = 1;
        while i < children.len()
            invariant
                children@ == self.children_of(id),
                self.children_ok(id.0 as int),
                parent_visits == self.visits_of(id),
                0 < i <= children@.len(),
                best < i,
                best_key == self.key_of(id, children@[best as int]),
                forall|j: int| 0 <= j < i ==> self.key_of(id, #[trigger] children@[j]) <= best_key,
                forall|j: int| 0 <= j < best ==> self.key_of(id, #[trigger] children@[j]) < best_key,
            decreases children.len() - i,
        {
            let c = &self.nodes[children[i].0];
            let key = uct_rank(c.wins, c.visits, parent_visits);
            if key > best_key {
                best = i;
                best_key = key;
            }
            i += 1;
        }
        best
    }

    /// Descends from `id` to the child with the best key until it reaches a node that is
    /// not expanded or whose game is over.
    fn select(&self, id: NodeId) -> (r: BestNode)
        requires
            self.wf_tree(),
            self.has(id),
        ensures
            match r {
                BestNode::Expand(n) => self.has(n) && !self.expanded(n) && !self.game_over_at(n),
                BestNode::Terminal(n) => self.has(n) && self.game_over_at(n),
            },
            !self.expanded(id) && !self.game_over_at(id) ==> r == BestNode::Expand(id),
            match r {
                BestNode::Expand(n) => self.uct_descent(id.0 as int, n.0 as int),
                BestNode::Terminal(n) => self.uct_descent(id.0 as int, n.0 as int),
            },
    {
        let mut cur = id;
        loop
            invariant
                self.wf_tree(),
                self.has(cur),
                self.has(id),
                cur.0 >= id.0,
                self.uct_descent(id.0 as int, cur.0 as int),
                !self.expanded(id) && !self.game_over_at(id) ==> cur == id,
            decreases self@.len() - cur.0,
        {
            let node = &self.nodes[cur.0];
            if node.board.game_over() {
                return BestNode::Terminal(cur);
            }
            match &node.children {
                None => {
                    return BestNode::Expand(cur);
                },
                Some(children) => {
                    let k = self.best_uct_child(cur);
                    proof {
                        assert(self.shape_ok(cur.0 as int));
                        assert(self.children_ok(cur.0 as int));
                        let c = children@[k as int];
                        assert(self.children_of(cur)[k as int] == c);
                        assert(self@[c.0 as int].parent == Some(cur));
                        assert(self.uct_descent(id.0 as int, c.0 as int));
                    }
                    cur = children[k];
                },
            }
        }
    }

    /// Counts each result at its node and all the node's ancestors.
    fn backpropagate(&mut self, results: &Vec<(NodeId, GameState)>, player: Player)
        requires
            old(self).wf_tree(),
            forall|k: int| 0 <= k < results@.len() ==> old(self).has((#[trigger] results@[k]).0),
            forall|k: int| 0 <= k < results@.len() ==> (#[trigger] results@[k]).1 != GameState::InProgress,
        ensures
            final(self).wf_tree(),
            final(self).same_shape(*old(self)),
            old(self).visits_grew(*final(self)),
            forall|k: int| 0 <= k < results@.len() ==> final(self).visits_of((#[trigger] results@[k]).0) >= 1,
            forall|n: int|
                0 <= n < old(self)@.len() ==> (#[trigger] final(self)@[n]).visits == capped(
                    old(self)@[n].visits + old(self).visits_through(results@, n),
                ),
            forall|n: int|
                0 <= n < old(self)@.len() ==> (#[trigger] final(self)@[n]).wins == capped(
                    old(self)@[n].wins + old(self).wins_through(results@, n, player),
                ),
    {
        let ghost start = *self;
        let mut k: usize = 0;
        while k < results.len()
            invariant
                k <= results@.len(),
                self.wf_tree(),
                self.same_shape(start),
                start.visits_grew(*self),
                forall|j: int| 0 <= j < results@.len() ==> start.has((#[trigger] results@[j]).0),
                forall|j: int| 0 <= j < k ==> self.visits_of((#[trigger] results@[j]).0) >= 1,
                forall|n: int|
                    0 <= n < start@.len() ==> (#[trigger] self@[n]).visits == capped(
                        start@[n].visits + start.visits_through(results@.subrange(0, k as int), n),
                    ),
                forall|n: int|
                    0 <= n < start@.len() ==> (#[trigger] self@[n]).wins == capped(
                        start@[n].wins + start.wins_through(results@.subrange(0, k as int), n, player),
                    ),
            decreases results.len() - k,
        {
            let ghost before = *self;
            let (id, result) = results[k];
            self.backpropagate_path(id, result, player);
            proof {
                let pre = results@.subrange(0, k as int);
                let post = results@.subrange(0, k as int + 1);
                assert(post.drop_last() =~= pre);
                assert(post.last() == results@[k as int]);
                assert forall|n: int| 0 <= n < start@.len() implies (#[trigger] self@[n]).visits == capped(
                    start@[n].visits + start.visits_through(post, n),
                ) && self@[n].wins == capped(
                    start@[n].wins + start.wins_through(post, n, player),
                ) by {
                    before.lemma_ancestor_same(start, n, id.0 as int);
                }
                assert forall|j: int| 0 <= j < k + 1 implies self.visits_of((#[trigger] results@[j]).0) >= 1 by {
                    assert(before.visits_grew(*self));
                    assert(self.visits_of(results@[j].0) >= before.visits_of(results@[j].0));
                }
                assert forall|i: int| 0 <= i < self@.len() implies #[trigger] self@[i].visits >= start@[i].visits by {
                    assert(before.visits_grew(*self));
                    assert(self@[i].visits >= before@[i].visits);
                }
            }
            k += 1;
        }
        proof {
            assert(results@.subrange(0, results@.len() as int) =~= results@);
        }
    }
}


impl MCTSArena {
    /// Nodes are only ever added: every old node keeps its board and parent, and an
    /// expanded node stays expanded.
    pub open spec fn grows_into(self, later: MCTSArena) -> bool {
        &&& self@.len() <= later@.len()
        &&& forall|i: int|
            0 <= i < self@.len() ==> {
                &&& (#[trigger] later@[i]).board == self@[i].board
                &&& later@[i].parent == self@[i].parent
                &&& self@[i].children is Some ==> later@[i].children == self@[i].children
            }
    }

    /// The answer of a search at `id`: the most visited child (the first among equals) and
    /// its win rate in hundred-millionths, or `None` when `id` has no children.
    pub open spec fn best_answer(self, id: NodeId, r: Option<(u64, NodeId)>) -> bool {
        &&& !self.expanded(id) ==> r is None
        &&& self.expanded(id) ==> exists|k: int|
            self.first_most_visited(self.children_of(id), k) && r == Some(
                (
                    (self@[#[trigger] self.children_of(id)[k].0 as int].wins / self.visits_of(
                        self.children_of(id)[k],
                    )) as u64,
                    self.children_of(id)[k],
                ),
            )
    }

    /// One round before backpropagation: old nodes keep their boards and statistics; at most
    /// one old node gains children, exactly the nodes of `results`; new nodes are
    /// unexpanded.
    pub open spec fn prepared(self, after: MCTSArena, results: Seq<(NodeId, GameState)>) -> bool {
        &&& self@.len() <= after@.len()
        &&& forall|i: int| 0 <= i < self@.len() ==> #[trigger] after.same_node(self, i)
        &&& forall|i: int|
            0 <= i < self@.len() ==> (#[trigger] after@[i]).children == self@[i].children || (
            self@[i].children is None && after@[i].children is Some && after@[i].children->0@.len()
                == results.len() && forall|q: int|
                0 <= q < results.len() ==> after@[i].children->0@[q] == (#[trigger] results[q]).0)
        &&& forall|i: int| self@.len() <= i < after@.len() ==> (#[trigger] after@[i]).children is None
    }

    /// No node lost a visit or a win.
    pub open spec fn stats_grew(self, later: MCTSArena) -> bool {
        forall|i: int|
            0 <= i < self@.len() ==> (#[trigger] later@[i]).visits >= self@[i].visits
                && later@[i].wins >= self@[i].wins
    }

    /// Runs `n_iters` rounds of select, expand, simulate and backpropagate from `id`, then
    /// returns the most visited child of `id` with its win rate (for the side to move at
    /// `id`) in hundred-millionths, or `None` when `id` has no children. Rounds stop early
    /// only if the arena cannot take 81 more nodes.
    #[verifier::rlimit(60)]
    pub fn analyze(&mut self, id: NodeId, n_iters: u32) -> (r: Option<(u64, NodeId)>)
        requires
            old(self).wf(),
            old(self).has(id),
        ensures
            final(self).wf(),
            old(self).grows_into(*final(self)),
            n_iters == 0 ==> *final(self) == *old(self),
            n_iters > 0 && !old(self).game_over_at(id) && old(self)@.len() <= usize::MAX - 81
                ==> final(self).expanded(id),
            final(self).best_answer(id, r),
            old(self).stats_grew(*final(self)),
            final(self)@.len() <= old(self)@.len() + 81 * n_iters,
            old(self)@.len() + 81 * n_iters <= usize::MAX ==> final(self)@[0].visits >= capped(
                old(self)@[0].visits + n_iters,
            ),
            r matches Some((confidence, _)) ==> confidence <= WIN_UNITS,
    {
        let ghost start = *self;
        let mut left = n_iters;
        let mut full = false;
        while left > 0 && !full
            invariant
                self.wf(),
                self.has(id),
                start.grows_into(*self),
                left <= n_iters,
                left == n_iters ==> *self == start,
                left < n_iters && !start.game_over_at(id) && start@.len() <= usize::MAX - 81
                    ==> self.expanded(id),
                full ==> left == n_iters ==> start@.len() > usize::MAX - 81,
                start.stats_grew(*self),
                self@.len() <= start@.len() + 81 * (n_iters - left),
                start@.len() + 81 * n_iters <= usize::MAX ==> !full && self@[0].visits >= capped(
                    start@[0].visits + (n_iters - left),
                ),
            decreases left,
        {
            let ghost before = *self;
            let player = self.nodes[id.0].board.next_player;
            let mut results: Vec<(NodeId, GameState)> = Vec::new();
            match self.select(id) {
                BestNode::Expand(n) => {
                    let old_len = self.nodes.len();
                    if self.expand(n) {
                        let new_len = self.nodes.len();
                        let mut boards: Vec<Board> = Vec::new();
                        let mut j = old_len;
                        while j < new_len
                            invariant
                                old_len <= j <= new_len,
                                new_len == self@.len(),
                                self.wf_tree(),
                                boards@.len() == j - old_len,
                                forall|k: int| 0 <= k < boards@.len() ==> (#[trigger] boards@[k]) == self@[old_len + k].board,
                            decreases new_len - j,
                        {
                            proof {
                                assert(self.shape_ok(j as int));
                            }
                            boards.push(self.nodes[j].board);
                            j += 1;
                        }
                        proof {
                            assert forall|k: int| 0 <= k < boards@.len() implies (#[trigger] boards@[k]).wf() by {
                                assert(self.shape_ok(old_len + k));
                            }
                        }
                        let states = rollouts(&boards);
                        let mut k: usize = 0;
                        while k < states.len()
                            invariant
                                k <= states@.len(),
                                states@.len() == new_len - old_len,
                                new_len == self@.len(),
                                results@.len() == k,
                                forall|q: int| 0 <= q < k ==> (#[trigger] results@[q]).0 == NodeId((old_len + q) as usize),
                                forall|q: int| 0 <= q < states@.len() ==> #[trigger] states@[q] != GameState::InProgress,
                                forall|q: int| 0 <= q < k ==> (#[trigger] results@[q]).1 != GameState::InProgress,
                            decreases states.len() - k,
                        {
                            results.push((NodeId(old_len + k), states[k]));
                            k += 1;
                        }
                        proof {
                            assert forall|i: int| 0 <= i < before@.len() implies (#[trigger] self@[i]).children == before@[i].children || (
                                before@[i].children is None && self@[i].children is Some && self@[i].children->0@.len()
                                    == results@.len() && forall|q: int|
                                    0 <= q < results@.len() ==> self@[i].children->0@[q] == (#[trigger] results@[q]).0) by {
                                if i == n.0 as int {
                                    assert forall|q: int| 0 <= q < results@.len() implies self@[i].children->0@[q] == (#[trigger] results@[q]).0 by {
                                        assert(self.children_of(n)[q].0 == old_len + q);
                                    }
                                }
                            }
                            assert(before.prepared(*self, results@));
                        }
                    } else {
                        full = true;
                        proof {
                            assert(before.prepared(*self, results@));
                        }
                    }
                },
                BestNode::Terminal(n) => {
                    let state = self.nodes[n.0].board.check_game_state();
                    results.push((n, state));
                    proof {
                        assert(before.prepared(*self, results@));
                    }
                },
            }
            let ghost mid = *self;
            proof {
                assert(results@.len() > 0 || full);
                if !full {
                    mid.lemma_root_through(results@);
                }
            }
            assert(forall|q: int| 0 <= q < results@.len() ==> (#[trigger] results@[q]).1 != GameState::InProgress);
            self.backpropagate(&results, player);
            proof {
                assert forall|i: int| 0 <= i < self@.len() implies #[trigger] self.visited(i) by {
                    assert(before.prepared(mid, results@));
                    if i < before@.len() {
                        assert(before.visited(i));
                        assert(mid.same_node(before, i));
                        if self@[i].children is Some && mid@[i].children == before@[i].children {
                            assert forall|q: int| 0 <= q < self@[i].children->0@.len() implies self@[#[trigger] self@[i].children->0@[q].0 as int].visits >= 1 by {
                                assert(before.shape_ok(i));
                                assert(before.children_ok(i));
                                let c = self@[i].children->0@[q].0 as int;
                                assert(mid.same_node(before, c));
                                assert(self@[c].visits >= mid@[c].visits);
                            }
                        } else if self@[i].children is Some {
                            assert forall|q: int| 0 <= q < self@[i].children->0@.len() implies self@[#[trigger] self@[i].children->0@[q].0 as int].visits >= 1 by {
                                assert(results@[q].0 == mid.children_of(NodeId(i as usize))[q]);
                            }
                        }
                    }
                }
                assert(start.grows_into(*self)) by {
                    assert forall|i: int| 0 <= i < start@.len() implies (#[trigger] self@[i]).board == start@[i].board && self@[i].parent == start@[i].parent && (start@[i].children is Some ==> self@[i].children == start@[i].children) by {
                        assert(before.prepared(mid, results@));
                        assert(mid.same_node(before, i));
                    }
                }
            }
            proof {
                assert forall|i: int| 0 <= i < start@.len() implies (#[trigger] self@[i]).visits >= start@[i].visits
                    && self@[i].wins >= start@[i].wins by {
                    assert(before.prepared(mid, results@));
                    assert(mid.same_node(before, i));
                }
                assert(before.prepared(mid, results@));
                assert(mid.same_node(before, 0));
            }
            left = left - 1;
        }
        let best = self.select_best_child(id);
        match best {
            None => None,
            Some(c) => {
                let node = &self.nodes[c.0];
                proof {
                    assert(self.stats_ok(c.0 as int));
                    let w = node.wins as int;
                    let v = node.visits as int;
                    assert(w / v <= WIN_UNITS) by (nonlinear_arith)
                        requires
                            w <= v * WIN_UNITS,
                            v > 0,
                    ;
                }
                Some((node.wins / node.visits, c))
            },
        }
    }
}

} // verus!
