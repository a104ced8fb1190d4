use vstd::prelude::*;
use crate::board::action::Action;
use crate::board::board::Board;
use crate::board::grid::Grid;
use crate::board::rules::{apply_move, is_legal, legal_for, lists_exactly, winner};
use crate::constants::{BLUE, opponent, RED, spec_opponent};
use crate::simulator::naive_simulator::{NaiveSimulator, playout_ends};
use crate::solver::solver::{has_move, Solver};

verus! {

/// A position of the search tree with what the search has learnt of it.
pub struct MCTSNode {
    /// Number of playouts that went through the node.
    pub visit: usize,
    /// Number of those playouts won by the side that moved into the node.
    pub win: usize,
    /// The position.
    pub board: Board,
    /// The side to move in the position.
    pub next_player: usize,
    /// The side that moved into the position.
    pub player: usize,
    /// The move that led to the position; meaningless at the root.
    pub action: Action,
    /// Number of moves from the root.
    pub depth: usize,
    /// The side that has won in the position, if any.
    pub game_over: Option<usize>,
    /// Index of the node that the position was reached from; `None` at the root.
    pub parent: Option<usize>,
    /// Indices of the nodes reached by one move; empty until the node is expanded.
    pub children: Vec<usize>,
}

/// One round of playouts: the node that they were played from, their number,
/// and the number of them that `RED` won.
pub ghost struct Sample {
    pub node: int,
    pub total: nat,
    pub red: nat,
}

/// The search tree: its nodes in the order of their making, the root first,
/// and the rounds of playouts that its counts come from.
pub struct MCTSTree {
    pub nodes: Vec<MCTSNode>,
    pub samples: Ghost<Seq<Sample>>,
}

/// The tunable parameters of the search.
#[derive(Clone, Copy)]
pub struct MCTSSolverConfig {
    /// A child visited less often than this is taken before any other.
    pub min_sim: usize,
    /// A leaf visited at least this often is expanded.
    pub max_sim: usize,
    /// The search ends once the root has been visited this often.
    pub simulation_count: usize,
    /// Number of playouts per round.
    pub times_per_sim: usize,
}

/// The way to choose among children that have all been visited often enough.
pub trait ChildSelector {
    /// Returns the position, in `stats`, of the child to descend into. `stats`
    /// holds the visit count and the win count of each child, `parent_visit`
    /// the visit count of their parent. A result that is no position of
    /// `stats` counts as 0.
    fn pick(&self, parent_visit: usize, stats: &Vec<(usize, usize)>) -> usize;
}

/// Whether the node `i` lies on the way from the node `leaf` up to the root,
/// `leaf` included.
pub open spec fn on_path(nodes: Seq<MCTSNode>, i: int, leaf: int) -> bool
    decreases leaf,
{
    i == leaf || (leaf > 0 && nodes[leaf].parent is Some && nodes[leaf].parent->0 < leaf
        && on_path(nodes, i, nodes[leaf].parent->0 as int))
}

/// Whether two trees differ in nothing but visit and win counts.
pub open spec fn same_shape(a: Seq<MCTSNode>, b: Seq<MCTSNode>) -> bool {
    &&& a.len() == b.len()
    &&& forall|i: int|
        0 <= i < a.len() ==> {
            &&& (#[trigger] a[i]).board == b[i].board
            &&& a[i].next_player == b[i].next_player
            &&& a[i].player == b[i].player
            &&& a[i].action == b[i].action
            &&& a[i].depth == b[i].depth
            &&& a[i].game_over == b[i].game_over
            &&& a[i].parent == b[i].parent
            &&& a[i].children == b[i].children
        }
}

/// Whether the node `i` is well formed but for its counts: its position is a
/// board of the root's size, its fields agree with each other, its parent was
/// made before it and its children after it.
pub open spec fn shape_ok(nodes: Seq<MCTSNode>, i: int) -> bool {
    let node = nodes[i];
    &&& node.board.wf()
    &&& node.board.size == nodes[0].board.size
    &&& (node.next_player == RED || node.next_player == BLUE)
    &&& node.player == spec_opponent(node.next_player)
    &&& node.game_over == winner(node.board@)
    &&& node.depth <= i
    &&& (i == 0 ==> node.parent is None)
    &&& (i > 0 ==> node.parent is Some && node.parent->0 < i && {
        let up = nodes[node.parent->0 as int];
        &&& is_legal(up.board@, up.next_player, node.action)
        &&& node.board@ == apply_move(up.board@, node.action)
        &&& node.next_player == up.player
        &&& node.depth == up.depth + 1
        &&& up.children@.contains(i as usize)
    })
    &&& forall|k: int|
        0 <= k < node.children@.len() ==> i < (#[trigger] node.children@[k]) < nodes.len()
            && nodes[node.children@[k] as int].parent == Some(i as usize)
}

/// Whether the counts of the node `i` are sound: no more wins than visits, and
/// no more visits than its parent has.
pub open spec fn counts_ok(nodes: Seq<MCTSNode>, i: int) -> bool {
    &&& nodes[i].win <= nodes[i].visit
    &&& (i > 0 ==> nodes[i].visit <= nodes[nodes[i].parent->0 as int].visit)
}

/// The number of playouts of the rounds `samples` that were played from the
/// node `i` or from a node below it.
pub open spec fn visits_routed(nodes: Seq<MCTSNode>, samples: Seq<Sample>, i: int) -> int
    decreases samples.len(),
{
    if samples.len() == 0 {
        0
    } else {
        visits_routed(nodes, samples.drop_last(), i) + if on_path(nodes, i, samples.last().node) {
            samples.last().total as int
        } else {
            0
        }
    }
}

/// The number of playouts of the rounds `samples`, played from the node `i` or
/// from a node below it, that the side that moved into the node `i` won.
pub open spec fn wins_routed(nodes: Seq<MCTSNode>, samples: Seq<Sample>, i: int) -> int
    decreases samples.len(),
{
    if samples.len() == 0 {
        0
    } else {
        wins_routed(nodes, samples.drop_last(), i) + if !on_path(nodes, i, samples.last().node) {
            0
        } else if nodes[i].player == RED {
            samples.last().red as int
        } else {
            samples.last().total - samples.last().red
        }
    }
}

/// Whether the counts of the node `i` are those of the playouts that were
/// routed through it.
pub open spec fn tally_ok(nodes: Seq<MCTSNode>, samples: Seq<Sample>, i: int) -> bool {
    &&& nodes[i].visit == visits_routed(nodes, samples, i)
    &&& nodes[i].win == wins_routed(nodes, samples, i)
}

/// The number of visits of the first `k` children of the node `i` together.
pub open spec fn children_visits(nodes: Seq<MCTSNode>, i: int, k: nat) -> int
    decreases k,
{
    if k == 0 {
        0
    } else {
        children_visits(nodes, i, (k - 1) as nat) + nodes[nodes[i].children@[k - 1] as int].visit
    }
}

/// The number of playouts of the rounds `samples` that were played from the
/// node `i` itself.
pub open spec fn visits_at(samples: Seq<Sample>, i: int) -> int
    decreases samples.len(),
{
    if samples.len() == 0 {
        0
    } else {
        visits_at(samples.drop_last(), i) + if samples.last().node == i {
            samples.last().total as int
        } else {
            0
        }
    }
}

/// Whether the children of the node `i` are listed in the order of their
/// making, each once, and the visits of the node are those of its children
/// together with the playouts that were played from the node itself.
pub open spec fn kids_ok(nodes: Seq<MCTSNode>, samples: Seq<Sample>, i: int) -> bool {
    &&& forall|a: int, b: int|
        0 <= a < b < nodes[i].children@.len() ==> (#[trigger] nodes[i].children@[a]) < (
        #[trigger] nodes[i].children@[b])
    &&& nodes[i].visit == visits_at(samples, i) + children_visits(
        nodes,
        i,
        nodes[i].children@.len(),
    )
}

/// What the first `k` children of the node `i` gain in visits from a round of
/// `total` playouts played from the node `leaf`.
pub open spec fn children_gain(nodes: Seq<MCTSNode>, i: int, leaf: int, k: nat, total: int) -> int
    decreases k,
{
    if k == 0 {
        0
    } else {
        children_gain(nodes, i, leaf, (k - 1) as nat, total) + if on_path(
            nodes,
            nodes[i].children@[k - 1] as int,
            leaf,
        ) {
            total
        } else {
            0
        }
    }
}

/// Whether the node `i` is well formed: in its shape, in its counts, and in
/// what its counts stand for.
pub open spec fn node_sound(nodes: Seq<MCTSNode>, samples: Seq<Sample>, i: int) -> bool {
    &&& shape_ok(nodes, i)
    &&& counts_ok(nodes, i)
    &&& tally_ok(nodes, samples, i)
    &&& kids_ok(nodes, samples, i)
}

/// Whether each round was played from a node of the tree and `RED` won no more
/// playouts of it than it had.
pub open spec fn samples_ok(nodes: Seq<MCTSNode>, samples: Seq<Sample>) -> bool {
    forall|k: int|
        0 <= k < samples.len() ==> 0 <= (#[trigger] samples[k]).node < nodes.len()
            && samples[k].red <= samples[k].total
}

/// The way from a node up to the root is the same in a tree that has grown, or
/// that differs in nothing but counts and children.
pub proof fn lemma_on_path_kept(a: Seq<MCTSNode>, b: Seq<MCTSNode>, i: int, leaf: int)
    requires
        a.len() <= b.len(),
        forall|j: int| 0 <= j < a.len() ==> (#[trigger] b[j]).parent == a[j].parent,
        0 <= leaf < a.len(),
    ensures
        on_path(b, i, leaf) == on_path(a, i, leaf),
    decreases leaf,
{
    if i != leaf && leaf > 0 && a[leaf].parent is Some && a[leaf].parent->0 < leaf {
        assert(b[leaf].parent == a[leaf].parent);
        lemma_on_path_kept(a, b, i, a[leaf].parent->0 as int);
    } else {
        assert(b[leaf].parent == a[leaf].parent);
    }
}

/// The playouts routed through the nodes are the same in a tree that has
/// grown, or that differs in nothing but counts and children; none is routed
/// through a node made after the rounds were played.
pub proof fn lemma_routed_kept(a: Seq<MCTSNode>, b: Seq<MCTSNode>, samples: Seq<Sample>, i: int)
    requires
        a.len() <= b.len(),
        forall|j: int|
            0 <= j < a.len() ==> (#[trigger] b[j]).parent == a[j].parent && b[j].player
                == a[j].player,
        samples_ok(a, samples),
        0 <= i < b.len(),
    ensures
        i < a.len() ==> visits_routed(b, samples, i) == visits_routed(a, samples, i)
            && wins_routed(b, samples, i) == wins_routed(a, samples, i),
        i >= a.len() ==> visits_routed(b, samples, i) == 0 && wins_routed(b, samples, i) == 0,
    decreases samples.len(),
{
    if samples.len() > 0 {
        let rest = samples.drop_last();
        assert forall|k: int| 0 <= k < rest.len() implies 0 <= (#[trigger] rest[k]).node < a.len()
            && rest[k].red <= rest[k].total by {
            assert(rest[k] == samples[k]);
        }
        lemma_routed_kept(a, b, rest, i);
        let last = samples.last();
        assert(last == samples[samples.len() - 1]);
        lemma_on_path_kept(a, b, i, last.node);
        if i >= a.len() && on_path(a, i, last.node) {
            lemma_path_below(a, i, last.node);
        }
        if i < a.len() {
            assert(b[i].player == a[i].player);
        }
    }
}

impl MCTSNode {
    /// Builds the root of a tree for the position on `board`, `next_player` to
    /// move.
    pub fn new(board: &Board, next_player: usize) -> (node: MCTSNode)
        requires
            board.wf(),
            next_player == RED || next_player == BLUE,
        ensures
            node.visit == 0,
            node.win == 0,
            node.board@ == board@,
            node.board.size == board.size,
            node.next_player == next_player,
            node.player == spec_opponent(next_player),
            node.depth == 0,
            node.game_over == winner(board@),
            node.parent is None,
            node.children@.len() == 0,
    {
        MCTSNode {
            visit: 0,
            win: 0,
            board: board.clone(),
            next_player,
            player: opponent(next_player),
            action: Action::from_usize(0, 0, 0, 0),
            depth: 0,
            game_over: board.is_game_over(),
            parent: None,
            children: Vec::new(),
        }
    }

    /// Builds the node for the position that `action` leads to from the node
    /// `parent` of `tree`.
    pub fn expand_from_node(tree: &MCTSTree, parent: usize, action: Action) -> (node: MCTSNode)
        requires
            tree.wf(),
            parent < tree.nodes@.len(),
            is_legal(tree.nodes@[parent as int].board@, tree.nodes@[parent as int].next_player, action),
        ensures
            node.visit == 0,
            node.win == 0,
            node.board.wf(),
            node.board.size == tree.nodes@[parent as int].board.size,
            node.board@ == apply_move(tree.nodes@[parent as int].board@, action),
            node.next_player == tree.nodes@[parent as int].player,
            node.player == tree.nodes@[parent as int].next_player,
            node.action == action,
            node.depth == tree.nodes@[parent as int].depth + 1,
            node.game_over == winner(node.board@),
            node.parent == Some(parent),
            node.children@.len() == 0,
    {
        assert(tree.node_ok(parent as int));
        let count = tree.nodes.len();
        let up = &tree.nodes[parent];
        let mut new_board = up.board.clone();
        new_board.perform_action(action);
        let new_is_game_over = new_board.is_game_over();
        MCTSNode {
            visit: 0,
            win: 0,
            board: new_board,
            next_player: up.player,
            player: up.next_player,
            action,
            depth: up.depth + 1,
            game_over: new_is_game_over,
            parent: Some(parent),
            children: Vec::new(),
        }
    }

    /// Tells whether the node has been expanded into children.
    pub fn has_children(&self) -> (has: bool)
        ensures
            has == (self.children@.len() > 0),
    {
        self.children.len() > 0
    }
}

impl MCTSTree {
    /// Whether the node `i` is well formed.
    pub open spec fn node_ok(&self, i: int) -> bool {
        node_sound(self.nodes@, self.samples@, i)
    }

    /// Whether the tree has a root, every node of it is well formed, and the
    /// counts of every node are those of the playouts routed through it.
    pub open spec fn wf(&self) -> bool {
        &&& self.nodes@.len() > 0
        &&& samples_ok(self.nodes@, self.samples@)
        &&& forall|i: int| 0 <= i < self.nodes@.len() ==> #[trigger] self.node_ok(i)
    }

    /// Builds the tree that holds nothing but the root for the position on
    /// `board`, `next_player` to move.
    pub fn new(board: &Board, next_player: usize) -> (tree: MCTSTree)
        requires
            board.wf(),
            next_player == RED || next_player == BLUE,
        ensures
            tree.wf(),
            tree.nodes@.len() == 1,
            tree.nodes@[0].visit == 0,
            tree.nodes@[0].board@ == board@,
            tree.nodes@[0].next_player == next_player,
            tree.nodes@[0].children@.len() == 0,
            tree.samples@.len() == 0,
    {
        let root = MCTSNode::new(board, next_player);
        let mut nodes: Vec<MCTSNode> = Vec::new();
        nodes.push(root);
        let tree = MCTSTree { nodes, samples: Ghost(Seq::empty()) };
        assert(tree.node_ok(0));
        tree
    }
}

impl MCTSSolverConfig {
    /// Whether a search can run with the parameters: a round holds at least one
    /// playout, and the visit counts fit the machine word.
    pub open spec fn valid(&self) -> bool {
        &&& self.times_per_sim > 0
        &&& self.simulation_count + self.times_per_sim <= usize::MAX
    }

    /// The number of visits that the root of a new tree has at the start of the
    /// round in which it is expanded: the least multiple of `times_per_sim` that
    /// is no less than `max_sim`.
    pub open spec fn first_expansion(&self) -> int {
        (self.max_sim + self.times_per_sim - 1) / (self.times_per_sim as int) * self.times_per_sim
    }
}

impl MCTSSolverConfig {
    /// Tells whether a search for a move can run with the parameters: they are
    /// valid, and the budget lasts until the round in which the root is expanded.
    pub fn can_search(&self) -> (ok: bool)
        ensures
            ok == (self.valid() && self.first_expansion() < self.simulation_count),
    {
        if self.times_per_sim == 0 {
            return false;
        }
        if self.simulation_count > usize::MAX - self.times_per_sim {
            return false;
        }
        let per = self.times_per_sim as u128;
        let rounds = (self.max_sim as u128 + per - 1) / per;
        proof {
            let q = lemma_first_multiple(self.max_sim as int, per as int);
            assert(q * per <= self.max_sim + per) by (nonlinear_arith)
                requires
                    q == (self.max_sim + per - 1) / (per as int),
                    0 < per,
                    0 <= self.max_sim,
            {
                vstd::arithmetic::div_mod::lemma_fundamental_div_mod(
                    self.max_sim + per - 1,
                    per as int,
                );
                vstd::arithmetic::div_mod::lemma_mod_bound(self.max_sim + per - 1, per as int);
            }
        }
        rounds * per < self.simulation_count as u128
    }
}

/// The least multiple of `per` that is no less than `least` is a multiple of
/// `per` and no less than `least`.
pub proof fn lemma_first_multiple(least: int, per: int) -> (rounds: int)
    requires
        0 <= least,
        0 < per,
    ensures
        rounds == (least + per - 1) / per,
        0 <= rounds,
        rounds * per >= least,
        rounds * per < least + per,
        (least + per - 1) / per * per == rounds * per,
{
    let x = least + per - 1;
    vstd::arithmetic::div_mod::lemma_fundamental_div_mod(x, per);
    vstd::arithmetic::div_mod::lemma_mod_bound(x, per);
    vstd::arithmetic::div_mod::lemma_div_pos_is_pos(x, per);
    assert(per * (x / per) == (x / per) * per) by (nonlinear_arith);
    x / per
}

/// A multiple of `per` below a bound is at least `per` below every multiple of
/// `per` that is no less than the bound.
pub proof fn lemma_step_to_multiple(v: int, per: int, q: int, bound: int)
    requires
        0 < per,
        v % per == 0,
        0 <= v < bound,
        bound <= q * per,
    ensures
        v + per <= q * per,
{
    vstd::arithmetic::div_mod::lemma_fundamental_div_mod(v, per);
    let m = v / per;
    assert(v == per * m);
    assert(m + 1 <= q) by (nonlinear_arith)
        requires
            0 < per,
            per * m < q * per,
    ;
    assert(per * m + per <= q * per) by (nonlinear_arith)
        requires
            0 < per,
            m + 1 <= q,
    ;
}

/// A multiple of `per` between a bound and the least multiple of `per` that is
/// no less than the bound is that least multiple.
pub proof fn lemma_at_multiple(v: int, per: int, q: int, bound: int)
    requires
        0 < per,
        v % per == 0,
        bound <= v <= q * per,
        q * per < bound + per,
    ensures
        v == q * per,
{
    vstd::arithmetic::div_mod::lemma_fundamental_div_mod(v, per);
    let m = v / per;
    assert(v == per * m);
    assert(m == q) by (nonlinear_arith)
        requires
            0 < per,
            per * m <= q * per,
            q * per < per * m + per,
    ;
    assert(per * m == m * per) by (nonlinear_arith);
}

/// Whether the round `s` counts outcomes of games from the position of the
/// node that it was played from. Where `RED` has won that position, all its
/// playouts are wins of `RED`, and none where `BLUE` has won it. In any case a
/// win of `RED` among them is the outcome of some finished game of forward
/// moves from the position, and so is a win of `BLUE`.
pub open spec fn decided_right(nodes: Seq<MCTSNode>, s: Sample) -> bool {
    let node = nodes[s.node];
    &&& node.game_over == Some(RED) ==> s.red == s.total
    &&& node.game_over == Some(BLUE) ==> s.red == 0
    &&& s.red > 0 ==> exists|line: Seq<Action>|
        playout_ends(node.board@, node.next_player, line, true)
    &&& s.red < s.total ==> exists|line: Seq<Action>|
        playout_ends(node.board@, node.next_player, line, false)
}

/// Whether the node `i` has been expanded when it was due and not before. A
/// node is due when it is chosen with `first_expansion()` visits, all of them
/// from playouts played from the node itself. So a node with children has had
/// exactly that many playouts played from itself, and its children have all
/// its other visits; and a node without children, with a position that is not
/// won and in which the side to move has a move, has no more visits than that.
/// This is held of the root, and of every node where `max_sim` is above 0; a
/// node without children has its visits in whole rounds in any case.
pub open spec fn on_schedule(
    nodes: Seq<MCTSNode>,
    samples: Seq<Sample>,
    config: MCTSSolverConfig,
    i: int,
) -> bool {
    let node = nodes[i];
    let counted = i == 0 || config.max_sim > 0;
    &&& node.children@.len() == 0 ==> (node.visit as int) % (config.times_per_sim as int) == 0
    &&& counted && node.children@.len() > 0 ==> visits_at(samples, i) == config.first_expansion()
        && children_visits(nodes, i, node.children@.len()) == node.visit
        - config.first_expansion()
    &&& counted && node.children@.len() == 0 && node.game_over is None && has_move(
        node.board@,
        node.next_player,
    ) ==> node.visit <= config.first_expansion()
}

/// Whether the node `x`, which is not the root, is the child of its parent that
/// the search descends into: either it has been visited less than `min_sim`
/// times, and so have none of the children made before it; or none of the
/// children of its parent has.
pub open spec fn picked_by_rule(nodes: Seq<MCTSNode>, config: MCTSSolverConfig, x: int) -> bool {
    let kids = nodes[nodes[x].parent->0 as int].children@;
    forall|j: int|
        0 <= j < kids.len() && (nodes[x].visit >= config.min_sim || kids[j] < x) ==> nodes[(
        #[trigger] kids[j]) as int].visit >= config.min_sim
}

/// Whether every node on the way from the node `n` up to the root, but for the
/// root, is the child of its parent that the search descends into.
pub open spec fn path_by_rule(nodes: Seq<MCTSNode>, config: MCTSSolverConfig, n: int) -> bool {
    forall|x: int| 0 < x <= n && on_path(nodes, x, n) ==> #[trigger] picked_by_rule(nodes, config, x)
}

/// Whether the visits of the children of the node `i` are such as descending
/// into the first child visited less than `min_sim` times leaves them: a child
/// that has been visited at all has no child made before it that was visited
/// less than `min_sim` times, and a child that was visited a round beyond
/// `min_sim` times has no such child beside it at all.
pub open spec fn chosen_in_turn(nodes: Seq<MCTSNode>, config: MCTSSolverConfig, i: int) -> bool {
    let kids = nodes[i].children@;
    &&& forall|j: int, k: int|
        #![trigger kids[j], kids[k]]
        0 <= j < k < kids.len() && nodes[kids[k] as int].visit > 0 ==> nodes[kids[j] as int].visit
            >= config.min_sim
    &&& forall|j: int, k: int|
        #![trigger kids[j], kids[k]]
        0 <= j < kids.len() && 0 <= k < kids.len() && nodes[kids[k] as int].visit
            >= config.min_sim + config.times_per_sim ==> nodes[kids[j] as int].visit
            >= config.min_sim
}

/// The way to a child that the search descends into from the end of a way
/// that it has descended is a way that it descends.
pub proof fn lemma_path_rule_step(
    nodes: Seq<MCTSNode>,
    config: MCTSSolverConfig,
    n: int,
    child: int,
)
    requires
        path_by_rule(nodes, config, n),
        0 <= n < child,
        nodes[child].parent is Some,
        nodes[child].parent->0 == n,
        picked_by_rule(nodes, config, child),
    ensures
        path_by_rule(nodes, config, child),
{
    assert forall|x: int| 0 < x <= child && on_path(nodes, x, child) implies #[trigger] picked_by_rule(
        nodes,
        config,
        x,
    ) by {
        if x != child {
            assert(on_path(nodes, x, n));
            lemma_path_below(nodes, x, n);
        }
    }
}

/// Whether every node of the tree has been expanded when it was due, and the
/// children of every node have been chosen in turn.
#[verifier::opaque]
pub open spec fn scheduled(tree: MCTSTree, config: MCTSSolverConfig) -> bool {
    forall|i: int|
        0 <= i < tree.nodes@.len() ==> (#[trigger] on_schedule(
            tree.nodes@,
            tree.samples@,
            config,
            i,
        )) && chosen_in_turn(tree.nodes@, config, i)
}

/// Whether every round from the round `from` on counts a won position for the
/// side that has won it.
#[verifier::opaque]
pub open spec fn decided_from(tree: MCTSTree, from: int) -> bool {
    forall|j: int|
        from <= j < tree.samples@.len() ==> decided_right(tree.nodes@, #[trigger] tree.samples@[j])
}

/// A new tree is on schedule.
pub proof fn lemma_schedule_start(tree: &MCTSTree, config: MCTSSolverConfig)
    requires
        tree.wf(),
        config.valid(),
        tree.nodes@.len() == 1,
        tree.samples@.len() == 0,
    ensures
        scheduled(*tree, config),
        decided_from(*tree, 0),
{
    reveal(scheduled);
    reveal(decided_from);
    assert(tree.node_ok(0));
    let q = lemma_first_multiple(config.max_sim as int, config.times_per_sim as int);
    assert(tree.nodes@[0].children@.len() == 0) by {
        if tree.nodes@[0].children@.len() > 0 {
            assert(0 < tree.nodes@[0].children@[0] < 1);
        }
    }
    assert(q * config.times_per_sim >= 0);
}

/// Expanding a node that is due keeps the tree on schedule.
pub proof fn lemma_schedule_expanded(
    before: &MCTSTree,
    after: &MCTSTree,
    config: MCTSSolverConfig,
    n: int,
    from: int,
    kept: bool,
)
    requires
        before.wf(),
        after.wf(),
        config.valid(),
        kept ==> scheduled(*before, config),
        decided_from(*before, from),
        0 <= from,
        0 <= n < before.nodes@.len(),
        before.nodes@[n].children@.len() == 0,
        before.nodes@[n].visit >= config.max_sim,
        before.nodes@[n].game_over is None,
        after.samples@ == before.samples@,
        after.nodes@.len() >= before.nodes@.len(),
        forall|i: int|
            0 <= i < before.nodes@.len() && i != n ==> (#[trigger] after.nodes@[i])
                == before.nodes@[i],
        after.nodes@[n].visit == before.nodes@[n].visit,
        after.nodes@[n].board == before.nodes@[n].board,
        after.nodes@[n].next_player == before.nodes@[n].next_player,
        after.nodes@[n].game_over == before.nodes@[n].game_over,
        after.nodes@[n].parent == before.nodes@[n].parent,
        forall|i: int|
            before.nodes@.len() <= i < after.nodes@.len() ==> (#[trigger] after.nodes@[i]).visit
                == 0 && after.nodes@[i].children@.len() == 0,
        forall|k: int|
            0 <= k < after.nodes@[n].children@.len() ==> (#[trigger] after.nodes@[n].children@[k])
                >= before.nodes@.len(),
        lists_exactly(
            child_actions(after.nodes@, n),
            legal_for(before.nodes@[n].board@, before.nodes@[n].next_player, false),
        ),
        path_by_rule(before.nodes@, config, n),
    ensures
        kept ==> scheduled(*after, config),
        decided_from(*after, from),
        path_by_rule(after.nodes@, config, n),
        after.nodes@[n].children@.len() == 0 ==> !has_move(
            before.nodes@[n].board@,
            before.nodes@[n].next_player,
        ),
{
    reveal(scheduled);
    reveal(decided_from);
    let per = config.times_per_sim as int;
    let q = lemma_first_multiple(config.max_sim as int, per);
    let a = before.nodes@;
    let b = after.nodes@;
    let moves = child_actions(b, n);
    let wanted = legal_for(a[n].board@, a[n].next_player, false);
    if b[n].children@.len() == 0 {
        assert forall|m: Action| !is_legal(a[n].board@, a[n].next_player, m) by {
            if is_legal(a[n].board@, a[n].next_player, m) {
                assert(wanted(m));
                assert(moves.contains(m));
            }
        }
    }
    assert forall|x: int| 0 < x <= n && on_path(b, x, n) implies #[trigger] picked_by_rule(
        b,
        config,
        x,
    ) by {
        lemma_on_path_kept(a, b, x, n);
        assert(picked_by_rule(a, config, x));
        assert(before.node_ok(x));
        let up = a[x].parent->0 as int;
        assert(b[up] == a[up]);
        assert(before.node_ok(up));
        assert forall|j: int| 0 <= j < a[up].children@.len() implies b[(
        #[trigger] a[up].children@[j]) as int].visit == a[a[up].children@[j] as int].visit by {}
    }
    assert forall|i: int| 0 <= i < b.len() && kept implies chosen_in_turn(b, config, i) by {
        assert(after.node_ok(i));
        if i < a.len() && i != n {
            assert(b[i] == a[i]);
            assert(on_schedule(a, before.samples@, config, i));
            assert(chosen_in_turn(a, config, i));
            assert(before.node_ok(i));
            assert forall|j: int| 0 <= j < a[i].children@.len() implies b[(
            #[trigger] a[i].children@[j]) as int].visit == a[a[i].children@[j] as int].visit by {}
        }
    }
    assert forall|i: int| 0 <= i < b.len() && kept implies #[trigger] on_schedule(
        b,
        after.samples@,
        config,
        i,
    ) by {
        assert(after.node_ok(i));
        if i >= a.len() {
            assert(q * per >= 0);
        } else if i != n {
            assert(b[i] == a[i]);
            assert(on_schedule(a, before.samples@, config, i));
        } else {
            assert(on_schedule(a, before.samples@, config, i));
            assert(before.node_ok(i));
            if b[n].children@.len() > 0 && (i == 0 || config.max_sim > 0) {
                assert(moves.contains(moves[0]));
                assert(wanted(moves[0]));
                assert(has_move(a[n].board@, a[n].next_player));
                lemma_at_multiple(a[n].visit as int, per, q, config.max_sim as int);
            }
        }
    }
    assert forall|j: int| from <= j < after.samples@.len() implies decided_right(
        b,
        #[trigger] after.samples@[j],
    ) by {
        let s = before.samples@[j];
        assert(decided_right(a, s));
        assert(0 <= s.node < a.len());
        if s.node != n {
            assert(b[s.node] == a[s.node]);
        }
    }
}

/// A round of playouts played from a node without children keeps the tree on
/// schedule, where a node that could be expanded is below the visits at which
/// it is chosen for it.
pub proof fn lemma_schedule_sampled(
    before: &MCTSTree,
    after: &MCTSTree,
    config: MCTSSolverConfig,
    n: int,
    red: nat,
    from: int,
    kept: bool,
)
    requires
        before.wf(),
        after.wf(),
        config.valid(),
        kept ==> scheduled(*before, config),
        decided_from(*before, from),
        0 <= from,
        0 <= n < before.nodes@.len(),
        before.nodes@[n].children@.len() == 0,
        (n == 0 || config.max_sim > 0) && before.nodes@[n].game_over is None && has_move(
            before.nodes@[n].board@,
            before.nodes@[n].next_player,
        ) ==> before.nodes@[n].visit < config.max_sim,
        decided_right(
            before.nodes@,
            Sample { node: n, total: config.times_per_sim as nat, red: red },
        ),
        same_shape(before.nodes@, after.nodes@),
        after.samples@ == before.samples@.push(
            Sample { node: n, total: config.times_per_sim as nat, red: red },
        ),
        forall|i: int|
            0 <= i < before.nodes@.len() ==> (#[trigger] after.nodes@[i]).visit
                == before.nodes@[i].visit + if on_path(before.nodes@, i, n) {
                config.times_per_sim as int
            } else {
                0
            },
        kept ==> path_by_rule(before.nodes@, config, n),
    ensures
        kept ==> scheduled(*after, config),
        decided_from(*after, from),
{
    reveal(scheduled);
    reveal(decided_from);
    let per = config.times_per_sim as int;
    let q = lemma_first_multiple(config.max_sim as int, per);
    let a = before.nodes@;
    let b = after.nodes@;
    let more = after.samples@;
    assert(more.drop_last() =~= before.samples@);
    assert(more.last().node == n);
    assert forall|i: int| 0 <= i < b.len() && kept implies chosen_in_turn(b, config, i) by {
        assert(before.node_ok(i));
        assert(on_schedule(a, before.samples@, config, i));
            assert(chosen_in_turn(a, config, i));
        assert(b[i].children == a[i].children);
        let kids = a[i].children@;
        assert forall|j: int| 0 <= j < kids.len() implies b[(#[trigger] kids[j]) as int].visit
            >= a[kids[j] as int].visit && (!on_path(a, kids[j] as int, n) ==> b[kids[j] as int].visit
            == a[kids[j] as int].visit) && (on_path(a, kids[j] as int, n) ==> b[kids[j] as int].visit
            == a[kids[j] as int].visit + per && picked_by_rule(a, config, kids[j] as int)
            && a[kids[j] as int].parent->0 == i) by {
            let c = kids[j] as int;
            assert(i < c < a.len());
            if on_path(a, c, n) {
                lemma_path_below(a, c, n);
            }
        }
    }
    assert forall|i: int| 0 <= i < b.len() && kept implies #[trigger] on_schedule(
        b,
        more,
        config,
        i,
    ) by {
        assert(after.node_ok(i));
        assert(before.node_ok(i));
        assert(on_schedule(a, before.samples@, config, i));
        assert(b[i].children == a[i].children);
        assert(b[i].game_over == a[i].game_over);
        assert(b[i].board == a[i].board);
        assert(b[i].next_player == a[i].next_player);
        if a[i].children@.len() == 0 {
            if i == n {
                vstd::arithmetic::div_mod::lemma_mod_add_multiples_vanish(a[i].visit as int, per);
                if (i == 0 || config.max_sim > 0) && a[i].game_over is None && has_move(
                    a[i].board@,
                    a[i].next_player,
                ) {
                    lemma_step_to_multiple(a[i].visit as int, per, q, config.max_sim as int);
                }
            } else if on_path(a, i, n) {
                let x = lemma_child_on_path(before, i, n);
            }
        }
    }
    assert forall|j: int| from <= j < more.len() implies decided_right(b, #[trigger] more[j]) by {
        if j < before.samples@.len() {
            let s = before.samples@[j];
            assert(more[j] == s);
            assert(decided_right(a, s));
            assert(0 <= s.node < a.len());
            assert(b[s.node].game_over == a[s.node].game_over);
        } else {
            assert(b[n].game_over == a[n].game_over);
        }
    }
}

/// A number of visits that is made of whole rounds, and that reaches a budget
/// of whole rounds without going a round beyond it, is the budget.
pub proof fn lemma_budget_met(visit: int, rounds: int, budget: int, per: int)
    requires
        0 < per,
        0 <= budget,
        budget % per == 0,
        visit == rounds * per,
        budget <= visit < budget + per,
    ensures
        visit == budget,
{
    vstd::arithmetic::div_mod::lemma_fundamental_div_mod(budget, per);
    let whole = budget / per;
    assert(budget == per * whole);
    assert(rounds == whole) by (nonlinear_arith)
        requires
            0 < per,
            per * whole <= rounds * per < per * whole + per,
    ;
    assert(per * whole == whole * per) by (nonlinear_arith);
}

impl Default for MCTSSolverConfig {
    /// Thresholds of 5 and 10 visits, 30000 playouts in rounds of 5.
    fn default() -> (config: Self)
        ensures
            config.min_sim == 5,
            config.max_sim == 10,
            config.simulation_count == 30000,
            config.times_per_sim == 5,
    {
        MCTSSolverConfig { min_sim: 5, max_sim: 10, simulation_count: 30000, times_per_sim: 5 }
    }
}

/// The moves that lead to the children of the node `i`, child by child.
pub open spec fn child_actions(nodes: Seq<MCTSNode>, i: int) -> Seq<Action> {
    Seq::new(nodes[i].children@.len(), |k: int| nodes[nodes[i].children@[k] as int].action)
}

/// Whether `k` is the position, among the children of the node `i`, of the
/// first child that was visited less than `min_sim` times.
pub open spec fn first_cold(nodes: Seq<MCTSNode>, i: int, min_sim: usize, k: int) -> bool {
    &&& 0 <= k < nodes[i].children@.len()
    &&& nodes[nodes[i].children@[k] as int].visit < min_sim
    &&& forall|j: int|
        0 <= j < k ==> nodes[(#[trigger] nodes[i].children@[j]) as int].visit >= min_sim
}

/// A node on the way from a node up to the root was made no later than it.
pub proof fn lemma_path_below(nodes: Seq<MCTSNode>, i: int, leaf: int)
    requires
        on_path(nodes, i, leaf),
        0 <= leaf,
    ensures
        0 <= i <= leaf,
    decreases leaf,
{
    if i != leaf {
        lemma_path_below(nodes, i, nodes[leaf].parent->0 as int);
    }
}

/// The way from a node up to the root is a chain: of two nodes on it, the
/// earlier lies on the way from the later up to the root.
pub proof fn lemma_path_chain(nodes: Seq<MCTSNode>, i: int, n: int, leaf: int)
    requires
        on_path(nodes, i, leaf),
        on_path(nodes, n, leaf),
        0 <= leaf,
        i <= n,
    ensures
        on_path(nodes, i, n),
    decreases leaf,
{
    if n != leaf {
        let up = nodes[leaf].parent->0 as int;
        lemma_path_below(nodes, n, up);
        lemma_path_chain(nodes, i, n, up);
    }
}

/// The root lies on the way from every node up to the root.
pub proof fn lemma_root_on_path(tree: &MCTSTree, leaf: int)
    requires
        tree.wf(),
        0 <= leaf < tree.nodes@.len(),
    ensures
        on_path(tree.nodes@, 0, leaf),
    decreases leaf,
{
    assert(tree.node_ok(leaf));
    if leaf > 0 {
        lemma_root_on_path(tree, tree.nodes@[leaf].parent->0 as int);
    }
}

/// With a node, its parent lies on the way from a node up to the root.
pub proof fn lemma_parent_on_path(nodes: Seq<MCTSNode>, i: int, leaf: int)
    requires
        on_path(nodes, i, leaf),
        0 <= leaf,
        i > 0,
        nodes[i].parent is Some,
        nodes[i].parent->0 < i,
    ensures
        on_path(nodes, nodes[i].parent->0 as int, leaf),
    decreases leaf,
{
    let up = nodes[i].parent->0 as int;
    if i == leaf {
        assert(on_path(nodes, up, up));
    } else {
        lemma_parent_on_path(nodes, i, nodes[leaf].parent->0 as int);
    }
}

/// No node was visited more often than the root.
pub proof fn lemma_visit_below_root(tree: &MCTSTree, i: int)
    requires
        tree.wf(),
        0 <= i < tree.nodes@.len(),
    ensures
        tree.nodes@[i].visit <= tree.nodes@[0].visit,
    decreases i,
{
    assert(tree.node_ok(i));
    if i > 0 {
        lemma_visit_below_root(tree, tree.nodes@[i].parent->0 as int);
    }
}

/// The visits of the first `k` children of a node together are the same in
/// two trees in which those children are the same with the same visits.
pub proof fn lemma_children_visits_kept(a: Seq<MCTSNode>, b: Seq<MCTSNode>, i: int, k: nat)
    requires
        k <= a[i].children@.len(),
        k <= b[i].children@.len(),
        forall|j: int|
            0 <= j < k ==> (#[trigger] b[i].children@[j]) == a[i].children@[j]
                && b[b[i].children@[j] as int].visit == a[a[i].children@[j] as int].visit,
    ensures
        children_visits(b, i, k) == children_visits(a, i, k),
    decreases k,
{
    if k > 0 {
        lemma_children_visits_kept(a, b, i, (k - 1) as nat);
        assert(b[i].children@[k - 1] == a[i].children@[k - 1]);
    }
}

/// A round adds to the visits of the first `k` children of a node together
/// what those children gain from it.
pub proof fn lemma_children_visits_shift(
    a: Seq<MCTSNode>,
    b: Seq<MCTSNode>,
    i: int,
    leaf: int,
    k: nat,
    total: int,
)
    requires
        k <= a[i].children@.len(),
        b[i].children == a[i].children,
        forall|j: int|
            0 <= j < k ==> b[(#[trigger] a[i].children@[j]) as int].visit == a[a[i].children@[j] as int].visit
                + if on_path(a, a[i].children@[j] as int, leaf) {
                total
            } else {
                0
            },
    ensures
        children_visits(b, i, k) == children_visits(a, i, k) + children_gain(a, i, leaf, k, total),
    decreases k,
{
    if k > 0 {
        lemma_children_visits_shift(a, b, i, leaf, (k - 1) as nat, total);
        assert(b[a[i].children@[k - 1] as int].visit == a[a[i].children@[k - 1] as int].visit
            + if on_path(a, a[i].children@[k - 1] as int, leaf) {
            total
        } else {
            0
        });
    }
}

/// No playout of rounds that were played from earlier nodes was played from
/// the node `i`.
pub proof fn lemma_visits_at_none(samples: Seq<Sample>, i: int)
    requires
        forall|k: int| 0 <= k < samples.len() ==> (#[trigger] samples[k]).node < i,
    ensures
        visits_at(samples, i) == 0,
    decreases samples.len(),
{
    if samples.len() > 0 {
        let rest = samples.drop_last();
        assert forall|k: int| 0 <= k < rest.len() implies (#[trigger] rest[k]).node < i by {
            assert(rest[k] == samples[k]);
        }
        lemma_visits_at_none(rest, i);
        assert(samples.last() == samples[samples.len() - 1]);
    }
}

/// On the way from a node up to another node above it lies a child of that
/// other node.
pub proof fn lemma_child_on_path(tree: &MCTSTree, i: int, leaf: int) -> (x: int)
    requires
        tree.wf(),
        0 <= i,
        0 <= leaf < tree.nodes@.len(),
        on_path(tree.nodes@, i, leaf),
        i != leaf,
    ensures
        i < x <= leaf,
        tree.nodes@[x].parent == Some(i as usize),
        on_path(tree.nodes@, x, leaf),
        tree.nodes@[i].children@.contains(x as usize),
    decreases leaf,
{
    assert(tree.node_ok(leaf));
    let up = tree.nodes@[leaf].parent->0 as int;
    if up == i {
        leaf
    } else {
        lemma_child_on_path(tree, i, up)
    }
}

/// Of the children of a node, at most one lies on the way from a node up to the
/// root: the first `k` children gain the round if one of them does, and
/// nothing if none does.
pub proof fn lemma_children_gain(tree: &MCTSTree, i: int, leaf: int, k: nat, total: int)
    requires
        tree.wf(),
        0 <= i < tree.nodes@.len(),
        0 <= leaf < tree.nodes@.len(),
        k <= tree.nodes@[i].children@.len(),
    ensures
        children_gain(tree.nodes@, i, leaf, k, total) == if exists|j: int|
            0 <= j < k && on_path(tree.nodes@, (#[trigger] tree.nodes@[i].children@[j]) as int, leaf) {
            total
        } else {
            0
        },
    decreases k,
{
    let nodes = tree.nodes@;
    let kids = nodes[i].children@;
    assert(tree.node_ok(i));
    if k > 0 {
        lemma_children_gain(tree, i, leaf, (k - 1) as nat, total);
        let last = kids[k - 1] as int;
        if on_path(nodes, last, leaf) {
            assert forall|j: int| 0 <= j < k - 1 implies !on_path(
                nodes,
                (#[trigger] kids[j]) as int,
                leaf,
            ) by {
                let other = kids[j] as int;
                if on_path(nodes, other, leaf) {
                    assert(other < last);
                    lemma_path_chain(nodes, other, last, leaf);
                    assert(nodes[last].parent == Some(i as usize));
                    lemma_path_below(nodes, other, i);
                }
            }
        }
    }
}

/// The children of a node gain a round together if and only if the round was
/// played from a node below that node.
pub proof fn lemma_children_gain_all(tree: &MCTSTree, i: int, leaf: int, total: int)
    requires
        tree.wf(),
        0 <= i < tree.nodes@.len(),
        0 <= leaf < tree.nodes@.len(),
    ensures
        children_gain(tree.nodes@, i, leaf, tree.nodes@[i].children@.len(), total) == if on_path(
            tree.nodes@,
            i,
            leaf,
        ) && i != leaf {
            total
        } else {
            0
        },
{
    let nodes = tree.nodes@;
    let kids = nodes[i].children@;
    assert(tree.node_ok(i));
    lemma_children_gain(tree, i, leaf, kids.len(), total);
    assert(nodes.len() <= usize::MAX) by {
        assert(tree.nodes.len() == nodes.len());
    }
    if on_path(nodes, i, leaf) && i != leaf {
        let x = lemma_child_on_path(tree, i, leaf);
        assert(kids.contains(x as usize));
        let j = choose|j: int| 0 <= j < kids.len() && #[trigger] kids[j] == x as usize;
        assert(on_path(nodes, kids[j] as int, leaf));
    }
    if exists|j: int| 0 <= j < kids.len() && on_path(nodes, (#[trigger] kids[j]) as int, leaf) {
        let j = choose|j: int|
            0 <= j < kids.len() && on_path(nodes, (#[trigger] kids[j]) as int, leaf);
        let c = kids[j] as int;
        assert(nodes[c].parent == Some(i as usize));
        lemma_parent_on_path(nodes, c, leaf);
        lemma_path_below(nodes, c, leaf);
    }
}

/// The state of one search: its parameters and counts of the work done.
pub struct MCTSSolverLogic {
    pub config: MCTSSolverConfig,
    /// Number of expansions made.
    pub total_expand: usize,
    /// Number of nodes made by expansions.
    pub total_nodes: usize,
}

impl MCTSSolverLogic {
    /// Builds the state of a search that has not done anything yet.
    pub fn new(config: MCTSSolverConfig) -> (logic: Self)
        ensures
            logic.config == config,
            logic.total_expand == 0,
            logic.total_nodes == 0,
    {
        Self { config, total_nodes: 0, total_expand: 0 }
    }

    /// Lists the visit count and the win count of each child of `node`, child by
    /// child.
    pub fn child_stats(tree: &MCTSTree, node: usize) -> (stats: Vec<(usize, usize)>)
        requires
            tree.wf(),
            node < tree.nodes@.len(),
        ensures
            stats@.len() == tree.nodes@[node as int].children@.len(),
            forall|k: int|
                0 <= k < stats@.len() ==> #[trigger] stats@[k] == (
                    tree.nodes@[tree.nodes@[node as int].children@[k] as int].visit,
                    tree.nodes@[tree.nodes@[node as int].children@[k] as int].win,
                ),
    {
        assert(tree.node_ok(node as int));
        let up = &tree.nodes[node];
        let mut stats: Vec<(usize, usize)> = Vec::new();
        let mut j: usize = 0;
        while j < up.children.len()
            invariant
                tree.wf(),
                tree.node_ok(node as int),
                node < tree.nodes@.len(),
                *up == tree.nodes@[node as int],
                j <= up.children@.len(),
                stats@.len() == j,
                forall|k: int|
                    0 <= k < j ==> #[trigger] stats@[k] == (
                        tree.nodes@[up.children@[k] as int].visit,
                        tree.nodes@[up.children@[k] as int].win,
                    ),
            decreases up.children@.len() - j,
        {
            let child = up.children[j];
            stats.push((tree.nodes[child].visit, tree.nodes[child].win));
            j += 1;
        }
        stats
    }

    /// Returns the child of `node` at the position `picked` among its children,
    /// or its first child where it has no child at that position.
    pub fn child_at(tree: &MCTSTree, node: usize, picked: usize) -> (child: usize)
        requires
            tree.wf(),
            node < tree.nodes@.len(),
            tree.nodes@[node as int].children@.len() > 0,
        ensures
            child == tree.nodes@[node as int].children@[if picked
                < tree.nodes@[node as int].children@.len() {
                picked as int
            } else {
                0
            }],
            node < child < tree.nodes@.len(),
            tree.nodes@[child as int].parent == Some(node),
    {
        assert(tree.node_ok(node as int));
        let up = &tree.nodes[node];
        if picked < up.children.len() {
            up.children[picked]
        } else {
            up.children[0]
        }
    }

    /// Chooses the child of `node` to descend into: the first child that was
    /// visited less than `min_sim` times; where there is none, the child at the
    /// position that `selector` picks from the counts of the children.
    pub fn select<S: ChildSelector>(&self, tree: &MCTSTree, node: usize, selector: &S) -> (child:
        usize)
        requires
            tree.wf(),
            node < tree.nodes@.len(),
            tree.nodes@[node as int].children@.len() > 0,
        ensures
            node < child < tree.nodes@.len(),
            tree.nodes@[node as int].children@.contains(child),
            tree.nodes@[child as int].parent == Some(node),
            forall|k: int|
                first_cold(tree.nodes@, node as int, self.config.min_sim, k) ==> child
                    == tree.nodes@[node as int].children@[k],
            picked_by_rule(tree.nodes@, self.config, child as int),
    {
        assert(tree.node_ok(node as int));
        let up = &tree.nodes[node];
        let count = up.children.len();
        let mut i: usize = 0;
        while i < count
            invariant
                tree.wf(),
                tree.node_ok(node as int),
                node < tree.nodes@.len(),
                *up == tree.nodes@[node as int],
                count == up.children@.len(),
                i <= count,
                forall|j: int|
                    0 <= j < i ==> tree.nodes@[(#[trigger] up.children@[j]) as int].visit
                        >= self.config.min_sim,
            decreases count - i,
        {
            let child = up.children[i];
            if tree.nodes[child].visit < self.config.min_sim {
                assert(first_cold(tree.nodes@, node as int, self.config.min_sim, i as int));
                assert forall|k: int|
                    first_cold(tree.nodes@, node as int, self.config.min_sim, k) implies child
                    == tree.nodes@[node as int].children@[k] by {
                    if k < i {
                        assert(tree.nodes@[up.children@[k] as int].visit >= self.config.min_sim);
                    } else if k > i {
                        assert(tree.nodes@[up.children@[i as int] as int].visit
                            >= self.config.min_sim);
                    }
                }
                return child;
            }
            i += 1;
        }
        let stats = Self::child_stats(tree, node);
        let picked = selector.pick(up.visit, &stats);
        assert forall|k: int|
            first_cold(tree.nodes@, node as int, self.config.min_sim, k) implies false by {
            assert(tree.nodes@[up.children@[k] as int].visit >= self.config.min_sim);
        }
        Self::child_at(tree, node, picked)
    }

    /// Expands the leaf `node`: makes one child for each legal move of the side
    /// to move in its position, in the order in which the moves are generated,
    /// and appends the children to the tree.
    #[verifier::rlimit(40)]
    pub fn expand(&mut self, tree: &mut MCTSTree, node: usize)
        requires
            old(tree).wf(),
            node < old(tree).nodes@.len(),
            old(tree).nodes@[node as int].children@.len() == 0,
            old(self).total_expand < usize::MAX,
            old(self).total_nodes <= old(tree).nodes@.len(),
        ensures
            final(tree).wf(),
            final(tree).samples@ == old(tree).samples@,
            final(self).config == old(self).config,
            final(self).total_expand == old(self).total_expand + 1,
            final(tree).nodes@.len() >= old(tree).nodes@.len(),
            final(self).total_nodes == old(self).total_nodes + final(tree).nodes@.len() - old(
                tree,
            ).nodes@.len(),
            forall|i: int|
                0 <= i < old(tree).nodes@.len() && i != node ==> (#[trigger] final(tree).nodes@[i])
                    == old(tree).nodes@[i],
            final(tree).nodes@[node as int].visit == old(tree).nodes@[node as int].visit,
            final(tree).nodes@[node as int].win == old(tree).nodes@[node as int].win,
            final(tree).nodes@[node as int].board == old(tree).nodes@[node as int].board,
            final(tree).nodes@[node as int].next_player == old(tree).nodes@[node as int].next_player,
            final(tree).nodes@[node as int].game_over == old(tree).nodes@[node as int].game_over,
            final(tree).nodes@[node as int].parent == old(tree).nodes@[node as int].parent,
            final(tree).nodes@[node as int].children@.len() == final(tree).nodes@.len() - old(
                tree,
            ).nodes@.len(),
            forall|k: int|
                0 <= k < final(tree).nodes@[node as int].children@.len() ==> (
                #[trigger] final(tree).nodes@[node as int].children@[k]) == old(tree).nodes@.len()
                    + k,
            forall|i: int|
                old(tree).nodes@.len() <= i < final(tree).nodes@.len() ==> {
                    &&& (#[trigger] final(tree).nodes@[i]).visit == 0
                    &&& final(tree).nodes@[i].win == 0
                    &&& final(tree).nodes@[i].children@.len() == 0
                },
            lists_exactly(
                child_actions(final(tree).nodes@, node as int),
                legal_for(
                    old(tree).nodes@[node as int].board@,
                    old(tree).nodes@[node as int].next_player,
                    false,
                ),
            ),
    {
        let ghost base = tree.nodes@;
        let ghost first = tree.nodes@.len();
        let ghost counted = self.total_nodes;
        assert(tree.node_ok(node as int));
        let next_player = tree.nodes[node].next_player;
        let actions = tree.nodes[node].board.generate_actions_all(next_player);
        self.total_expand += 1;
        let mut j: usize = 0;
        while j < actions.len()
            invariant
                tree.wf(),
                tree.samples@ == old(tree).samples@,
                base == old(tree).nodes@,
                first == base.len(),
                node < first,
                j <= actions@.len(),
                tree.nodes@.len() == first + j,
                self.total_nodes == counted + j,
                counted <= first,
                self.config == old(self).config,
                self.total_expand == old(self).total_expand + 1,
                lists_exactly(
                    actions@,
                    legal_for(base[node as int].board@, base[node as int].next_player, false),
                ),
                forall|i: int|
                    0 <= i < first && i != node ==> (#[trigger] tree.nodes@[i]) == base[i],
                tree.nodes@[node as int].visit == base[node as int].visit,
                tree.nodes@[node as int].win == base[node as int].win,
                tree.nodes@[node as int].board == base[node as int].board,
                tree.nodes@[node as int].next_player == base[node as int].next_player,
                tree.nodes@[node as int].player == base[node as int].player,
                tree.nodes@[node as int].game_over == base[node as int].game_over,
                tree.nodes@[node as int].parent == base[node as int].parent,
                tree.nodes@[node as int].children@.len() == j,
                forall|k: int|
                    0 <= k < j ==> (#[trigger] tree.nodes@[node as int].children@[k]) == first + k,
                forall|i: int|
                    first <= i < first + j ==> {
                        &&& (#[trigger] tree.nodes@[i]).visit == 0
                        &&& tree.nodes@[i].win == 0
                        &&& tree.nodes@[i].children@.len() == 0
                        &&& tree.nodes@[i].action == actions@[i - first]
                    },
            decreases actions@.len() - j,
        {
            let action = actions[j];
            proof {
                assert(actions@.contains(action));
                assert(legal_for(base[node as int].board@, base[node as int].next_player, false)(
                    action,
                ));
            }
            let ghost prev = tree.nodes@;
            let ghost rounds = tree.samples@;
            proof {
                assert forall|i: int| 0 <= i < prev.len() implies #[trigger] node_sound(
                    prev,
                    rounds,
                    i,
                ) by {
                    assert(tree.node_ok(i));
                }
            }
            let new_node = MCTSNode::expand_from_node(tree, node, action);
            let index = tree.nodes.len();
            tree.nodes.push(new_node);
            tree.nodes[node].children.push(index);
            let grown = tree.nodes.len();
            self.total_nodes += 1;
            proof {
                let now = tree.nodes@;
                assert(now.len() == prev.len() + 1);
                assert forall|i: int| 0 <= i < prev.len() && i != node implies now[i]
                    == prev[i] by {}
                assert(now[node as int].children@ == prev[node as int].children@.push(index));
                assert(now[node as int].children@[j as int] == index);
                assert(now[node as int].children@.contains(index));
                assert(tree.samples@ == rounds);
                assert forall|k: int| 0 <= k < j + 1 implies (
                #[trigger] now[node as int].children@[k]) == first + k by {
                    if k < j {
                        assert(prev[node as int].children@[k] == first + k);
                    }
                }
                assert forall|i: int| first <= i < first + j + 1 implies {
                    &&& (#[trigger] now[i]).visit == 0
                    &&& now[i].win == 0
                    &&& now[i].children@.len() == 0
                    &&& now[i].action == actions@[i - first]
                } by {
                    if i < first + j {
                        assert(now[i] == prev[i]);
                    }
                }
                assert forall|i: int| 0 <= i < now.len() implies tally_ok(now, rounds, i) by {
                    lemma_routed_kept(prev, now, rounds, i);
                    if i < prev.len() {
                        assert(node_sound(prev, rounds, i));
                    }
                }
                assert forall|i: int| 0 <= i < now.len() implies kids_ok(now, rounds, i) by {
                    if i == index {
                        assert forall|k: int| 0 <= k < rounds.len() implies (
                        #[trigger] rounds[k]).node < i by {}
                        lemma_visits_at_none(rounds, i);
                    } else {
                        assert(node_sound(prev, rounds, i));
                        if i == node {
                            assert forall|k: int| 0 <= k < j implies (
                            #[trigger] now[i].children@[k]) == prev[i].children@[k] && now[now[i].children@[k] as int].visit
                                == prev[prev[i].children@[k] as int].visit by {
                                assert(now[i].children@[k] == first + k);
                                assert(now[first + k] == prev[first + k]);
                            }
                            lemma_children_visits_kept(prev, now, i, j as nat);
                            assert(now[i].children@[j as int] == index);
                            assert(children_visits(now, i, (j + 1) as nat) == children_visits(
                                now,
                                i,
                                j as nat,
                            ) + now[index as int].visit);
                        } else {
                            assert(now[i].children == prev[i].children);
                            assert forall|k: int| 0 <= k < prev[i].children@.len() implies (
                            #[trigger] now[i].children@[k]) == prev[i].children@[k] && now[now[i].children@[k] as int].visit
                                == prev[prev[i].children@[k] as int].visit by {
                                let c = prev[i].children@[k] as int;
                                assert(i < c < prev.len());
                                if c == node {
                                    assert(now[c].visit == prev[c].visit);
                                } else {
                                    assert(now[c] == prev[c]);
                                }
                            }
                            lemma_children_visits_kept(prev, now, i, prev[i].children@.len());
                        }
                    }
                }
                assert forall|i: int| 0 <= i < now.len() implies #[trigger] tree.node_ok(i) by {
                    if i == index {
                        let fresh = now[i];
                        let up = now[node as int];
                        assert(node_sound(prev, rounds, node as int));
                        assert(up.board == prev[node as int].board);
                        assert(up.next_player == prev[node as int].next_player);
                        assert(up.player == prev[node as int].player);
                        assert(up.depth == prev[node as int].depth);
                        assert(now[0].board == prev[0].board);
                        assert(shape_ok(now, i));
                    } else if i == node {
                        assert(node_sound(prev, rounds, i));
                        assert forall|k: int| 0 <= k < now[i].children@.len() implies i < (
                        #[trigger] now[i].children@[k]) < now.len() && now[now[i].children@[k] as int].parent
                            == Some(i as usize) by {
                            if k < j {
                                assert(now[i].children@[k] == first + k);
                                assert(now[first + k] == prev[first + k]);
                                assert(node_sound(prev, rounds, first + k));
                            }
                        }
                        if i > 0 {
                            let up = prev[i].parent->0 as int;
                            assert(now[up] == prev[up]);
                        }
                        assert(shape_ok(now, i));
                    } else {
                        assert(node_sound(prev, rounds, i));
                        if i > 0 {
                            let up = prev[i].parent->0 as int;
                            if up == node {
                                assert(prev[up].children@.contains(i as usize));
                                let k = choose|k: int|
                                    0 <= k < prev[up].children@.len() && prev[up].children@[k]
                                        == i as usize;
                                assert(now[up].children@[k] == i as usize);
                            } else {
                                assert(now[up] == prev[up]);
                            }
                        }
                        assert forall|k: int| 0 <= k < now[i].children@.len() implies i < (
                        #[trigger] now[i].children@[k]) < now.len() && now[now[i].children@[k] as int].parent
                            == Some(i as usize) by {
                            assert(prev[i].children@[k] == now[i].children@[k]);
                        }
                        assert(shape_ok(now, i));
                    }
                }
            }
            j += 1;
        }
        proof {
            assert forall|k: int| 0 <= k < child_actions(tree.nodes@, node as int).len() implies child_actions(
                tree.nodes@,
                node as int,
            )[k] == actions@[k] by {
                assert(tree.nodes@[node as int].children@[k] == first + k);
                assert(tree.nodes@[first + k].action == actions@[first + k - first]);
            }
            assert(child_actions(tree.nodes@, node as int) =~= actions@);
        }
    }

    /// Adds the outcome of `total` playouts from the node `node`, of which `RED`
    /// won `red_win`, to the counts of `node` and of every node above it: the
    /// playouts to the visits, and to the wins those that the side that moved
    /// into the node won.
    #[verifier::rlimit(40)]
    pub fn update_mcts(&self, tree: &mut MCTSTree, node: usize, red_win: usize, total: usize)
        requires
            old(tree).wf(),
            node < old(tree).nodes@.len(),
            red_win <= total,
            old(tree).nodes@[0].visit + total <= usize::MAX,
        ensures
            final(tree).wf(),
            same_shape(old(tree).nodes@, final(tree).nodes@),
            final(tree).samples@ == old(tree).samples@.push(
                Sample { node: node as int, total: total as nat, red: red_win as nat },
            ),
            forall|i: int|
                0 <= i < old(tree).nodes@.len() ==> (#[trigger] final(tree).nodes@[i]).visit == old(
                    tree,
                ).nodes@[i].visit + if on_path(old(tree).nodes@, i, node as int) {
                    total as int
                } else {
                    0
                },
            forall|i: int|
                0 <= i < old(tree).nodes@.len() ==> (#[trigger] final(tree).nodes@[i]).win == old(
                    tree,
                ).nodes@[i].win + if !on_path(old(tree).nodes@, i, node as int) {
                    0
                } else if old(tree).nodes@[i].player == RED {
                    red_win as int
                } else {
                    total - red_win
                },
    {
        let ghost base = tree.nodes@;
        let ghost rounds = tree.samples@;
        let ghost round = Sample { node: node as int, total: total as nat, red: red_win as nat };
        let mut n: usize = node;
        let mut done = false;
        proof {
            assert forall|i: int| 0 <= i < base.len() && on_path(base, i, node as int) implies i
                <= node by {
                lemma_path_below(base, i, node as int);
            }
        }
        while !done
            invariant
                old(tree).wf(),
                base == old(tree).nodes@,
                rounds == old(tree).samples@,
                tree.samples@ == rounds,
                same_shape(base, tree.nodes@),
                node < base.len(),
                red_win <= total,
                base[0].visit + total <= usize::MAX,
                n < base.len(),
                !done ==> on_path(base, n as int, node as int),
                forall|i: int|
                    0 <= i < base.len() ==> (#[trigger] tree.nodes@[i]).visit == base[i].visit
                        + if on_path(base, i, node as int) && (done || i > n) {
                        total as int
                    } else {
                        0
                    },
                forall|i: int|
                    0 <= i < base.len() ==> (#[trigger] tree.nodes@[i]).win == base[i].win + if !(
                    on_path(base, i, node as int) && (done || i > n)) {
                        0
                    } else if base[i].player == RED {
                        red_win as int
                    } else {
                        total - red_win
                    },
            decreases
                    if done {
                        0
                    } else {
                        n + 1
                    },
        {
            let ghost now = tree.nodes@;
            proof {
                assert(old(tree).node_ok(n as int));
                lemma_visit_below_root(old(tree), n as int);
            }
            let gain = if tree.nodes[n].player == RED {
                red_win
            } else {
                total - red_win
            };
            let visit = tree.nodes[n].visit;
            let win = tree.nodes[n].win;
            tree.nodes[n].win = win + gain;
            tree.nodes[n].visit = visit + total;
            let up = tree.nodes[n].parent;
            proof {
                assert(same_shape(base, tree.nodes@));
                assert forall|i: int|
                    0 <= i < base.len() && on_path(base, i, node as int) && i <= n implies i == n
                    || (up is Some && i <= up->0) by {
                    lemma_path_chain(base, i, n as int, node as int);
                    if i != n {
                        lemma_path_below(base, i, base[n as int].parent->0 as int);
                    }
                }
            }
            match up {
                None => {
                    done = true;
                    proof {
                        assert forall|i: int|
                            0 <= i < base.len() && on_path(base, i, node as int) implies i
                            >= n by {
                            lemma_path_below(base, i, node as int);
                        }
                    }
                },
                Some(p) => {
                    proof {
                        lemma_parent_on_path(base, n as int, node as int);
                    }
                    n = p;
                },
            }
        }
        tree.samples = Ghost(rounds.push(round));
        proof {
            let now = tree.nodes@;
            let more = rounds.push(round);
            assert(more.drop_last() =~= rounds);
            assert(more.last() == round);
            assert forall|k: int| 0 <= k < more.len() implies 0 <= (#[trigger] more[k]).node
                < now.len() && more[k].red <= more[k].total by {
                if k < rounds.len() {
                    assert(more[k] == rounds[k]);
                }
            }
            assert forall|i: int| 0 <= i < now.len() implies #[trigger] tree.node_ok(i) by {
                assert(old(tree).node_ok(i));
                assert(shape_ok(now, i));
                if i > 0 && on_path(base, i, node as int) {
                    lemma_parent_on_path(base, i, node as int);
                }
                lemma_routed_kept(base, now, rounds, i);
                lemma_on_path_kept(base, now, i, node as int);
                assert(tally_ok(base, rounds, i));
                assert(now[i].player == base[i].player);
                assert(kids_ok(base, rounds, i));
                assert(now[i].children == base[i].children);
                assert forall|j: int| 0 <= j < base[i].children@.len() implies now[(
                #[trigger] base[i].children@[j]) as int].visit == base[base[i].children@[j] as int].visit
                    + if on_path(base, base[i].children@[j] as int, node as int) {
                    total as int
                } else {
                    0
                } by {
                    let c = base[i].children@[j] as int;
                    assert(0 <= c < base.len());
                    assert(now[c].visit == base[c].visit + if on_path(base, c, node as int) {
                        total as int
                    } else {
                        0
                    });
                }
                lemma_children_visits_shift(
                    base,
                    now,
                    i,
                    node as int,
                    base[i].children@.len(),
                    total as int,
                );
                lemma_children_gain_all(old(tree), i, node as int, total as int);
                assert(kids_ok(now, more, i));
            }
        }
    }
}

impl MCTSSolverLogic {
    /// Runs rounds of the search until the root has been visited
    /// `simulation_count` times. Each round descends from the root to a leaf,
    /// expands the leaf if it was visited `max_sim` times and its position is
    /// not won, and then descends once more; plays `times_per_sim` playouts from
    /// the node reached, or counts as many wins for the winner where its
    /// position is won; and adds the outcome to the counts of that node and of
    /// every node above it.
    ///
    /// Each round adds `times_per_sim` visits to the root. A new tree for a
    /// position that is not won and in which the side to move has a move has its
    /// root expanded at the end, provided the budget lasts until the round in
    /// which the root is expanded.
    ///
    /// In a tree that was new, every node is expanded when it is due and not
    /// before, so that the visits of a node with children are
    /// `first_expansion()` of its own and those of its children, and the
    /// children of every node are chosen in turn, those visited less than
    /// `min_sim` times first. A round played from a won position counts all its
    /// playouts for the side that has won.
    #[verifier::rlimit(80)]
    pub fn uct<S: ChildSelector>(&mut self, tree: &mut MCTSTree, selector: &S)
        requires
            old(tree).wf(),
            old(self).config.valid(),
            old(self).total_expand <= old(tree).nodes@[0].visit,
            old(self).total_nodes <= old(tree).nodes@.len(),
        ensures
            final(tree).wf(),
            final(self).config == old(self).config,
            final(tree).nodes@[0].board == old(tree).nodes@[0].board,
            final(tree).nodes@[0].next_player == old(tree).nodes@[0].next_player,
            exists|rounds: nat|
                {
                    &&& final(tree).nodes@[0].visit == old(tree).nodes@[0].visit + #[trigger] (
                    rounds * old(self).config.times_per_sim)
                    &&& final(tree).samples@.len() == old(tree).samples@.len() + rounds
                },
            final(tree).samples@.len() >= old(tree).samples@.len(),
            final(tree).samples@.subrange(0, old(tree).samples@.len() as int) == old(tree).samples@,
            forall|j: int|
                old(tree).samples@.len() <= j < final(tree).samples@.len() ==> (
                #[trigger] final(tree).samples@[j]).total == old(self).config.times_per_sim,
            final(tree).nodes@[0].visit >= old(self).config.simulation_count,
            final(tree).nodes@[0].visit == old(tree).nodes@[0].visit || final(tree).nodes@[0].visit
                < old(self).config.simulation_count + old(self).config.times_per_sim,
            old(tree).nodes@[0].visit == 0 && old(self).config.first_expansion() < old(
                self,
            ).config.simulation_count && old(tree).nodes@[0].game_over is None && has_move(
                old(tree).nodes@[0].board@,
                old(tree).nodes@[0].next_player,
            ) ==> final(tree).nodes@[0].children@.len() > 0,
            old(tree).nodes@.len() == 1 && old(tree).samples@.len() == 0 ==> forall|i: int|
                0 <= i < final(tree).nodes@.len() ==> (#[trigger] on_schedule(
                    final(tree).nodes@,
                    final(tree).samples@,
                    old(self).config,
                    i,
                )) && chosen_in_turn(final(tree).nodes@, old(self).config, i),
            forall|j: int|
                old(tree).samples@.len() <= j < final(tree).samples@.len() ==> decided_right(
                    final(tree).nodes@,
                    #[trigger] final(tree).samples@[j],
                ),
    {
        let ghost start = tree.nodes@[0].visit;
        let ghost played = tree.samples@;
        let ghost kept = tree.nodes@.len() == 1 && tree.samples@.len() == 0;
        proof {
            if kept {
                lemma_schedule_start(tree, self.config);
            }
            assert(decided_from(*tree, played.len() as int)) by {
                reveal(decided_from);
            }
        }
        let ghost root_board = tree.nodes@[0].board;
        let ghost root_player = tree.nodes@[0].next_player;
        let ghost root_over = tree.nodes@[0].game_over;
        let ghost per = self.config.times_per_sim as int;
        let ghost mut k: nat = 0;
        let ghost q = lemma_first_multiple(self.config.max_sim as int, per);
        let ghost guarded = start == 0 && self.config.first_expansion()
            < self.config.simulation_count && root_over is None && has_move(
            root_board@,
            root_player,
        );
        proof {
            assert(k * per == 0) by (nonlinear_arith)
                requires
                    k == 0,
            ;
            assert(tree.samples@.subrange(0, played.len() as int) =~= played);
        }
        while tree.nodes[0].visit < self.config.simulation_count
            invariant
                tree.wf(),
                self.config == old(self).config,
                self.config.valid(),
                per == self.config.times_per_sim,
                self.total_expand <= tree.nodes@[0].visit,
                self.total_nodes <= tree.nodes@.len(),
                tree.nodes@[0].board == root_board,
                tree.nodes@[0].next_player == root_player,
                tree.nodes@[0].game_over == root_over,
                tree.nodes@[0].visit == start + k * per,
                old(tree).wf(),
                start == old(tree).nodes@[0].visit,
                played == old(tree).samples@,
                kept == (old(tree).nodes@.len() == 1 && old(tree).samples@.len() == 0),
                kept ==> scheduled(*tree, self.config),
                decided_from(*tree, played.len() as int),
                tree.samples@.len() == played.len() + k,
                tree.samples@.subrange(0, played.len() as int) == played,
                forall|j: int|
                    played.len() <= j < tree.samples@.len() ==> (#[trigger] tree.samples@[j]).total
                        == per,
                k == 0 || tree.nodes@[0].visit < self.config.simulation_count + per,
                0 <= q,
                q * per >= self.config.max_sim,
                self.config.first_expansion() == q * per,
                guarded ==> start == 0 && q * per < self.config.simulation_count && root_over
                    is None && has_move(root_board@, root_player),
                guarded ==> tree.nodes@[0].children@.len() > 0 || k <= q,
            decreases
                    if tree.nodes@[0].visit < self.config.simulation_count {
                        self.config.simulation_count - tree.nodes@[0].visit
                    } else {
                        0
                    },
        {
            let ghost at_start = tree.nodes@[0].visit;
            let mut n: usize = 0;
            while tree.nodes[n].has_children()
                invariant
                    tree.wf(),
                    n < tree.nodes@.len(),
                    tree.nodes@[0].children@.len() == 0 ==> n == 0,
                    path_by_rule(tree.nodes@, self.config, n as int),
                decreases tree.nodes@.len() - n,
            {
                let ghost up = n;
                n = self.select(tree, n, selector);
                proof {
                    lemma_path_rule_step(tree.nodes@, self.config, up as int, n as int);
                }
            }
            let visit = tree.nodes[n].visit;
            if visit >= self.config.max_sim {
                let is_game_over = tree.nodes[n].game_over.is_some();
                if !is_game_over {
                    let ghost before = *tree;
                    self.expand(tree, n);
                    proof {
                        lemma_schedule_expanded(
                            &before,
                            tree,
                            self.config,
                            n as int,
                            played.len() as int,
                            kept,
                        );
                        if n == 0 && guarded {
                            let moves = child_actions(tree.nodes@, 0);
                            let some = choose|a: Action| is_legal(root_board@, root_player, a);
                            assert(legal_for(root_board@, root_player, false)(some));
                            assert(moves.contains(some));
                        }
                    }
                    if tree.nodes[n].has_children() {
                        let ghost up = n;
                        n = self.select(tree, n, selector);
                        proof {
                            let kids = tree.nodes@[up as int].children@;
                            let at = choose|at: int| 0 <= at < kids.len() && kids[at] == n;
                            assert(kids[at] == before.nodes@.len() + at);
                            assert(tree.nodes@[n as int].visit == 0);
                            assert(tree.nodes@[n as int].children@.len() == 0);
                            lemma_path_rule_step(tree.nodes@, self.config, up as int, n as int);
                        }
                    }
                }
            }
            proof {
                assert(tree.node_ok(n as int));
            }
            let times = self.config.times_per_sim;
            let mut red_win: usize = 0;
            let ghost from_board = tree.nodes@[n as int].board@;
            let ghost to_move = tree.nodes@[n as int].next_player;
            match tree.nodes[n].game_over {
                Some(player) => {
                    if player == RED {
                        red_win = times;
                    }
                    proof {
                        let none = Seq::<Action>::empty();
                        assert(playout_ends(from_board, to_move, none, player == RED));
                    }
                },
                None => {
                    let mut games: usize = 0;
                    while games < times
                        invariant
                            tree.wf(),
                            n < tree.nodes@.len(),
                            games <= times,
                            red_win <= games,
                            from_board == tree.nodes@[n as int].board@,
                            to_move == tree.nodes@[n as int].next_player,
                            red_win > 0 ==> exists|line: Seq<Action>|
                                playout_ends(from_board, to_move, line, true),
                            red_win < games ==> exists|line: Seq<Action>|
                                playout_ends(from_board, to_move, line, false),
                        decreases times - games,
                    {
                        proof {
                            assert(tree.node_ok(n as int));
                        }
                        if NaiveSimulator.simulate(&tree.nodes[n].board, tree.nodes[n].next_player) {
                            red_win += 1;
                        }
                        games += 1;
                    }
                },
            }
            proof {
                lemma_root_on_path(tree, n as int);
                assert(tree.nodes@[0].visit == at_start);
            }
            let ghost pending = tree.nodes@;
            let ghost logged = tree.samples@;
            let ghost unsampled = *tree;
            self.update_mcts(tree, n, red_win, times);
            proof {
                lemma_schedule_sampled(
                    &unsampled,
                    tree,
                    self.config,
                    n as int,
                    red_win as nat,
                    played.len() as int,
                    kept,
                );
                assert(tree.samples@.subrange(0, played.len() as int) =~= logged.subrange(
                    0,
                    played.len() as int,
                ));
                assert forall|j: int| played.len() <= j < tree.samples@.len() implies (
                #[trigger] tree.samples@[j]).total == per by {
                    if j < logged.len() {
                        assert(tree.samples@[j] == logged[j]);
                    }
                }
                assert(on_path(pending, 0, n as int));
                assert(tree.nodes@[0].visit == pending[0].visit + times);
                assert(tree.nodes@[0].children == pending[0].children);
                assert((k + 1) * per == k * per + per) by (nonlinear_arith);
                if guarded && tree.nodes@[0].children@.len() == 0 {
                    assert(at_start < self.config.max_sim);
                    assert(k < q) by (nonlinear_arith)
                        requires
                            k * per < q * per,
                            0 < per,
                    ;
                }
                k = k + 1;
            }
        }
        proof {
            if guarded && tree.nodes@[0].children@.len() == 0 {
                assert(false) by (nonlinear_arith)
                    requires
                        k <= q,
                        0 < per,
                        k * per >= self.config.simulation_count,
                        q * per < self.config.simulation_count,
                ;
            }
            assert(tree.nodes@[0].visit == start + k * self.config.times_per_sim);
            assert(tree.samples@.len() == played.len() + k);
            if kept {
                reveal(scheduled);
            }
            reveal(decided_from);
        }
    }
}

/// Whether `best` is the child of the root that was visited most often, the
/// first of them where several were.
pub open spec fn is_most_visited(nodes: Seq<MCTSNode>, best: int) -> bool {
    &&& 0 < best < nodes.len()
    &&& exists|k: int|
        0 <= k < nodes[0].children@.len() && #[trigger] nodes[0].children@[k] == best && (forall|
            j: int,
        |
            0 <= j < k ==> nodes[(#[trigger] nodes[0].children@[j]) as int].visit
                < nodes[best].visit)
    &&& forall|j: int|
        0 <= j < nodes[0].children@.len() ==> nodes[(#[trigger] nodes[0].children@[j]) as int].visit
            <= nodes[best].visit
}

/// Whether `tree` is the tree of a finished search from the position `g` with
/// `player` to move, and `action` the move that leads to `best`, the child of
/// its root that was visited most often. The tree is well formed; its root has
/// been visited in whole rounds up to the budget; every node of it was
/// expanded when it was due, so that the children of the root have all visits
/// of the root but the first `first_expansion()`; the children of every node
/// were chosen in turn; and every round played from a won position counts for
/// the side that has won.
pub open spec fn is_search_result(
    tree: MCTSTree,
    best: int,
    g: Grid,
    player: usize,
    config: MCTSSolverConfig,
    action: Action,
) -> bool {
    &&& tree.wf()
    &&& tree.nodes@[0].board@ == g
    &&& tree.nodes@[0].next_player == player
    &&& tree.nodes@[0].visit == tree.samples@.len() * config.times_per_sim
    &&& config.simulation_count <= tree.nodes@[0].visit < config.simulation_count
        + config.times_per_sim
    &&& tree.nodes@[0].children@.len() > 0
    &&& children_visits(tree.nodes@, 0, tree.nodes@[0].children@.len()) == tree.nodes@[0].visit
        - config.first_expansion()
    &&& forall|i: int|
        0 <= i < tree.nodes@.len() ==> (#[trigger] on_schedule(
            tree.nodes@,
            tree.samples@,
            config,
            i,
        )) && chosen_in_turn(tree.nodes@, config, i)
    &&& forall|j: int|
        0 <= j < tree.samples@.len() ==> (#[trigger] tree.samples@[j]).total
            == config.times_per_sim && decided_right(tree.nodes@, tree.samples@[j])
    &&& is_most_visited(tree.nodes@, best)
    &&& tree.nodes@[best].action == action
}

/// The search that plays random games from the positions it reaches, and
/// returns the move that it looked into most often.
pub struct MCTSSolver<S: ChildSelector> {
    pub config: MCTSSolverConfig,
    /// The way to choose among children that have been visited often enough.
    pub selector: S,
}

impl<S: ChildSelector> MCTSSolver<S> {
    /// Builds a solver with the given parameters and way of choosing.
    pub fn new(config: MCTSSolverConfig, selector: S) -> (solver: Self)
        ensures
            solver.config == config,
            solver.selector == selector,
    {
        MCTSSolver { config, selector }
    }

    /// Searches from the position on `board`, `next_player` to move, and returns
    /// the tree that the search has built with the child of the root that was
    /// visited most often, the first of them where several were.
    ///
    /// The root of the tree has then been visited in whole rounds up to the
    /// budget: exactly `simulation_count` times where that is a multiple of
    /// `times_per_sim`.
    pub fn solve_tree(&self, board: &Board, next_player: usize) -> (found: (usize, MCTSTree))
        requires
            board.wf(),
            next_player == RED || next_player == BLUE,
            has_move(board@, next_player),
            winner(board@) is None,
            self.config.valid(),
            self.config.first_expansion() < self.config.simulation_count,
        ensures
            found.1.wf(),
            found.1.nodes@[0].board@ == board@,
            found.1.nodes@[0].next_player == next_player,
            found.1.nodes@[0].visit == found.1.samples@.len() * self.config.times_per_sim,
            found.1.nodes@[0].visit >= self.config.simulation_count,
            found.1.nodes@[0].visit < self.config.simulation_count + self.config.times_per_sim,
            self.config.simulation_count % self.config.times_per_sim == 0
                ==> found.1.nodes@[0].visit == self.config.simulation_count,
            0 < found.0 < found.1.nodes@.len(),
            found.1.nodes@[0].children@.contains(found.0),
            forall|j: int|
                0 <= j < found.1.nodes@[0].children@.len() ==> found.1.nodes@[(
                #[trigger] found.1.nodes@[0].children@[j]) as int].visit
                    <= found.1.nodes@[found.0 as int].visit,
            is_legal(board@, next_player, found.1.nodes@[found.0 as int].action),
            is_search_result(
                found.1,
                found.0 as int,
                board@,
                next_player,
                self.config,
                found.1.nodes@[found.0 as int].action,
            ),
    {
        let mut tree = MCTSTree::new(board, next_player);
        let mut logic = MCTSSolverLogic::new(self.config);
        proof {
            assert(tree.node_ok(0));
        }
        logic.uct(&mut tree, &self.selector);
        let best = get_most_visited_children(&tree);
        proof {
            assert(tree.node_ok(best as int));
            assert(tree.node_ok(0));
            assert(on_schedule(tree.nodes@, tree.samples@, self.config, 0));
            let rounds = choose|rounds: nat|
                {
                    &&& tree.nodes@[0].visit == 0 + #[trigger] (rounds
                        * self.config.times_per_sim)
                    &&& tree.samples@.len() == 0 + rounds
                };
            if self.config.simulation_count % self.config.times_per_sim == 0 {
                lemma_budget_met(
                    tree.nodes@[0].visit as int,
                    rounds as int,
                    self.config.simulation_count as int,
                    self.config.times_per_sim as int,
                );
            }
        }
        (best, tree)
    }
}

impl<S: ChildSelector> Solver for MCTSSolver<S> {
    /// The solver needs parameters with which a search can run, a budget that
    /// lasts until the root is expanded, and a position that nobody has won.
    open spec fn ready(&self, g: Grid, player: usize) -> bool {
        &&& self.config.valid()
        &&& self.config.first_expansion() < self.config.simulation_count
        &&& winner(g) is None
    }

    /// Picks the move that the search looked into most often: the move that
    /// leads to the most visited child of the root of the tree of a finished
    /// search from the position.
    fn solve(&self, board: &Board, next_player: usize) -> (action: Action)
        ensures
            exists|tree: MCTSTree, best: int|
                is_search_result(tree, best, board@, next_player, self.config, action),
    {
        let found = self.solve_tree(board, next_player);
        let tree = found.1;
        let action = tree.nodes[found.0].action;
        proof {
            assert(is_search_result(
                tree,
                found.0 as int,
                board@,
                next_player,
                self.config,
                action,
            ));
        }
        action
    }
}

/// Returns the child of the root that was visited most often, the first of
/// them where several were.
pub fn get_most_visited_children(tree: &MCTSTree) -> (best: usize)
    requires
        tree.wf(),
        tree.nodes@[0].children@.len() > 0,
    ensures
        0 < best < tree.nodes@.len(),
        tree.nodes@[best as int].parent == Some(0usize),
        exists|k: int|
            0 <= k < tree.nodes@[0].children@.len() && #[trigger] tree.nodes@[0].children@[k]
                == best && (forall|j: int|
                0 <= j < k ==> tree.nodes@[(#[trigger] tree.nodes@[0].children@[j]) as int].visit
                    < tree.nodes@[best as int].visit),
        forall|j: int|
            0 <= j < tree.nodes@[0].children@.len() ==> tree.nodes@[(
            #[trigger] tree.nodes@[0].children@[j]) as int].visit <= tree.nodes@[best as int].visit,
{
    assert(tree.node_ok(0));
    let root = &tree.nodes[0];
    let mut max_visit: usize = 0;
    let mut max_index: usize = 0;
    let mut index: usize = 0;
    while index < root.children.len()
        invariant
            tree.wf(),
            tree.node_ok(0),
            *root == tree.nodes@[0],
            root.children@.len() > 0,
            index <= root.children@.len(),
            max_index < root.children@.len(),
            max_index == 0 || max_index < index,
            index > 0 ==> max_visit == tree.nodes@[root.children@[max_index as int] as int].visit,
            index == 0 ==> max_visit == 0,
            forall|j: int|
                0 <= j < index ==> tree.nodes@[(#[trigger] root.children@[j]) as int].visit
                    <= max_visit,
            forall|j: int|
                0 <= j < max_index ==> tree.nodes@[(#[trigger] root.children@[j]) as int].visit
                    < max_visit,
        decreases root.children@.len() - index,
    {
        let child = root.children[index];
        let visit = tree.nodes[child].visit;
        if visit > max_visit {
            max_visit = visit;
            max_index = index;
        } else if index == 0 {
            max_visit = visit;
        }
        index += 1;
    }
    root.children[max_index]
}

} // verus!
