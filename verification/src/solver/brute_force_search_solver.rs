use vstd::prelude::*;
use std::collections::{HashSet, VecDeque};
use std::collections::hash_map::DefaultHasher;
use std::hash::Hasher;
use vstd::std_specs::hash::DefaultHasherAdditionalSpecFns;
use crate::board::action::Action;
use crate::board::board::Board;
use crate::board::grid::{Grid, is_square};
use crate::board::rules::{
    apply_move, is_legal, legal_for, lemma_legal_move_lands_on_empty, lemma_revert_restores,
    lists_exactly, wins,
};
use crate::constants::{BLUE, EMPTY, RED};
use crate::solver::action_path::ActionPath;
use crate::solver::solver::MaybeSolver;

verus! {

/// The position `g` with every cell that does not hold a piece of `player`
/// cleared.
pub open spec fn extract(g: Grid, player: usize) -> Grid {
    Seq::new(
        g.len(),
        |x: int|
            Seq::new(
                g[x].len(),
                |y: int|
                    if g[x][y] == player {
                        player
                    } else {
                        EMPTY
                    },
            ),
    )
}

/// Whether each move of `line` is a legal move of `player` in the position in
/// which it is made, starting from `g`, with no move of the other side between.
pub open spec fn is_line_of(g: Grid, player: usize, line: Seq<Action>) -> bool
    decreases line.len(),
{
    line.len() == 0 || (is_legal(g, player, line[0]) && is_line_of(
        apply_move(g, line[0]),
        player,
        line.drop_first(),
    ))
}

/// The position after the moves of `line` have been made from `g`, first move
/// first.
pub open spec fn play_line(g: Grid, line: Seq<Action>) -> Grid
    decreases line.len(),
{
    if line.len() == 0 {
        g
    } else {
        play_line(apply_move(g, line[0]), line.drop_first())
    }
}

/// Whether `line` is a line of moves of `player` that ends in a position
/// `player` has won.
pub open spec fn is_winning_line(g: Grid, player: usize, line: Seq<Action>) -> bool {
    is_line_of(g, player, line) && wins(play_line(g, line), player)
}

/// Whether `player`, moving alone, can reach a won position from `g` in `n`
/// moves or fewer.
pub open spec fn can_win_within(g: Grid, player: usize, n: nat) -> bool
    decreases n,
{
    wins(g, player) || (n > 0 && exists|a: Action| #[trigger]
        is_legal(g, player, a) && can_win_within(apply_move(g, a), player, (n - 1) as nat))
}

/// A winning line stays one when a legal move is put in front of it.
pub proof fn lemma_line_after_move(g: Grid, player: usize, a: Action, line: Seq<Action>)
    requires
        is_legal(g, player, a),
        is_winning_line(apply_move(g, a), player, line),
    ensures
        is_winning_line(g, player, seq![a] + line),
        play_line(g, seq![a] + line) == play_line(apply_move(g, a), line),
{
    let longer = seq![a] + line;
    assert(longer[0] == a);
    assert(longer.drop_first() =~= line);
}

/// A winning line of `n` moves or fewer shows that `player` can win within `n`
/// moves.
pub proof fn lemma_winning_line_wins(g: Grid, player: usize, line: Seq<Action>, n: nat)
    requires
        is_winning_line(g, player, line),
        line.len() <= n,
    ensures
        can_win_within(g, player, n),
    decreases line.len(),
{
    if line.len() > 0 {
        lemma_winning_line_wins(
            apply_move(g, line[0]),
            player,
            line.drop_first(),
            (n - 1) as nat,
        );
    }
}

/// A line of legal moves stays one when a legal move is added at its end.
pub proof fn lemma_line_push(g: Grid, player: usize, line: Seq<Action>, a: Action)
    requires
        is_line_of(g, player, line),
        is_legal(play_line(g, line), player, a),
    ensures
        is_line_of(g, player, line.push(a)),
        play_line(g, line.push(a)) == apply_move(play_line(g, line), a),
    decreases line.len(),
{
    let longer = line.push(a);
    if line.len() == 0 {
        assert(longer[0] == a);
        assert(longer.drop_first() =~= Seq::<Action>::empty());
        assert(is_line_of(apply_move(g, a), player, longer.drop_first()));
        assert(play_line(apply_move(g, a), longer.drop_first()) == apply_move(g, a));
    } else {
        assert(longer[0] == line[0]);
        assert(longer.drop_first() =~= line.drop_first().push(a));
        lemma_line_push(apply_move(g, line[0]), player, line.drop_first(), a);
    }
}

/// The first `k` bytes of `v`, the least significant first.
pub open spec fn le_bytes(v: nat, k: nat) -> Seq<u8>
    decreases k,
{
    if k == 0 {
        Seq::<u8>::empty()
    } else {
        seq![(v % 256) as u8] + le_bytes(v / 256, (k - 1) as nat)
    }
}

/// The bytes of the first `n` cells of a column, eight bytes a cell.
pub open spec fn column_bytes(col: Seq<usize>, n: nat) -> Seq<u8>
    decreases n,
{
    if n == 0 {
        Seq::<u8>::empty()
    } else {
        column_bytes(col, (n - 1) as nat) + le_bytes(col[n - 1] as nat, 8)
    }
}

/// The bytes of the first `m` columns of a grid.
pub open spec fn grid_bytes(g: Grid, m: nat) -> Seq<u8>
    decreases m,
{
    if m == 0 {
        Seq::<u8>::empty()
    } else {
        grid_bytes(g, (m - 1) as nat) + column_bytes(g[m - 1], g[m - 1].len())
    }
}

/// The hash of a position: that of the bytes of its cells, column by column,
/// by the default hasher of the standard library.
pub open spec fn position_hash(g: Grid) -> u64 {
    DefaultHasher::spec_finish(seq![grid_bytes(g, g.len())])
}

/// Whether the position `s` is among `seen` with a depth of no more than `bound`.
pub open spec fn known(seen: Seq<Grid>, depths: Seq<nat>, s: Grid, bound: int) -> bool {
    exists|m: int| 0 <= m < seen.len() && #[trigger] seen[m] == s && depths[m] <= bound
}

/// Whether every position that one move of `player` leads to from the position
/// `seen[j]` is among `seen`, with a depth of no more than one above that of
/// `seen[j]`.
pub open spec fn expanded(seen: Seq<Grid>, depths: Seq<nat>, j: int, player: usize) -> bool {
    forall|a: Action| #[trigger]
        is_legal(seen[j], player, a) ==> known(
            seen,
            depths,
            apply_move(seen[j], a),
            (depths[j] + 1) as int,
        )
}

/// What a breadth-first search has established of the positions it has taken
/// from its queue, the first `done` of `seen`: none of them is won, each of them
/// that lies above the depth bound has had its moves followed, and every
/// position seen at a depth below `limit` is among them.
pub open spec fn searched(
    seen: Seq<Grid>,
    depths: Seq<nat>,
    done: int,
    player: usize,
    max_depth: nat,
    limit: int,
) -> bool {
    &&& seen.len() == depths.len()
    &&& 0 <= done <= seen.len()
    &&& limit <= max_depth + 1
    &&& forall|i: int| 0 <= i < done ==> !wins(#[trigger] seen[i], player)
    &&& forall|i: int|
        0 <= i < done && depths[i] < max_depth ==> #[trigger] expanded(seen, depths, i, player)
    &&& forall|m: int| 0 <= m < seen.len() && #[trigger] depths[m] < limit ==> m < done
}

/// From a position that a breadth-first search has taken from its queue,
/// `player` cannot win in fewer moves than the search still has to go before
/// it reaches the depth `limit`.
pub proof fn lemma_no_win_below(
    seen: Seq<Grid>,
    depths: Seq<nat>,
    done: int,
    player: usize,
    max_depth: nat,
    limit: int,
    j: int,
    n: nat,
)
    requires
        searched(seen, depths, done, player, max_depth, limit),
        0 <= j < done,
        depths[j] + n < limit,
    ensures
        !can_win_within(seen[j], player, n),
    decreases n,
{
    if n > 0 {
        assert(expanded(seen, depths, j, player));
        assert forall|a: Action| #[trigger] is_legal(seen[j], player, a) implies !can_win_within(
            apply_move(seen[j], a),
            player,
            (n - 1) as nat,
        ) by {
            let s = apply_move(seen[j], a);
            assert(known(seen, depths, s, (depths[j] + 1) as int));
            let m = choose|m: int| 0 <= m < seen.len() && #[trigger] seen[m] == s && depths[m]
                <= depths[j] + 1;
            lemma_no_win_below(seen, depths, done, player, max_depth, limit, m, (n - 1) as nat);
        }
    }
}

/// What was known of the positions seen stays known when one more is seen.
pub proof fn lemma_seen_grows(
    seen: Seq<Grid>,
    depths: Seq<nat>,
    s: Grid,
    d: nat,
    player: usize,
)
    requires
        seen.len() == depths.len(),
    ensures
        forall|t: Grid, bound: int| #[trigger]
            known(seen, depths, t, bound) ==> known(seen.push(s), depths.push(d), t, bound),
        forall|j: int|
            0 <= j < seen.len() && #[trigger] expanded(seen, depths, j, player) ==> expanded(
                seen.push(s),
                depths.push(d),
                j,
                player,
            ),
        known(seen.push(s), depths.push(d), s, d as int),
{
    let more = seen.push(s);
    let deeper = depths.push(d);
    assert forall|t: Grid, bound: int| #[trigger] known(seen, depths, t, bound) implies known(
        more,
        deeper,
        t,
        bound,
    ) by {
        let m = choose|m: int| 0 <= m < seen.len() && #[trigger] seen[m] == t && depths[m]
            <= bound;
        assert(more[m] == t && deeper[m] <= bound);
    }
    assert forall|j: int|
        0 <= j < seen.len() && #[trigger] expanded(seen, depths, j, player) implies expanded(
        more,
        deeper,
        j,
        player,
    ) by {
        assert(more[j] == seen[j] && deeper[j] == depths[j]);
        assert forall|a: Action| #[trigger] is_legal(more[j], player, a) implies known(
            more,
            deeper,
            apply_move(more[j], a),
            (deeper[j] + 1) as int,
        ) by {
            assert(known(seen, depths, apply_move(seen[j], a), (depths[j] + 1) as int));
        }
    }
    assert(more[seen.len() as int] == s && deeper[seen.len() as int] == d);
}

/// A position that a breadth-first search has reached, with the moves that
/// led to it.
struct Node {
    data: Board,
    depth: usize,
    actions: ActionPath,
}

impl Node {
    /// Whether the node holds the position that its moves, a line of `depth`
    /// legal moves of `player`, lead to from `g`.
    spec fn reached(&self, g: Grid, n: int, player: usize) -> bool {
        &&& self.data.wf()
        &&& self.data.size == n
        &&& self.actions@.len() == self.depth
        &&& is_line_of(g, player, self.actions@)
        &&& self.data@ == play_line(g, self.actions@)
    }
}

/// Appends the eight bytes of `value`, the least significant first.
fn push_cell_bytes(out: &mut Vec<u8>, value: usize)
    ensures
        final(out)@ == old(out)@ + le_bytes(value as nat, 8),
{
    let mut rest: u64 = value as u64;
    let mut k: usize = 0;
    while k < 8
        invariant
            k <= 8,
            out@ + le_bytes(rest as nat, (8 - k) as nat) == old(out)@ + le_bytes(value as nat, 8),
        decreases 8 - k,
    {
        let ghost before = out@;
        out.push((rest % 256) as u8);
        proof {
            let tail = le_bytes((rest / 256) as nat, (8 - k - 1) as nat);
            assert(le_bytes(rest as nat, (8 - k) as nat) == seq![(rest % 256) as u8] + tail);
            assert(out@ + tail =~= before + (seq![(rest % 256) as u8] + tail));
        }
        rest = rest / 256;
        k += 1;
    }
    proof {
        assert(out@ + le_bytes(rest as nat, 0) =~= out@);
    }
}

/// Hashes the cells of the board, column by column, with the default hasher of
/// the standard library.
fn get_board_hash(board: &Board) -> (hash: u64)
    requires
        board.wf(),
    ensures
        hash == position_hash(board@),
{
    let ghost g = board@;
    let mut bytes: Vec<u8> = Vec::new();
    let mut i: usize = 0;
    proof {
        assert(bytes@ =~= grid_bytes(g, 0));
    }
    while i < board.size
        invariant
            board.wf(),
            g == board@,
            i <= board.size,
            bytes@ == grid_bytes(g, i as nat),
        decreases board.size - i,
    {
        let ghost base = bytes@;
        let mut j: usize = 0;
        proof {
            assert(bytes@ =~= base + column_bytes(g[i as int], 0));
        }
        while j < board.size
            invariant
                board.wf(),
                g == board@,
                i < board.size,
                j <= board.size,
                base == grid_bytes(g, i as nat),
                bytes@ == base + column_bytes(g[i as int], j as nat),
            decreases board.size - j,
        {
            push_cell_bytes(&mut bytes, board.cell(i, j));
            proof {
                assert(bytes@ =~= base + column_bytes(g[i as int], (j + 1) as nat));
            }
            j += 1;
        }
        i += 1;
    }
    let mut hasher = DefaultHasher::new();
    hasher.write(bytes.as_slice());
    proof {
        assert(hasher@ =~= seq![grid_bytes(g, g.len())]);
    }
    hasher.finish()
}

/// Tells whether two boards of the same size hold the same position.
fn same_position(a: &Board, b: &Board) -> (same: bool)
    requires
        a.wf(),
        b.wf(),
        a.size == b.size,
    ensures
        same == (a@ == b@),
{
    let n = a.size;
    let mut x: usize = 0;
    while x < n
        invariant
            a.wf(),
            b.wf(),
            n == a.size,
            n == b.size,
            x <= n,
            forall|i: int, j: int| 0 <= i < x && 0 <= j < n ==> (#[trigger] a@[i][j]) == b@[i][j],
        decreases n - x,
    {
        let mut y: usize = 0;
        while y < n
            invariant
                a.wf(),
                b.wf(),
                n == a.size,
                n == b.size,
                x < n,
                y <= n,
                forall|i: int, j: int|
                    0 <= i < x && 0 <= j < n ==> (#[trigger] a@[i][j]) == b@[i][j],
                forall|j: int| 0 <= j < y ==> (#[trigger] a@[x as int][j]) == b@[x as int][j],
            decreases n - y,
        {
            if a.cell(x, y) != b.cell(x, y) {
                return false;
            }
            y += 1;
        }
        x += 1;
    }
    proof {
        assert forall|i: int| 0 <= i < n implies #[trigger] a@[i] == b@[i] by {
            assert(a@[i] =~= b@[i]);
        }
        assert(a@ =~= b@);
    }
    true
}

/// Tells whether the position on `board` is among the positions in `seen`.
fn is_among(seen: &Vec<Board>, board: &Board) -> (found: bool)
    requires
        board.wf(),
        forall|m: int| 0 <= m < seen@.len() ==> (#[trigger] seen@[m]).wf() && seen@[m].size
            == board.size,
    ensures
        found == exists|m: int| 0 <= m < seen@.len() && (#[trigger] seen@[m])@ == board@,
{
    let mut m: usize = 0;
    while m < seen.len()
        invariant
            board.wf(),
            m <= seen@.len(),
            forall|k: int| 0 <= k < seen@.len() ==> (#[trigger] seen@[k]).wf() && seen@[k].size
                == board.size,
            forall|k: int| 0 <= k < m ==> (#[trigger] seen@[k])@ != board@,
        decreases seen@.len() - m,
    {
        if same_position(&seen[m], board) {
            return true;
        }
        m += 1;
    }
    false
}

/// Looks for a line of moves by which one side, moving alone, fills the corner
/// block it heads for within `max_depth` moves.
pub struct BruteForceSearchSolver {
    pub max_depth: usize,
}

impl Default for BruteForceSearchSolver {
    /// A search of up to five moves.
    fn default() -> (solver: Self)
        ensures
            solver.max_depth == 5,
    {
        Self { max_depth: 5 }
    }
}

impl BruteForceSearchSolver {
    /// Builds a solver that searches up to `max_depth` moves.
    pub fn new(max_depth: usize) -> (solver: BruteForceSearchSolver)
        ensures
            solver.max_depth == max_depth,
    {
        BruteForceSearchSolver { max_depth }
    }

    /// Copies the board and clears every cell that does not hold a piece of
    /// `player`.
    pub fn extract_board(&self, board: &Board, player: usize) -> (own: Board)
        requires
            board.wf(),
        ensures
            own.wf(),
            own.size == board.size,
            own@ == extract(board@, player),
    {
        let mut ret = board.clone();
        let size = board.size;
        let ghost g = board@;
        let mut i: usize = 0;
        while i < size
            invariant
                board.wf(),
                ret.wf(),
                g == board@,
                size == board.size,
                ret.size == size,
                i <= size,
                forall|x: int, y: int|
                    0 <= x < i && 0 <= y < size ==> (#[trigger] ret@[x][y]) == extract(
                        g,
                        player,
                    )[x][y],
                forall|x: int, y: int|
                    i <= x < size && 0 <= y < size ==> (#[trigger] ret@[x][y]) == g[x][y],
            decreases size - i,
        {
            let mut j: usize = 0;
            while j < size
                invariant
                    board.wf(),
                    ret.wf(),
                    g == board@,
                    size == board.size,
                    ret.size == size,
                    i < size,
                    j <= size,
                    forall|x: int, y: int|
                        0 <= x < i && 0 <= y < size ==> (#[trigger] ret@[x][y]) == extract(
                            g,
                            player,
                        )[x][y],
                    forall|y: int|
                        0 <= y < j ==> (#[trigger] ret@[i as int][y]) == extract(
                            g,
                            player,
                        )[i as int][y],
                    forall|y: int| j <= y < size ==> (#[trigger] ret@[i as int][y]) == g[i as int][y],
                    forall|x: int, y: int|
                        i < x < size && 0 <= y < size ==> (#[trigger] ret@[x][y]) == g[x][y],
                decreases size - j,
            {
                if ret.cell(i, j) != player {
                    ret.set_cell(i, j, EMPTY);
                }
                j += 1;
            }
            i += 1;
        }
        proof {
            let want = extract(g, player);
            assert forall|x: int| 0 <= x < size implies #[trigger] ret@[x] == want[x] by {
                assert forall|y: int| 0 <= y < size implies ret@[x][y] == want[x][y] by {}
                assert(ret@[x] =~= want[x]);
            }
            assert(ret@ =~= want);
        }
        ret
    }

    /// Searches depth first, from the position on `board`, for a line of moves
    /// of `player` that wins within `max_depth - depth` moves.
    ///
    /// Where there is one, the moves of the first line found are appended to
    /// `actions` and `board` is left in the won position. Where there is none,
    /// `actions` and `board` are left as they were.
    pub fn dfs(
        &self,
        board: &mut Board,
        actions: &mut ActionPath,
        depth: usize,
        player: usize,
    ) -> (found: bool)
        requires
            old(board).wf(),
            depth <= self.max_depth,
            player == RED || player == BLUE,
        ensures
            final(board).wf(),
            final(board).size == old(board).size,
            found == can_win_within(old(board)@, player, (self.max_depth - depth) as nat),
            !found ==> final(board)@ == old(board)@ && final(actions)@ == old(actions)@,
            found ==> exists|line: Seq<Action>|
                #![trigger is_winning_line(old(board)@, player, line)]
                {
                    &&& is_winning_line(old(board)@, player, line)
                    &&& line.len() <= self.max_depth - depth
                    &&& final(actions)@ == old(actions)@ + line
                    &&& final(board)@ == play_line(old(board)@, line)
                },
        decreases self.max_depth - depth,
    {
        let ghost g = board@;
        let ghost n = board.size as int;
        let ghost before = actions@;
        let ghost left = (self.max_depth - depth) as nat;
        if player == RED && board.is_red_winning() {
            proof {
                let line = Seq::<Action>::empty();
                assert(is_winning_line(g, player, line));
                assert(before + line =~= before);
            }
            return true;
        } else if player == BLUE && board.is_blue_winning() {
            proof {
                let line = Seq::<Action>::empty();
                assert(is_winning_line(g, player, line));
                assert(before + line =~= before);
            }
            return true;
        }
        if depth == self.max_depth {
            return false;
        }
        let candidate_actions = board.generate_actions_all(player);
        let mut i: usize = 0;
        while i < candidate_actions.len()
            invariant
                board.wf(),
                board@ == g,
                board.size == n,
                g == old(board)@,
                n == old(board).size,
                before == old(actions)@,
                actions@ == before,
                depth < self.max_depth,
                left == self.max_depth - depth,
                player == RED || player == BLUE,
                !wins(g, player),
                lists_exactly(candidate_actions@, legal_for(g, player, false)),
                i <= candidate_actions@.len(),
                forall|j: int|
                    0 <= j < i ==> !can_win_within(
                        apply_move(g, #[trigger] candidate_actions@[j]),
                        player,
                        (left - 1) as nat,
                    ),
            decreases candidate_actions@.len() - i,
        {
            let action = candidate_actions[i];
            proof {
                assert(candidate_actions@.contains(action));
                assert(legal_for(g, player, false)(action));
                lemma_legal_move_lands_on_empty(g, player, action);
                lemma_revert_restores(g, n, action);
            }
            board.perform_action(action);
            actions.push(action);
            let ghost pushed = actions@;
            if self.dfs(board, actions, depth + 1, player) {
                proof {
                    let rest = choose|line: Seq<Action>|
                        #![trigger is_winning_line(apply_move(g, action), player, line)]
                        {
                            &&& is_winning_line(apply_move(g, action), player, line)
                            &&& line.len() <= self.max_depth - (depth + 1)
                            &&& actions@ == pushed + line
                            &&& board@ == play_line(apply_move(g, action), line)
                        };
                    let line = seq![action] + rest;
                    lemma_line_after_move(g, player, action, rest);
                    assert(actions@ =~= before + line);
                    assert(is_winning_line(g, player, line));
                }
                return true;
            }
            board.undo_action(action);
            let _ = actions.pop();
            proof {
                assert(actions@ =~= before);
            }
            i += 1;
        }
        proof {
            assert forall|a: Action| #[trigger] is_legal(g, player, a) implies !can_win_within(
                apply_move(g, a),
                player,
                (left - 1) as nat,
            ) by {
                assert(legal_for(g, player, false)(a));
                assert(candidate_actions@.contains(a));
            }
        }
        false
    }
}

/// The positions of the boards, board by board.
pub open spec fn positions(boards: Seq<Board>) -> Seq<Grid> {
    Seq::new(boards.len(), |i: int| boards[i]@)
}

impl BruteForceSearchSolver {
    /// Searches breadth first, from the position on `board`, for a line of moves
    /// of `player` that wins within `max_depth` moves, and returns the first line
    /// found. A position that was reached before is not searched again; its hash
    /// tells quickly that a position was not.
    ///
    /// A line is found if and only if there is one, and the line found is a
    /// shortest one.
    #[verifier::rlimit(40)]
    pub fn search(&self, board: &Board, max_depth: usize, player: usize) -> (found: Option<
        ActionPath,
    >)
        requires
            board.wf(),
            player == RED || player == BLUE,
        ensures
            found is Some <==> can_win_within(board@, player, max_depth as nat),
            found matches Some(path) ==> {
                &&& is_winning_line(board@, player, path@)
                &&& path@.len() <= max_depth
                &&& path@.len() > 0 ==> !can_win_within(
                    board@,
                    player,
                    (path@.len() - 1) as nat,
                )
            },
    {
        let ghost g = board@;
        let ghost n = board.size as int;
        let ghost bound = max_depth as nat;
        let mut queue: VecDeque<Node> = VecDeque::new();
        let mut vis: HashSet<u64> = HashSet::new();
        let mut seen: Vec<Board> = Vec::new();
        let root = Node { data: board.clone(), depth: 0, actions: ActionPath::new() };
        queue.push_back(root);
        vis.insert(get_board_hash(board));
        seen.push(board.clone());
        let ghost mut depths: Seq<nat> = seq![0nat];
        let ghost mut head: int = 0;
        let ghost mut level: nat = 0;
        let ghost mut ahead: nat = 1;
        proof {
            assert(positions(seen@)[0] == g);
        }
        while queue.len() > 0
            invariant
                board.wf(),
                g == board@,
                n == board.size,
                bound == max_depth,
                player == RED || player == BLUE,
                level <= max_depth,
                ahead <= queue@.len(),
                forall|i: int| 0 <= i < ahead ==> (#[trigger] queue@[i]).depth == level,
                forall|i: int|
                    ahead <= i < queue@.len() ==> (#[trigger] queue@[i]).depth == level + 1,
                ahead < queue@.len() ==> level + 1 <= max_depth,
                forall|i: int| 0 <= i < queue@.len() ==> (#[trigger] queue@[i]).reached(g, n, player),
                0 <= head,
                seen@.len() == head + queue@.len(),
                depths.len() == seen@.len(),
                seen@.len() > 0,
                seen@[0]@ == g,
                depths[0] == 0,
                forall|m: int|
                    0 <= m < seen@.len() ==> (#[trigger] seen@[m]).wf() && seen@[m].size == n
                        && vis@.contains(position_hash(seen@[m]@)),
                forall|i: int|
                    0 <= i < queue@.len() ==> (#[trigger] queue@[i]).data@ == seen@[head + i]@
                        && queue@[i].depth == depths[head + i],
                forall|m: int| 0 <= m < head ==> #[trigger] depths[m] <= level,
                searched(positions(seen@), depths, head, player, bound, level as int),
            decreases max_depth + 1 - level, ahead,
        {
            proof {
                if ahead == 0 {
                    assert forall|m: int|
                        0 <= m < seen@.len() && #[trigger] depths[m] < level + 1 implies m
                        < head by {
                        if m >= head {
                            assert(queue@[m - head].depth == depths[head + (m - head)]);
                        }
                    }
                    level = level + 1;
                    ahead = queue@.len();
                }
            }
            let ghost waiting = queue@;
            let p = queue.pop_front().unwrap();
            proof {
                ahead = (ahead - 1) as nat;
                assert(p == waiting[0]);
                assert(p.reached(g, n, player));
                assert forall|i: int| 0 <= i < queue@.len() implies (#[trigger] queue@[i])
                    == waiting[i + 1] by {}
                assert(p.data@ == seen@[head]@ && p.depth == depths[head]);
                assert(positions(seen@)[head] == p.data@);
            }
            let won = (player == RED && p.data.is_red_winning()) || (player == BLUE
                && p.data.is_blue_winning());
            if won {
                proof {
                    lemma_winning_line_wins(g, player, p.actions@, bound);
                    if level > 0 {
                        assert(depths[0] < level);
                        lemma_no_win_below(
                            positions(seen@),
                            depths,
                            head,
                            player,
                            bound,
                            level as int,
                            0,
                            (level - 1) as nat,
                        );
                    }
                }
                return Some(p.actions);
            }
            proof {
                assert(!wins(p.data@, player));
                assert forall|i: int| 0 <= i < ahead implies (#[trigger] queue@[i]).depth
                    == level by {
                    assert(queue@[i] == waiting[i + 1]);
                }
                assert forall|i: int| ahead <= i < queue@.len() implies (#[trigger] queue@[i]).depth
                    == level + 1 by {
                    assert(queue@[i] == waiting[i + 1]);
                }
                assert forall|i: int| 0 <= i < queue@.len() implies (#[trigger] queue@[i]).reached(
                    g,
                    n,
                    player,
                ) by {
                    assert(queue@[i] == waiting[i + 1]);
                }
                assert forall|i: int| 0 <= i < queue@.len() implies (#[trigger] queue@[i]).data@
                    == seen@[head + 1 + i]@ && queue@[i].depth == depths[head + 1 + i] by {
                    assert(queue@[i] == waiting[i + 1]);
                }
            }
            if p.depth == max_depth {
                proof {
                    assert forall|m: int|
                        0 <= m < seen@.len() && #[trigger] depths[m] < level implies m < head
                        + 1 by {}
                    head = head + 1;
                }
                continue;
            }
            proof {
                assert forall|m: int| 0 <= m < seen@.len() implies #[trigger] depths[m] <= level
                    + 1 by {
                    if m > head {
                        assert(queue@[m - head - 1].depth == depths[head + 1 + (m - head - 1)]);
                    }
                }
            }
            let actions = p.data.generate_actions_all(player);
            let mut i: usize = 0;
            while i < actions.len()
                invariant
                    board.wf(),
                    g == board@,
                    n == board.size,
                    bound == max_depth,
                    p.reached(g, n, player),
                    p.depth == level,
                    level < max_depth,
                    player == RED || player == BLUE,
                    !wins(p.data@, player),
                    lists_exactly(actions@, legal_for(p.data@, player, false)),
                    i <= actions@.len(),
                    ahead <= queue@.len(),
                    forall|i: int| 0 <= i < ahead ==> (#[trigger] queue@[i]).depth == level,
                    forall|i: int|
                        ahead <= i < queue@.len() ==> (#[trigger] queue@[i]).depth == level + 1,
                    forall|i: int|
                        0 <= i < queue@.len() ==> (#[trigger] queue@[i]).reached(g, n, player),
                    0 <= head,
                    seen@.len() == head + 1 + queue@.len(),
                    depths.len() == seen@.len(),
                    seen@[0]@ == g,
                    depths[0] == 0,
                    seen@[head]@ == p.data@,
                    depths[head] == level,
                    forall|m: int|
                        0 <= m < seen@.len() ==> (#[trigger] seen@[m]).wf() && seen@[m].size == n
                            && vis@.contains(position_hash(seen@[m]@)),
                    forall|i: int|
                        0 <= i < queue@.len() ==> (#[trigger] queue@[i]).data@ == seen@[head + 1
                            + i]@ && queue@[i].depth == depths[head + 1 + i],
                    forall|m: int| 0 <= m < head ==> #[trigger] depths[m] <= level,
                    forall|m: int| 0 <= m < seen@.len() ==> #[trigger] depths[m] <= level + 1,
                    searched(positions(seen@), depths, head, player, bound, level as int),
                    forall|k: int|
                        0 <= k < i ==> known(
                            positions(seen@),
                            depths,
                            apply_move(p.data@, #[trigger] actions@[k]),
                            (level + 1) as int,
                        ),
                decreases actions@.len() - i,
            {
                let action = actions[i];
                proof {
                    assert(actions@.contains(action));
                    assert(legal_for(p.data@, player, false)(action));
                    lemma_line_push(g, player, p.actions@, action);
                }
                let mut new_board = p.data.clone();
                new_board.perform_action(action);
                let new_hash = get_board_hash(&new_board);
                let mut new_actions = p.actions.clone();
                new_actions.push(action);
                let mut fresh = !vis.contains(&new_hash);
                if !fresh {
                    fresh = !is_among(&seen, &new_board);
                }
                let ghost old_seen = positions(seen@);
                let ghost old_depths = depths;
                if fresh {
                    vis.insert(new_hash);
                    seen.push(new_board.clone());
                    let ghost held = queue@;
                    let node = Node { data: new_board, depth: p.depth + 1, actions: new_actions };
                    queue.push_back(node);
                    proof {
                        depths = depths.push((level + 1) as nat);
                        assert(positions(seen@) =~= old_seen.push(node.data@));
                        lemma_seen_grows(
                            old_seen,
                            old_depths,
                            node.data@,
                            (level + 1) as nat,
                            player,
                        );
                        assert forall|i: int| 0 <= i < queue@.len() implies (#[trigger] queue@[i]).reached(
                            g,
                            n,
                            player,
                        ) by {
                            if i < held.len() {
                                assert(queue@[i] == held[i]);
                            }
                        }
                        assert forall|i: int| 0 <= i < queue@.len() implies (
                        #[trigger] queue@[i]).data@ == seen@[head + 1 + i]@ && queue@[i].depth
                            == depths[head + 1 + i] by {
                            if i < held.len() {
                                assert(queue@[i] == held[i]);
                            }
                        }
                        assert(searched(positions(seen@), depths, head, player, bound, level as int))
                            by {
                            assert forall|m: int|
                                0 <= m < head && depths[m] < bound implies #[trigger] expanded(
                                positions(seen@),
                                depths,
                                m,
                                player,
                            ) by {
                                assert(expanded(old_seen, old_depths, m, player));
                            }
                            assert forall|m: int| 0 <= m < head implies !wins(
                                #[trigger] positions(seen@)[m],
                                player,
                            ) by {
                                assert(positions(seen@)[m] == old_seen[m]);
                            }
                        }
                    }
                } else {
                    proof {
                        let m = choose|m: int|
                            0 <= m < seen@.len() && (#[trigger] seen@[m])@ == new_board@;
                        assert(positions(seen@)[m] == new_board@);
                        assert(depths[m] <= level + 1);
                    }
                }
                proof {
                    assert(known(
                        positions(seen@),
                        depths,
                        apply_move(p.data@, action),
                        (level + 1) as int,
                    ));
                }
                i += 1;
            }
            proof {
                let sg = positions(seen@);
                assert(sg[head] == p.data@);
                assert forall|a: Action| #[trigger] is_legal(sg[head], player, a) implies known(
                    sg,
                    depths,
                    apply_move(sg[head], a),
                    (depths[head] + 1) as int,
                ) by {
                    assert(legal_for(p.data@, player, false)(a));
                    assert(actions@.contains(a));
                }
                assert(expanded(sg, depths, head, player));
                head = head + 1;
            }
        }
        proof {
            assert(head == seen@.len());
            lemma_no_win_below(
                positions(seen@),
                depths,
                head,
                player,
                bound,
                (bound + 1) as int,
                0,
                bound,
            );
            assert(positions(seen@)[0] == g);
        }
        None
    }
}

impl MaybeSolver for BruteForceSearchSolver {
    /// The solver needs a position that `player` has not won yet.
    open spec fn ready(&self, g: Grid, player: usize) -> bool {
        !wins(g, player)
    }

    /// Looks for a line by which `next_player`, moving alone on a board cleared
    /// of the other side's pieces, wins within `max_depth` moves, and returns the
    /// first move of the first line found.
    fn solve(&self, board: &Board, next_player: usize) -> (found: Option<Action>)
        ensures
            found is Some <==> can_win_within(
                extract(board@, next_player),
                next_player,
                self.max_depth as nat,
            ),
            found matches Some(a) ==> self.max_depth > 0 && is_legal(
                extract(board@, next_player),
                next_player,
                a,
            ) && can_win_within(
                apply_move(extract(board@, next_player), a),
                next_player,
                (self.max_depth - 1) as nat,
            ),
    {
        let mut b = self.extract_board(board, next_player);
        let ghost own = b@;
        let mut result_actions = ActionPath::new();
        let result = self.dfs(&mut b, &mut result_actions, 0, next_player);
        if result {
            proof {
                lemma_extract_keeps_own(board@, board.size as int, next_player);
                let line = choose|line: Seq<Action>|
                    #![trigger is_winning_line(own, next_player, line)]
                    {
                        &&& is_winning_line(own, next_player, line)
                        &&& line.len() <= self.max_depth - 0
                        &&& result_actions@ == Seq::<Action>::empty() + line
                        &&& b@ == play_line(own, line)
                    };
                assert(result_actions@ =~= line);
                assert(line.len() > 0);
                lemma_winning_line_wins(
                    apply_move(own, line[0]),
                    next_player,
                    line.drop_first(),
                    (self.max_depth - 1) as nat,
                );
            }
            result_actions.get(0)
        } else {
            None
        }
    }
}

/// Clearing the other side's pieces neither completes nor breaks the corner
/// block that `player` heads for.
pub proof fn lemma_extract_keeps_own(g: Grid, n: int, player: usize)
    requires
        is_square(g, n),
        4 <= n,
        player == RED || player == BLUE,
    ensures
        wins(extract(g, player), player) == wins(g, player),
        is_square(extract(g, player), n),
{
    let own = extract(g, player);
    if wins(g, player) {
        assert(wins(own, player));
    }
    if wins(own, player) {
        if player == RED {
            assert forall|x: int, y: int|
                g.len() - 4 <= x < g.len() && g.len() - 4 <= y < g.len() implies (
            #[trigger] g[x][y]) == RED by {
                assert(own[x][y] == RED);
            }
        } else {
            assert forall|x: int, y: int| 0 <= x < 4 && 0 <= y < 4 implies (#[trigger] g[x][y])
                == BLUE by {
                assert(own[x][y] == BLUE);
            }
        }
    }
}

} // verus!
