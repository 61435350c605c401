//! Monte Carlo Tree Search over board positions.
//!
//! One search owns a private arena of nodes addressed by stable
//! indices: a node's parent is an index smaller than its own, children
//! are index lists, so the tree has no ownership cycles. Each search
//! iteration descends by the UCT rule to a node that still has an
//! untried move (or is terminal), expands one untried move drawn at
//! random — each move of a node is expanded at most once — estimates
//! the new position by a random playout, and propagates the playout's
//! reward back to the root with alternating sign. Selection scores are
//! integer fixed-point (scaled by 1024): the mean reward plus an
//! exploration bonus approximating `sqrt(2 ln(parent visits) / visits)`.

use vstd::prelude::*;

use vstd::arithmetic::power2::{lemma2_to64, pow2};

use crate::board::{
    apply_ok, empty_moves, flip, has_cell_in, idx_in, in_bounds, in_lattice,
    lemma_empty_moves_index, lemma_idx_unique, owner_in, tag_of, BoardState, Hex, HexOwner, Player,
};
use crate::rng::{mix_output, mix_state, SplitMix64};
use crate::win_detector::{has_win, pt};

verus! {

/// The floor of the base-two logarithm (zero for inputs below two).
pub open spec fn spec_log2(x: u64) -> int
    decreases x,
{
    if x < 2 {
        0
    } else {
        1 + spec_log2((x / 2) as u64)
    }
}

proof fn lemma_log2_lt(x: u64, k: int)
    requires
        1 <= k,
        x < pow2(k as nat),
    ensures
        spec_log2(x) < k,
    decreases k,
{
    if x < 2 {
    } else {
        lemma2_to64();
        vstd::arithmetic::power2::lemma_pow2_unfold(k as nat);
        if k == 1 {
            assert(x < 2);
        } else {
            lemma_log2_lt((x / 2) as u64, k - 1);
        }
    }
}

proof fn lemma_log2_nonneg(x: u64)
    ensures
        0 <= spec_log2(x),
    decreases x,
{
    if x >= 2 {
        lemma_log2_nonneg((x / 2) as u64);
    }
}

/// The floor of the base-two logarithm, by repeated halving.
fn log2_floor(x: u64) -> (res: u64)
    ensures
        res as int == spec_log2(x),
        res <= 63,
{
    proof {
        lemma2_to64();
        lemma_log2_lt(x, 64);
        lemma_log2_nonneg(x);
    }
    let mut v = x;
    let mut p: u64 = 0;
    while v >= 2
        invariant
            spec_log2(x) == p + spec_log2(v),
            0 <= spec_log2(v),
            p + spec_log2(v) <= 63,
        decreases v,
    {
        proof {
            lemma_log2_nonneg((v / 2) as u64);
        }
        v = v / 2;
        p = p + 1;
    }
    p
}

/// `r` is the integer square root of `x`.
pub open spec fn is_sqrt(x: int, r: int) -> bool {
    0 <= r && r * r <= x < (r + 1) * (r + 1)
}

/// The integer square root: the greatest `r` with `r * r <= x`.
pub open spec fn spec_isqrt(x: int) -> int {
    choose|r: int| #[trigger] is_sqrt(x, r)
}

proof fn lemma_isqrt_unique(x: int, r: int)
    requires
        is_sqrt(x, r),
    ensures
        spec_isqrt(x) == r,
{
    assert(exists|rr: int| #[trigger] is_sqrt(x, rr));
    let w = spec_isqrt(x);
    assert(is_sqrt(x, w));
    assert(0 <= w && w * w <= x < (w + 1) * (w + 1));
    assert(0 <= r && r * r <= x < (r + 1) * (r + 1));
    if w < r {
        assert((w + 1) * (w + 1) <= r * r) by (nonlinear_arith)
            requires 0 <= w, w < r;
        assert(false);
    }
    if r < w {
        assert((r + 1) * (r + 1) <= w * w) by (nonlinear_arith)
            requires 0 <= r, r < w;
        assert(false);
    }
}

/// The integer square root, by counting up.
fn isqrt(x: u64) -> (res: u64)
    requires
        x <= 0xFFFF_FFFF,
    ensures
        res as int == spec_isqrt(x as int),
        res <= 0x10000,
{
    let mut r: u64 = 0;
    #[verifier::loop_isolation(true)]
    loop
        invariant
            r as int * r as int <= x as int,
            r <= 0x10000,
            x <= 0xFFFF_FFFF,
        ensures
            r as int * r as int <= x as int,
            (x as int) < (r as int + 1) * (r as int + 1),
            r <= 0x10000,
        decreases x - r,
    {
        let s = r + 1;
        proof {
            assert(s as int * s as int <= 0x10001 * 0x10001) by (nonlinear_arith)
                requires 1 <= s as int <= 0x10001;
        }
        if s * s > x {
            break;
        }
        proof {
            assert(s as int <= 0x10000) by (nonlinear_arith)
                requires
                    s as int * s as int <= x as int,
                    x <= 0xFFFF_FFFF,
                    1 <= s as int,
            ;
            assert(s as int <= s as int * s as int) by (nonlinear_arith)
                requires 1 <= s as int;
        }
        r = s;
    }
    proof {
        assert(is_sqrt(x as int, r as int));
        lemma_isqrt_unique(x as int, r as int);
    }
    r
}

/// The scaled natural logarithm: `floor(log2 x) * 710`, which is
/// `ln(x) * 1024` up to the precision of the whole-power-of-two
/// approximation (`ln 2 * 1024` rounds to 710).
pub open spec fn spec_ln_scaled(x: u64) -> int {
    spec_log2(x) * 710
}

/// The fixed-point UCT selection score, scaled by 1024 and offset by
/// one whole unit so it stays non-negative: the offset mean reward
/// `(w + n) / n` plus the exploration bonus
/// `sqrt(2 * ln(parent) / n)` with exploration constant `sqrt 2`.
/// The offset is the same for every child, so ranking is unchanged.
pub open spec fn spec_uct(total_reward: int, visits: int, parent_visits: u64) -> int {
    (total_reward + visits) * 1024 / visits + spec_isqrt(
        2 * spec_ln_scaled(parent_visits) * 1024 / visits,
    )
}

/// Computes the fixed-point UCT score.
fn uct_score(total_reward: i64, visits: u64, parent_visits: u64) -> (res: u64)
    requires
        1 <= visits <= 0x100000,
        1 <= parent_visits <= 0x100000,
        -(visits as i64) <= total_reward <= visits as i64,
    ensures
        res as int == spec_uct(total_reward as int, visits as int, parent_visits),
{
    proof {
        lemma2_to64();
        assert(0x100000 < pow2(21));
        lemma_log2_lt(parent_visits, 21);
        lemma_log2_nonneg(parent_visits);
    }
    let shifted: u64 = (total_reward + visits as i64) as u64;
    let exploit: u64 = shifted * 1024 / visits;
    let lnp: u64 = log2_floor(parent_visits) * 710;
    let arg: u64 = 2 * lnp * 1024 / visits;
    let bonus: u64 = isqrt(arg);
    exploit + bonus
}

/// A position is terminal for the search when a player has won or no
/// empty cell is left (a draw).
pub open spec fn terminal_node(b: BoardState) -> bool {
    ||| has_win(b.cells@, b.max_qr(), Player::P1)
    ||| has_win(b.cells@, b.max_qr(), Player::P2)
    ||| empty_moves(b.cells@).len() == 0
}

/// The cell contents of a terminal rollout position: a player has won
/// or no empty cell is left.
pub open spec fn rollout_terminal(cells: Seq<Hex>, n: int) -> bool {
    ||| has_win(cells, n, Player::P1)
    ||| has_win(cells, n, Player::P2)
    ||| empty_moves(cells).len() == 0
}

/// One rollout step: the random source steps once, the drawn legal
/// move is played for the player to move, and the turn passes.
pub open spec fn rollout_step(cells: Seq<Hex>, turn: Player, rng: u64) -> (Seq<Hex>, Player, u64) {
    let moves = empty_moves(cells);
    let k = mix_output(mix_state(rng)) as int % (moves.len() as int);
    let mv = moves[k];
    (
        cells.update(idx_in(cells, pt(mv)), Hex { q: mv.0, r: mv.1, owner: tag_of(turn) }),
        flip(turn),
        mix_state(rng),
    )
}

/// The cell contents and random-source state a rollout ends with,
/// playing random legal moves until the position is terminal. Every
/// step fills one empty cell, so the empty-cell count of the starting
/// position bounds the number of steps: with that as fuel, the
/// recursion always reaches a terminal position.
pub open spec fn rollout_from(cells: Seq<Hex>, n: int, turn: Player, rng: u64, fuel: nat) -> (
    Seq<Hex>,
    u64,
)
    decreases fuel,
{
    if rollout_terminal(cells, n) || fuel == 0 {
        (cells, rng)
    } else {
        let next = rollout_step(cells, turn, rng);
        rollout_from(next.0, n, next.1, next.2, (fuel - 1) as nat)
    }
}

/// The winner read off a rollout's final position; when both players'
/// win predicates hold at once, Player 1 takes priority.
pub open spec fn rollout_winner(cells: Seq<Hex>, n: int) -> Option<Player> {
    if has_win(cells, n, Player::P1) {
        Some(Player::P1)
    } else if has_win(cells, n, Player::P2) {
        Some(Player::P2)
    } else {
        Option::<Player>::None
    }
}

/// The reward a playout yields for a node: +1 when the winner is the
/// player who made the move into the node (the opponent of the node's
/// player to move), -1 when the other player won, 0 for a draw.
pub open spec fn reward_of(winner: Option<Player>, player_to_move: Player) -> int {
    match winner {
        Some(p) => if p == flip(player_to_move) {
            1int
        } else {
            -1int
        },
        None => 0int,
    }
}

/// Whether a position is terminal for the search: won, or full with no
/// further legal move (an undetected draw counts as terminal, so every
/// playout ends).
pub fn is_terminal(state: &BoardState) -> (res: bool)
    requires
        state.wf(),
    ensures
        res == terminal_node(*state),
{
    if state.is_terminal() {
        true
    } else {
        let moves = state.legal_moves();
        moves.len() == 0
    }
}

/// One search node: an owned snapshot of a position, the index of its
/// parent (none for the root), its children's indices, the legal moves
/// not yet expanded from it, its visit count and accumulated reward,
/// the terminal flag computed at creation, the player to move in its
/// position, and the move that produced it.
pub struct Node {
    pub state: BoardState,
    pub parent_index: Option<usize>,
    pub children: Vec<usize>,
    pub untried: Vec<(i32, i32)>,
    pub visits: u64,
    pub total_reward: i64,
    pub is_terminal: bool,
    pub player_to_move: Player,
    pub last_move: Option<(i32, i32)>,
}

impl Node {
    /// A fresh, unvisited node for one position; the terminal flag and
    /// the untried-move list are computed once here.
    pub fn new(state: BoardState, parent_index: Option<usize>, last_move: Option<(i32, i32)>) -> (res:
        Node)
        requires
            state.wf(),
        ensures
            res.state == state,
            res.parent_index == parent_index,
            res.children@.len() == 0,
            res.untried@ == empty_moves(state.cells@),
            res.visits == 0,
            res.total_reward == 0,
            res.is_terminal == terminal_node(state),
            res.player_to_move == state.turn,
            res.last_move == last_move,
    {
        let term = is_terminal(&state);
        let player_to_move = state.turn;
        let untried = state.legal_moves();
        Node {
            state,
            parent_index,
            children: Vec::new(),
            untried,
            visits: 0,
            total_reward: 0,
            is_terminal: term,
            player_to_move,
            last_move,
        }
    }
}

/// The untried-move bookkeeping of one node: every untried move is an
/// empty lattice cell of the node's own position, and together with
/// the already expanded children the untried moves account for every
/// legal move of that position.
pub open spec fn untried_ok(node: Node) -> bool {
    &&& forall|t: int|
        0 <= t < node.untried@.len() ==> in_lattice(
            pt(#[trigger] node.untried@[t]),
            node.state.max_qr(),
        ) && owner_in(node.state.cells@, pt(node.untried@[t])) == HexOwner::Empty
    &&& node.untried@.len() + node.children@.len() == empty_moves(node.state.cells@).len()
}

/// The arena invariant: node 0 is the root with no parent; every other
/// node's parent has a smaller index and lists it as a child; children
/// are listed in increasing order (so at most once), have larger
/// indices and point back to their parent; every state is well formed
/// on the same radius; the terminal flag and player tag match the
/// state; and every non-root node records the move that produced it, a
/// move that was an empty lattice cell of its parent's position.
pub open spec fn wf_tree(nodes: Seq<Node>) -> bool {
    &&& nodes.len() >= 1
    &&& nodes[0].parent_index is None
    &&& forall|i: int|
        1 <= i < nodes.len() ==> ((#[trigger] nodes[i].parent_index) matches Some(p) && 0 <= p < i)
    &&& forall|i: int, c: int|
        0 <= i < nodes.len() && 0 <= c < nodes[i].children@.len() ==> i < (
        #[trigger] nodes[i].children@[c]) < nodes.len() && (nodes[nodes[i].children@[c] as int].parent_index
            matches Some(p) && p as int == i)
    &&& forall|i: int, c1: int, c2: int|
        0 <= i < nodes.len() && 0 <= c1 < c2 < nodes[i].children@.len()
            ==> nodes[i].children@[c1] < nodes[i].children@[c2]
    &&& forall|j: int|
        1 <= j < nodes.len() ==> ((#[trigger] nodes[j].parent_index) matches Some(p) && exists|
            c: int,
        | 0 <= c < nodes[p as int].children@.len() && nodes[p as int].children@[c] == j)
    &&& forall|i: int|
        0 <= i < nodes.len() ==> (#[trigger] nodes[i].state).wf() && nodes[i].state.board_size
            == nodes[0].state.board_size && nodes[i].is_terminal == terminal_node(nodes[i].state)
            && nodes[i].player_to_move == nodes[i].state.turn && untried_ok(nodes[i])
    &&& forall|i: int|
        1 <= i < nodes.len() ==> ((#[trigger] nodes[i].last_move) matches Some(m)
            && (nodes[i].parent_index matches Some(p) && in_lattice(
            pt(m),
            nodes[p as int].state.max_qr(),
        ) && owner_in(nodes[p as int].state.cells@, pt(m)) == HexOwner::Empty))
}

/// Node `i` lies on the parent chain that starts at `leaf` and ends at
/// the root.
pub open spec fn on_path(nodes: Seq<Node>, leaf: int, i: int) -> bool
    decreases leaf,
{
    if !(0 <= leaf < nodes.len()) {
        false
    } else if i == leaf {
        true
    } else if nodes[leaf].parent_index is Some && 0 <= (nodes[leaf].parent_index->Some_0 as int)
        < leaf {
        on_path(nodes, nodes[leaf].parent_index->Some_0 as int, i)
    } else {
        false
    }
}

/// How many parent steps lead from `leaf` to `i` (when `i` is on the
/// chain).
pub open spec fn dist_to(nodes: Seq<Node>, leaf: int, i: int) -> int
    decreases leaf,
{
    if i == leaf {
        0
    } else if 0 <= leaf < nodes.len() && nodes[leaf].parent_index is Some && 0 <= (
    nodes[leaf].parent_index->Some_0 as int) < leaf {
        1 + dist_to(nodes, nodes[leaf].parent_index->Some_0 as int, i)
    } else {
        0
    }
}

/// The sign a reward carries after `k` plies: positive at even depth,
/// negative at odd depth.
pub open spec fn neg_pow(k: int) -> int {
    if k % 2 == 0 {
        1
    } else {
        -1
    }
}

/// A node on a chain has an index no larger than the chain's start.
proof fn lemma_on_path_le(nodes: Seq<Node>, leaf: int, i: int)
    requires
        on_path(nodes, leaf, i),
    ensures
        0 <= i <= leaf,
    decreases leaf,
{
    if i != leaf {
        let p = nodes[leaf].parent_index->Some_0;
        lemma_on_path_le(nodes, p as int, i);
    }
}

proof fn lemma_dist_nonneg(nodes: Seq<Node>, leaf: int, i: int)
    ensures
        dist_to(nodes, leaf, i) >= 0,
    decreases (if leaf >= 0 { leaf } else { 0 }),
{
    if i != leaf && 0 <= leaf < nodes.len() && (nodes[leaf].parent_index matches Some(p) && 0 <= (
    p as int) < leaf) {
        lemma_dist_nonneg(nodes, nodes[leaf].parent_index->Some_0 as int, i);
    }
}

/// Stepping from a node on the chain to its parent stays on the chain
/// and increases the depth by one.
proof fn lemma_path_parent(nodes: Seq<Node>, leaf: int, c: int, p: usize)
    requires
        wf_tree(nodes),
        0 <= leaf < nodes.len(),
        on_path(nodes, leaf, c),
        0 <= c < nodes.len(),
        nodes[c].parent_index == Some(p),
    ensures
        on_path(nodes, leaf, p as int),
        dist_to(nodes, leaf, p as int) == dist_to(nodes, leaf, c) + 1,
    decreases leaf,
{
    if leaf == c {
        assert(c >= 1);
        assert(on_path(nodes, p as int, p as int));
        assert(dist_to(nodes, p as int, p as int) == 0);
        assert(dist_to(nodes, leaf, p as int) == 1 + dist_to(nodes, p as int, p as int));
    } else {
        let pl = nodes[leaf].parent_index->Some_0;
        lemma_path_parent(nodes, pl as int, c, p);
        lemma_on_path_le(nodes, pl as int, p as int);
        assert(dist_to(nodes, leaf, p as int) == 1 + dist_to(nodes, pl as int, p as int));
        assert(dist_to(nodes, leaf, c) == 1 + dist_to(nodes, pl as int, c));
    }
}

/// The root lies on every node's chain.
proof fn lemma_root_on_path(nodes: Seq<Node>, leaf: int)
    requires
        wf_tree(nodes),
        0 <= leaf < nodes.len(),
    ensures
        on_path(nodes, leaf, 0),
    decreases leaf,
{
    if leaf != 0 {
        let p = nodes[leaf].parent_index->Some_0;
        lemma_root_on_path(nodes, p as int);
    }
}

/// Zero-sum backpropagation: in one backpropagation pass with leaf
/// reward `reward`, the reward added to a node and the reward added to
/// its parent are exact negatives of each other.
pub proof fn lemma_backprop_zero_sum(nodes: Seq<Node>, reward: int, leaf: int, c: int, p: usize)
    requires
        wf_tree(nodes),
        0 <= leaf < nodes.len(),
        0 <= c < nodes.len(),
        on_path(nodes, leaf, c),
        nodes[c].parent_index == Some(p),
    ensures
        on_path(nodes, leaf, p as int),
        reward * neg_pow(dist_to(nodes, leaf, p as int)) == -(reward * neg_pow(
            dist_to(nodes, leaf, c),
        )),
{
    lemma_path_parent(nodes, leaf, c, p);
    let d = dist_to(nodes, leaf, c);
    assert(neg_pow(d + 1) == -neg_pow(d));
    if neg_pow(d) == 1 {
        assert(reward * 1 == reward);
        assert(reward * -1 == -reward);
    } else {
        assert(reward * -1 == -reward);
        assert(reward * 1 == reward);
    }
}

/// One node per depth: two distinct nodes on one backpropagation chain
/// never sit at the same depth, so each pass touches exactly one node
/// at every tree level along its path.
pub proof fn lemma_backprop_one_per_depth(nodes: Seq<Node>, leaf: int, i: int, j: int)
    requires
        wf_tree(nodes),
        0 <= leaf < nodes.len(),
        on_path(nodes, leaf, i),
        on_path(nodes, leaf, j),
        dist_to(nodes, leaf, i) == dist_to(nodes, leaf, j),
    ensures
        i == j,
    decreases leaf,
{
    if i == leaf || j == leaf {
        if i != j {
            if i == leaf {
                let p = nodes[leaf].parent_index->Some_0;
                lemma_dist_nonneg(nodes, p as int, j);
            } else {
                let p = nodes[leaf].parent_index->Some_0;
                lemma_dist_nonneg(nodes, p as int, i);
            }
        }
    } else {
        let p = nodes[leaf].parent_index->Some_0;
        lemma_backprop_one_per_depth(nodes, p as int, i, j);
    }
}

/// Every depth along the chain is occupied: for each level `d` between
/// the leaf and the root there is a node of the chain at that depth.
pub proof fn lemma_backprop_depth_covered(nodes: Seq<Node>, leaf: int, d: int)
    requires
        wf_tree(nodes),
        0 <= leaf < nodes.len(),
        0 <= d <= dist_to(nodes, leaf, 0),
    ensures
        exists|i: int| #[trigger] on_path(nodes, leaf, i) && dist_to(nodes, leaf, i) == d,
    decreases leaf,
{
    if d == 0 {
        assert(on_path(nodes, leaf, leaf) && dist_to(nodes, leaf, leaf) == 0);
    } else {
        assert(leaf != 0);
        let p = nodes[leaf].parent_index->Some_0;
        assert(dist_to(nodes, leaf, 0) == 1 + dist_to(nodes, p as int, 0));
        lemma_backprop_depth_covered(nodes, p as int, d - 1);
        let i = choose|i: int|
            #[trigger] on_path(nodes, p as int, i) && dist_to(nodes, p as int, i) == d - 1;
        lemma_on_path_le(nodes, p as int, i);
        assert(on_path(nodes, leaf, i));
        assert(dist_to(nodes, leaf, i) == d);
    }
}

/// The sum of the visit counts of the listed nodes.
pub open spec fn sum_visits(nodes: Seq<Node>, ch: Seq<usize>) -> int
    decreases ch.len(),
{
    if ch.len() == 0 {
        0
    } else {
        sum_visits(nodes, ch.drop_last()) + nodes[ch.last() as int].visits
    }
}

proof fn lemma_sum_visits_same(a: Seq<Node>, b: Seq<Node>, ch: Seq<usize>)
    requires
        forall|t: int|
            0 <= t < ch.len() ==> (#[trigger] ch[t]) < a.len() && ch[t] < b.len() && b[ch[t] as int].visits
                == a[ch[t] as int].visits,
    ensures
        sum_visits(b, ch) == sum_visits(a, ch),
    decreases ch.len(),
{
    if ch.len() > 0 {
        let pre = ch.drop_last();
        assert forall|t: int|
            0 <= t < pre.len() implies (#[trigger] pre[t]) < a.len() && pre[t] < b.len()
            && b[pre[t] as int].visits == a[pre[t] as int].visits by {
            assert(pre[t] == ch[t]);
        }
        lemma_sum_visits_same(a, b, pre);
        assert(ch.last() == ch[ch.len() - 1]);
    }
}

proof fn lemma_sum_visits_bump(a: Seq<Node>, b: Seq<Node>, ch: Seq<usize>, x: usize)
    requires
        forall|t: int| 0 <= t < ch.len() ==> (#[trigger] ch[t]) < a.len() && ch[t] < b.len(),
        forall|t1: int, t2: int| 0 <= t1 < t2 < ch.len() ==> ch[t1] != ch[t2],
        exists|t: int| 0 <= t < ch.len() && (#[trigger] ch[t]) == x,
        x < a.len() && x < b.len(),
        b[x as int].visits == a[x as int].visits + 1,
        forall|t: int|
            0 <= t < ch.len() && (#[trigger] ch[t]) != x ==> b[ch[t] as int].visits
                == a[ch[t] as int].visits,
    ensures
        sum_visits(b, ch) == sum_visits(a, ch) + 1,
    decreases ch.len(),
{
    let pre = ch.drop_last();
    assert(ch.len() > 0);
    assert(ch.last() == ch[ch.len() - 1]);
    if ch.last() == x {
        assert forall|t: int|
            0 <= t < pre.len() implies (#[trigger] pre[t]) < a.len() && pre[t] < b.len()
            && b[pre[t] as int].visits == a[pre[t] as int].visits by {
            assert(pre[t] == ch[t]);
            assert(ch[t] != ch[ch.len() - 1]);
        }
        lemma_sum_visits_same(a, b, pre);
    } else {
        let t0 = choose|t: int| 0 <= t < ch.len() && (#[trigger] ch[t]) == x;
        assert(t0 < ch.len() - 1);
        assert(pre[t0] == x);
        assert forall|t: int|
            0 <= t < pre.len() implies (#[trigger] pre[t]) < a.len() && pre[t] < b.len() by {
            assert(pre[t] == ch[t]);
        }
        assert forall|t1: int, t2: int| 0 <= t1 < t2 < pre.len() implies pre[t1] != pre[t2] by {
            assert(pre[t1] == ch[t1] && pre[t2] == ch[t2]);
        }
        assert forall|t: int|
            0 <= t < pre.len() && (#[trigger] pre[t]) != x implies b[pre[t] as int].visits
            == a[pre[t] as int].visits by {
            assert(pre[t] == ch[t]);
        }
        lemma_sum_visits_bump(a, b, pre, x);
    }
}

/// The parent chain of any non-root node crosses some child of the
/// root.
proof fn lemma_path_hits_root_child(nodes: Seq<Node>, leaf: int)
    requires
        wf_tree(nodes),
        1 <= leaf < nodes.len(),
    ensures
        exists|x: int|
            1 <= x < nodes.len() && #[trigger] on_path(nodes, leaf, x) && (
            nodes[x].parent_index matches Some(p) && p == 0),
    decreases leaf,
{
    let p = nodes[leaf].parent_index->Some_0;
    if p == 0 {
        assert(on_path(nodes, leaf, leaf));
    } else {
        lemma_path_hits_root_child(nodes, p as int);
        let x = choose|x: int|
            1 <= x < nodes.len() && #[trigger] on_path(nodes, p as int, x) && (
            nodes[x].parent_index matches Some(pp) && pp == 0);
        lemma_on_path_le(nodes, p as int, x);
        assert(on_path(nodes, leaf, x));
    }
}

/// The parent chain crosses at most one child of the root: two chain
/// nodes whose parent is the root are the same node.
proof fn lemma_root_child_on_path_unique(nodes: Seq<Node>, leaf: int, x1: int, x2: int)
    requires
        wf_tree(nodes),
        0 <= leaf < nodes.len(),
        on_path(nodes, leaf, x1),
        on_path(nodes, leaf, x2),
        0 <= x1 < nodes.len(),
        0 <= x2 < nodes.len(),
        nodes[x1].parent_index == Some(0usize),
        nodes[x2].parent_index == Some(0usize),
    ensures
        x1 == x2,
{
    lemma_path_parent(nodes, leaf, x1, 0);
    lemma_path_parent(nodes, leaf, x2, 0);
    lemma_backprop_one_per_depth(nodes, leaf, x1, x2);
}

/// One backpropagation pass from a non-root leaf adds exactly one to
/// the sum of the root's children's visit counts: the pass crosses
/// exactly one child of the root.
pub proof fn lemma_backprop_bumps_one_root_child(a: Seq<Node>, b: Seq<Node>, leaf: int, reward: int)
    requires
        wf_tree(a),
        1 <= leaf < a.len(),
        a.len() == b.len(),
        forall|i: int|
            0 <= i < a.len() && on_path(a, leaf, i) ==> bumped(
                a[i],
                #[trigger] b[i],
                reward * neg_pow(dist_to(a, leaf, i)),
            ),
        forall|i: int| 0 <= i < a.len() && !on_path(a, leaf, i) ==> (#[trigger] b[i]) == a[i],
    ensures
        sum_visits(b, a[0].children@) == sum_visits(a, a[0].children@) + 1,
{
    lemma_path_hits_root_child(a, leaf);
    let x = choose|x: int|
        1 <= x < a.len() && #[trigger] on_path(a, leaf, x) && (a[x].parent_index matches Some(p)
            && p == 0);
    assert(a[x].parent_index == Some(0usize));
    let ch = a[0].children@;
    assert(exists|t: int| 0 <= t < ch.len() && (#[trigger] ch[t]) == x as usize) by {
        let c = choose|c: int| 0 <= c < a[0].children@.len() && a[0].children@[c] == x;
        assert(ch[c] == x as usize);
    }
    assert forall|t: int|
        0 <= t < ch.len() && (#[trigger] ch[t]) != x as usize implies b[ch[t] as int].visits
        == a[ch[t] as int].visits by {
        assert(0 < ch[t] < a.len());
        assert(a[ch[t] as int].parent_index == Some(0usize));
        if on_path(a, leaf, ch[t] as int) {
            lemma_root_child_on_path_unique(a, leaf, x, ch[t] as int);
            assert(false);
        }
    }
    assert(bumped(a[x], b[x], reward * neg_pow(dist_to(a, leaf, x))));
    lemma_sum_visits_bump(a, b, ch, x as usize);
}

/// Expansion keeps the sum of the root's children's visit counts: the
/// new child starts unvisited and nobody else's count changes.
proof fn lemma_expand_keeps_sum(a: Seq<Node>, b: Seq<Node>, node_index: usize, new_index: usize)
    requires
        wf_tree(a),
        node_index < a.len(),
        b.len() == a.len() + 1,
        new_index as int == a.len(),
        forall|i: int| 0 <= i < a.len() && i != node_index ==> (#[trigger] b[i]) == a[i],
        b[node_index as int].children@ == a[node_index as int].children@.push(new_index),
        b[node_index as int].visits == a[node_index as int].visits,
        b[new_index as int].visits == 0,
    ensures
        sum_visits(b, b[0].children@) == sum_visits(a, a[0].children@),
{
    let ch = a[0].children@;
    assert forall|t: int|
        0 <= t < ch.len() implies (#[trigger] ch[t]) < a.len() && ch[t] < b.len()
        && b[ch[t] as int].visits == a[ch[t] as int].visits by {
        assert(0 < ch[t] < a.len());
        if ch[t] == node_index {
        } else {
            assert(b[ch[t] as int] == a[ch[t] as int]);
        }
    }
    lemma_sum_visits_same(a, b, ch);
    if node_index == 0 {
        assert(b[0].children@ == ch.push(new_index));
        assert(sum_visits(b, b[0].children@) == sum_visits(b, b[0].children@.drop_last())
            + b[b[0].children@.last() as int].visits);
        assert(b[0].children@.drop_last() =~= ch);
        assert(b[0].children@.last() == new_index);
    } else {
        assert(b[0] == a[0]);
    }
}

/// The search engine: a private arena of nodes, the iteration budget,
/// and the injected random source.
pub struct MCTS {
    pub nodes: Vec<Node>,
    pub max_iter: u64,
    pub rng: SplitMix64,
}

/// Every node's visit count is at most `bound` and its accumulated
/// reward is at most its visit count in magnitude.
pub open spec fn node_bounds(nodes: Seq<Node>, bound: int) -> bool {
    forall|i: int|
        0 <= i < nodes.len() ==> (#[trigger] nodes[i]).visits <= bound && -(
        nodes[i].visits as int) <= nodes[i].total_reward <= nodes[i].visits as int
}

/// The earliest child with no visits yet, if any.
pub open spec fn first_unvisited(nodes: Seq<Node>, ch: Seq<usize>) -> Option<usize>
    decreases ch.len(),
{
    if ch.len() == 0 {
        Option::None
    } else if first_unvisited(nodes, ch.drop_last()) is Some {
        first_unvisited(nodes, ch.drop_last())
    } else if nodes[ch.last() as int].visits == 0 {
        Option::Some(ch.last())
    } else {
        Option::None
    }
}

/// The child with the greatest UCT score, the earliest child winning
/// ties.
pub open spec fn best_uct_child(nodes: Seq<Node>, ch: Seq<usize>, parent_visits: u64) -> usize
    decreases ch.len(),
{
    if ch.len() <= 1 {
        ch[0]
    } else {
        let prev = best_uct_child(nodes, ch.drop_last(), parent_visits);
        if spec_uct(
            nodes[ch.last() as int].total_reward as int,
            nodes[ch.last() as int].visits as int,
            parent_visits,
        ) > spec_uct(
            nodes[prev as int].total_reward as int,
            nodes[prev as int].visits as int,
            parent_visits,
        ) {
            ch.last()
        } else {
            prev
        }
    }
}

/// The child the selection rule descends into from node `i`: the first
/// unvisited child if any, else the best-scoring one; from an
/// unvisited node, the first child.
pub open spec fn selected_child(nodes: Seq<Node>, i: int) -> usize {
    let ch = nodes[i].children@;
    if nodes[i].visits == 0 {
        ch[0]
    } else {
        match first_unvisited(nodes, ch) {
            Some(z) => z,
            None => best_uct_child(nodes, ch, nodes[i].visits),
        }
    }
}

/// The node the selection descent stops at, starting from `i`: it
/// walks down through fully expanded, non-terminal nodes and stops at
/// the first node that is terminal or still has an untried move.
pub open spec fn select_spec(nodes: Seq<Node>, i: int) -> int
    decreases nodes.len() - i,
{
    if 0 <= i < nodes.len() && !nodes[i].is_terminal && nodes[i].untried@.len() == 0
        && nodes[i].children@.len() > 0 {
        let nxt = selected_child(nodes, i) as int;
        if i < nxt < nodes.len() {
            select_spec(nodes, nxt)
        } else {
            i
        }
    } else {
        i
    }
}

/// `b` is `a` with one more visit and `delta` added to its reward;
/// everything else about the node is unchanged.
pub open spec fn bumped(a: Node, b: Node, delta: int) -> bool {
    &&& b.visits == a.visits + 1
    &&& b.total_reward == a.total_reward + delta
    &&& b.state == a.state
    &&& b.parent_index == a.parent_index
    &&& b.children == a.children
    &&& b.untried == a.untried
    &&& b.is_terminal == a.is_terminal
    &&& b.player_to_move == a.player_to_move
    &&& b.last_move == a.last_move
}

impl MCTS {
    /// Adds one visit and the signed reward to every node on the chain
    /// from `leaf` to the root, flipping the reward's sign at each ply;
    /// every node off the chain is untouched.
    fn back_propagation(&mut self, reward: i64, leaf: usize)
        requires
            wf_tree(old(self).nodes@),
            leaf < old(self).nodes@.len(),
            -1 <= reward <= 1,
            node_bounds(old(self).nodes@, 0x100000 - 1),
        ensures
            final(self).nodes@.len() == old(self).nodes@.len(),
            final(self).max_iter == old(self).max_iter,
            final(self).rng == old(self).rng,
            forall|i: int|
                0 <= i < old(self).nodes@.len() && on_path(old(self).nodes@, leaf as int, i)
                    ==> bumped(
                    old(self).nodes@[i],
                    #[trigger] final(self).nodes@[i],
                    (reward as int) * neg_pow(dist_to(old(self).nodes@, leaf as int, i)),
                ),
            forall|i: int|
                0 <= i < old(self).nodes@.len() && !on_path(old(self).nodes@, leaf as int, i)
                    ==> (#[trigger] final(self).nodes@[i]) == old(self).nodes@[i],
    {
        let ghost nodes0 = old(self).nodes@;
        let mut cur_opt: Option<usize> = Some(leaf);
        let mut rew: i64 = reward;
        while cur_opt.is_some()
            invariant
                self.nodes@.len() == nodes0.len(),
                self.max_iter == old(self).max_iter,
                self.rng == old(self).rng,
                -1 <= rew <= 1,
                (match cur_opt {
                    Some(c) => {
                        &&& c < nodes0.len()
                        &&& on_path(nodes0, leaf as int, c as int)
                        &&& rew as int == (reward as int) * neg_pow(
                            dist_to(nodes0, leaf as int, c as int),
                        )
                        &&& forall|i: int|
                            0 <= i < nodes0.len() && on_path(nodes0, c as int, i)
                                ==> (#[trigger] self.nodes@[i]) == nodes0[i]
                        &&& forall|i: int|
                            0 <= i < nodes0.len() && on_path(nodes0, leaf as int, i) && !on_path(
                                nodes0,
                                c as int,
                                i,
                            ) ==> bumped(
                                nodes0[i],
                                #[trigger] self.nodes@[i],
                                (reward as int) * neg_pow(dist_to(nodes0, leaf as int, i)),
                            )
                    },
                    None => forall|i: int|
                        0 <= i < nodes0.len() && on_path(nodes0, leaf as int, i) ==> bumped(
                            nodes0[i],
                            #[trigger] self.nodes@[i],
                            (reward as int) * neg_pow(dist_to(nodes0, leaf as int, i)),
                        ),
                }),
                forall|i: int|
                    0 <= i < nodes0.len() && !on_path(nodes0, leaf as int, i)
                        ==> (#[trigger] self.nodes@[i]) == nodes0[i],
            decreases (match cur_opt {
                Some(c) => c as int + 1,
                None => 0int,
            }),
        {
            let c = cur_opt.unwrap();
            proof {
                assert(on_path(nodes0, c as int, c as int));
                assert(self.nodes@[c as int] == nodes0[c as int]);
            }
            let v = self.nodes[c].visits;
            let tr = self.nodes[c].total_reward;
            self.nodes[c].visits = v + 1;
            self.nodes[c].total_reward = tr + rew;
            let p_opt = self.nodes[c].parent_index;
            proof {
                let ghost nodes1 = self.nodes@;
                match p_opt {
                    Some(p) => {
                        lemma_path_parent(nodes0, leaf as int, c as int, p);
                        assert(neg_pow(dist_to(nodes0, leaf as int, p as int)) == -neg_pow(
                        dist_to(nodes0, leaf as int, c as int),
                        ));
                        if neg_pow(dist_to(nodes0, leaf as int, c as int)) == 1 {
                            assert(reward as int * 1 == reward);
                            assert((reward as int) * -1 == -(reward as int));
                        } else {
                            assert((reward as int) * -1 == -(reward as int));
                            assert(reward as int * 1 == reward);
                        }
                        assert forall|i: int|
                            0 <= i < nodes0.len() && on_path(
                                nodes0,
                                p as int,
                                i,
                            ) implies (#[trigger] nodes1[i]) == nodes0[i] by {
                            lemma_on_path_le(nodes0, p as int, i);
                        }
                        assert forall|i: int|
                            0 <= i < nodes0.len() && on_path(nodes0, leaf as int, i) && !on_path(
                                nodes0,
                                p as int,
                                i,
                            ) implies bumped(
                            nodes0[i],
                            #[trigger] nodes1[i],
                            (reward as int) * neg_pow(dist_to(nodes0, leaf as int, i)),
                        ) by {
                            if i == c as int {
                            } else {
                                assert(!on_path(nodes0, c as int, i));
                            }
                        }
                    },
                    None => {
                        assert(c == 0) by {
                            if c != 0 {
                                assert(nodes0[c as int].parent_index is Some);
                            }
                        }
                        assert forall|i: int|
                            0 <= i < nodes0.len() && on_path(nodes0, leaf as int, i) implies bumped(
                            nodes0[i],
                            #[trigger] self.nodes@[i],
                            (reward as int) * neg_pow(dist_to(nodes0, leaf as int, i)),
                        ) by {
                            if i != 0 {
                                if on_path(nodes0, 0, i) {
                                    lemma_on_path_le(nodes0, 0, i);
                                }
                                assert(!on_path(nodes0, 0, i));
                            }
                        }
                    },
                }
            }
            let next_rew = -rew;
            cur_opt = p_opt;
            rew = next_rew;
        }
    }

    /// A uniformly-ish drawn index below `max`, from the injected
    /// random source: a function of the source's state alone.
    fn get_random_move_index(&mut self, max: usize) -> (res: usize)
        requires
            max > 0,
        ensures
            res < max,
            res as int == mix_output(mix_state(old(self).rng.state)) as int % (max as int),
            final(self).rng.state == mix_state(old(self).rng.state),
            final(self).nodes == old(self).nodes,
            final(self).max_iter == old(self).max_iter,
    {
        self.rng.below(max)
    }

    /// Descends from `start` through fully expanded, non-terminal
    /// nodes, at each step taking the first unvisited child if any,
    /// else the child with the greatest fixed-point UCT score (the
    /// earliest child winning ties); stops at the first node that is
    /// terminal or still has an untried move: the node `select_spec`
    /// names.
    #[verifier::rlimit(60)]
    fn select(&self, start: usize) -> (res: usize)
        requires
            wf_tree(self.nodes@),
            start < self.nodes@.len(),
            node_bounds(self.nodes@, 0x100000),
        ensures
            res < self.nodes@.len(),
            res as int == select_spec(self.nodes@, start as int),
            self.nodes@[res as int].is_terminal || self.nodes@[res as int].untried@.len() > 0,
    {
        let ghost nodes = self.nodes@;
        let mut cur = start;
        loop
            invariant
                cur < self.nodes@.len(),
                select_spec(nodes, start as int) == select_spec(nodes, cur as int),
            decreases self.nodes@.len() - cur,
        {
            if self.nodes[cur].is_terminal {
                return cur;
            }
            if self.nodes[cur].untried.len() > 0 {
                return cur;
            }
            proof {
                // Fully expanded and not terminal: every legal move has
                // produced a child, and a non-terminal position has at
                // least one legal move.
                assert(untried_ok(nodes[cur as int]));
                assert(!terminal_node(nodes[cur as int].state));
                assert(nodes[cur as int].children@.len() > 0);
            }
            let ghost ch = nodes[cur as int].children@;
            let parent_visits = self.nodes[cur].visits;
            let n_ch = self.nodes[cur].children.len();
            let mut best: usize = self.nodes[cur].children[0];
            proof {
                assert(ch[0] == best);
            }
            if parent_visits > 0 {
                let mut found_zero = false;
                let mut t: usize = 0;
                while t < n_ch
                    invariant
                        t <= n_ch,
                        n_ch == ch.len(),
                        ch == nodes[cur as int].children@,
                        cur < self.nodes@.len(),
                        exists|c: int| 0 <= c < n_ch && (#[trigger] ch[c]) == best,
                        found_zero ==> first_unvisited(nodes, ch.take(t as int)) == Some(best),
                        !found_zero ==> first_unvisited(nodes, ch.take(t as int)) is None,
                        !found_zero ==> forall|tt: int|
                            0 <= tt < t ==> (#[trigger] nodes[ch[tt] as int]).visits > 0,
                    decreases n_ch - t,
                {
                    let ci = self.nodes[cur].children[t];
                    proof {
                        assert(ch.take(t as int + 1).drop_last() =~= ch.take(t as int));
                        assert(ch.take(t as int + 1).last() == ch[t as int]);
                    }
                    if !found_zero && self.nodes[ci].visits == 0 {
                        best = ci;
                        found_zero = true;
                        proof {
                            assert(ch[t as int] == best);
                        }
                    }
                    t += 1;
                }
                proof {
                    assert(ch.take(n_ch as int) =~= ch);
                }
                if !found_zero {
                    let c0 = self.nodes[cur].children[0];
                    let mut best_score: u64 = uct_score(
                        self.nodes[c0].total_reward,
                        self.nodes[c0].visits,
                        parent_visits,
                    );
                    best = c0;
                    proof {
                        assert(ch[0] == best);
                        assert(ch.take(1) =~= seq![ch[0]]);
                        assert(best_uct_child(nodes, ch.take(1), parent_visits) == ch[0]);
                    }
                    let mut t2: usize = 1;
                    while t2 < n_ch
                        invariant
                            1 <= t2 <= n_ch,
                            n_ch == ch.len(),
                            ch == nodes[cur as int].children@,
                            cur < self.nodes@.len(),
                            parent_visits == nodes[cur as int].visits,
                            1 <= parent_visits <= 0x100000,
                            forall|tt: int|
                                0 <= tt < n_ch ==> (#[trigger] nodes[ch[tt] as int]).visits > 0,
                            exists|c: int| 0 <= c < n_ch && (#[trigger] ch[c]) == best,
                            best == best_uct_child(nodes, ch.take(t2 as int), parent_visits),
                            best_score as int == spec_uct(
                                nodes[best as int].total_reward as int,
                                nodes[best as int].visits as int,
                                parent_visits,
                            ),
                        decreases n_ch - t2,
                    {
                        let ci = self.nodes[cur].children[t2];
                        let sc = uct_score(
                            self.nodes[ci].total_reward,
                            self.nodes[ci].visits,
                            parent_visits,
                        );
                        proof {
                            assert(ch.take(t2 as int + 1).drop_last() =~= ch.take(t2 as int));
                            assert(ch.take(t2 as int + 1).last() == ch[t2 as int]);
                        }
                        if sc > best_score {
                            best = ci;
                            best_score = sc;
                            proof {
                                assert(ch[t2 as int] == best);
                            }
                        }
                        t2 += 1;
                    }
                    proof {
                        assert(ch.take(n_ch as int) =~= ch);
                    }
                }
            }
            proof {
                assert(best == selected_child(nodes, cur as int));
                let c = choose|c: int| 0 <= c < ch.len() && (#[trigger] ch[c]) == best;
                assert(cur < best < self.nodes@.len());
                assert(select_spec(nodes, cur as int) == select_spec(nodes, best as int));
            }
            cur = best;
        }
    }

    /// Expands a non-terminal node with one of its legal moves, drawn
    /// at random: the new position becomes a fresh child node at the
    /// end of the arena.
    fn expand(&mut self, node_index: usize) -> (res: usize)
        requires
            wf_tree(old(self).nodes@),
            node_index < old(self).nodes@.len(),
            old(self).nodes@[node_index as int].untried@.len() > 0,
        ensures
            wf_tree(final(self).nodes@),
            final(self).nodes@.len() == old(self).nodes@.len() + 1,
            res as int == old(self).nodes@.len(),
            final(self).max_iter == old(self).max_iter,
            forall|i: int|
                0 <= i < old(self).nodes@.len() && i != node_index
                    ==> (#[trigger] final(self).nodes@[i]) == old(self).nodes@[i],
            ({
                // The expanded move is the random draw applied to the
                // parent's untried-move list; that move leaves the list,
                // the new child joins the parent's children, and the
                // child's position is the move applied to the parent's
                // position.
                let a = old(self).nodes@[node_index as int];
                let b = final(self).nodes@[node_index as int];
                let k = mix_output(mix_state(old(self).rng.state)) as int % (
                a.untried@.len() as int);
                let nn = final(self).nodes@[res as int];
                &&& b.children@ == a.children@.push(res)
                &&& b.untried@ == a.untried@.remove(k)
                &&& b.state == a.state
                &&& b.parent_index == a.parent_index
                &&& b.visits == a.visits
                &&& b.total_reward == a.total_reward
                &&& b.is_terminal == a.is_terminal
                &&& b.player_to_move == a.player_to_move
                &&& b.last_move == a.last_move
                &&& nn.visits == 0
                &&& nn.total_reward == 0
                &&& nn.parent_index == Some(node_index)
                &&& nn.children@.len() == 0
                &&& nn.last_move == Some(a.untried@[k])
                &&& apply_ok(a.state, pt(a.untried@[k]), nn.state)
                &&& nn.state.cells@ == a.state.cells@.update(
                    idx_in(a.state.cells@, pt(a.untried@[k])),
                    Hex { q: a.untried@[k].0, r: a.untried@[k].1, owner: tag_of(a.state.turn) },
                )
                &&& nn.state.board_size == a.state.board_size
                &&& nn.state.turn == flip(a.state.turn)
                &&& nn.untried@ == empty_moves(nn.state.cells@)
            }),
            final(self).rng.state == mix_state(old(self).rng.state),
    {
        let ghost nodes0 = self.nodes@;
        let n_untried = self.nodes[node_index].untried.len();
        let mi = self.get_random_move_index(n_untried);
        let mv = self.nodes[node_index].untried.remove(mi);
        proof {
            let st = nodes0[node_index as int].state;
            assert(untried_ok(nodes0[node_index as int]));
            assert(mv == nodes0[node_index as int].untried@[mi as int]);
            assert(owner_in(st.cells@, pt(mv)) == HexOwner::Empty);
            assert(in_lattice(pt(mv), st.max_qr()));
            assert(has_cell_in(st.cells@, pt(mv)));
        }
        let new_state = self.nodes[node_index].state.duplicate();
        let ghost dup_g = new_state;
        proof {
            let st = nodes0[node_index as int].state;
            assert(new_state.cells@ == st.cells@ && new_state.board_size == st.board_size);
        }
        let mut child_state = new_state;
        let applied = child_state.apply_move(mv);
        proof {
            let st = nodes0[node_index as int].state;
            match applied {
                Ok(_) => {},
                Err(e) => {
                    assert(in_bounds(pt(mv), st.max_qr()));
                    assert(has_cell_in(st.cells@, pt(mv)));
                    assert(false);
                },
            }
        }
        proof {
            let st = nodes0[node_index as int].state;
            assert(apply_ok(dup_g, pt(mv), child_state));
            assert(apply_ok(st, pt(mv), child_state)) by {
                assert(dup_g.cells@ == st.cells@ && dup_g.board_size == st.board_size
                    && dup_g.turn == st.turn);
                assert forall|p: (int, int)| true implies #[trigger] child_state.owner_of(p) == (
                if p == pt(mv) {
                    tag_of(st.turn)
                } else {
                    st.owner_of(p)
                }) by {
                    assert(child_state.owner_of(p) == if p == pt(mv) {
                        tag_of(dup_g.turn)
                    } else {
                        dup_g.owner_of(p)
                    });
                }
            }
        }
        let new_node = Node::new(child_state, Some(node_index), Some(mv));
        let ghost new_node_g = new_node;
        let new_index = self.nodes.len();
        self.nodes.push(new_node);
        let ghost nodes1 = self.nodes@;
        self.nodes[node_index].children.push(new_index);
        proof {
            let nodes2 = self.nodes@;
            let st = nodes0[node_index as int].state;
            assert(nodes2.len() == nodes0.len() + 1);
            assert(nodes2[new_index as int] == new_node_g);
            assert forall|i: int|
                0 <= i < nodes0.len() && i != node_index implies (#[trigger] nodes2[i])
                == nodes0[i] by {
                assert(nodes1[i] == nodes0[i]);
            }
            assert(apply_ok(st, pt(mv), new_node_g.state));
            assert(wf_tree(nodes2)) by {
                assert(nodes2[0].parent_index is None) by {
                    if node_index == 0 {
                        assert(nodes2[0].parent_index == nodes0[0].parent_index);
                    }
                }
                assert forall|i: int|
                    1 <= i < nodes2.len() implies ((#[trigger] nodes2[i].parent_index) matches Some(
                    p,
                ) && 0 <= p < i) by {
                    if i < nodes0.len() {
                        assert(nodes2[i].parent_index == nodes0[i].parent_index);
                    }
                }
                assert forall|i: int, c: int|
                    0 <= i < nodes2.len() && 0 <= c < nodes2[i].children@.len() implies i < (
                #[trigger] nodes2[i].children@[c]) < nodes2.len() && (
                nodes2[nodes2[i].children@[c] as int].parent_index matches Some(p) && p as int
                    == i) by {
                    if i == node_index as int {
                        if c < nodes0[i].children@.len() {
                            assert(nodes2[i].children@[c] == nodes0[i].children@[c]);
                            let tgt = nodes0[i].children@[c];
                            assert(nodes2[tgt as int].parent_index == nodes0[tgt as int].parent_index);
                        } else {
                            assert(nodes2[i].children@[c] == new_index);
                        }
                    } else if i < nodes0.len() {
                        assert(nodes2[i].children@ == nodes0[i].children@);
                        let tgt = nodes0[i].children@[c];
                        assert(nodes2[tgt as int].parent_index == nodes0[tgt as int].parent_index);
                    } else {
                        assert(nodes2[i].children@.len() == 0);
                    }
                }
                assert forall|i: int, c1: int, c2: int|
                    0 <= i < nodes2.len() && 0 <= c1 < c2 < nodes2[i].children@.len() implies
                    nodes2[i].children@[c1] < nodes2[i].children@[c2] by {
                    if i == node_index as int {
                        assert(nodes2[i].children@[c1] == nodes0[i].children@[c1]);
                        if c2 < nodes0[i].children@.len() {
                            assert(nodes2[i].children@[c2] == nodes0[i].children@[c2]);
                        } else {
                            assert(nodes2[i].children@[c2] == new_index);
                            assert(nodes0[i].children@[c1] < nodes0.len());
                        }
                    } else if i < nodes0.len() {
                        assert(nodes2[i].children@ == nodes0[i].children@);
                    } else {
                        assert(nodes2[i].children@.len() == 0);
                    }
                }
                assert forall|j: int|
                    1 <= j < nodes2.len() implies ((#[trigger] nodes2[j].parent_index) matches Some(
                    p,
                ) && exists|c: int|
                    0 <= c < nodes2[p as int].children@.len() && nodes2[p as int].children@[c]
                        == j) by {
                    if j < nodes0.len() {
                        assert(nodes2[j].parent_index == nodes0[j].parent_index);
                        let p = nodes0[j].parent_index->Some_0;
                        let c = choose|c: int|
                            0 <= c < nodes0[p as int].children@.len()
                                && nodes0[p as int].children@[c] == j;
                        assert(nodes2[p as int].children@[c] == j);
                    } else {
                        assert(nodes2[j] == new_node_g);
                        assert(nodes2[node_index as int].children@[nodes0[node_index as int].children@.len() as int]
                            == new_index);
                    }
                }
                assert forall|i: int|
                    0 <= i < nodes2.len() implies (#[trigger] nodes2[i].state).wf()
                    && nodes2[i].state.board_size == nodes2[0].state.board_size
                    && nodes2[i].is_terminal == terminal_node(nodes2[i].state)
                    && nodes2[i].player_to_move == nodes2[i].state.turn && untried_ok(
                    nodes2[i],
                ) by {
                    assert(nodes2[0].state == nodes0[0].state);
                    if i < nodes0.len() && i != node_index {
                        assert(nodes2[i] == nodes0[i]);
                        assert(untried_ok(nodes0[i]));
                    } else if i == node_index as int {
                        assert(nodes2[i].state == nodes0[i].state);
                        assert(nodes2[i].is_terminal == nodes0[i].is_terminal);
                        assert(nodes2[i].player_to_move == nodes0[i].player_to_move);
                        let u0 = nodes0[i].untried@;
                        assert(untried_ok(nodes0[i]));
                        assert(nodes2[i].untried@ == u0.remove(mi as int));
                        assert(nodes2[i].children@.len() == nodes0[i].children@.len() + 1);
                        assert forall|t: int|
                            0 <= t < nodes2[i].untried@.len() implies in_lattice(
                            pt(#[trigger] nodes2[i].untried@[t]),
                            nodes2[i].state.max_qr(),
                        ) && owner_in(nodes2[i].state.cells@, pt(nodes2[i].untried@[t]))
                            == HexOwner::Empty by {
                            if t < mi as int {
                                assert(nodes2[i].untried@[t] == u0[t]);
                            } else {
                                assert(nodes2[i].untried@[t] == u0[t + 1]);
                            }
                        }
                    } else {
                        assert(nodes2[i] == new_node_g);
                        assert(new_node_g.untried@ == empty_moves(new_node_g.state.cells@));
                        assert forall|t: int|
                            0 <= t < new_node_g.untried@.len() implies in_lattice(
                            pt(#[trigger] new_node_g.untried@[t]),
                            new_node_g.state.max_qr(),
                        ) && owner_in(new_node_g.state.cells@, pt(new_node_g.untried@[t]))
                            == HexOwner::Empty by {
                            let cs = new_node_g.state.cells@;
                            lemma_empty_moves_index(cs, t);
                            let ci = choose|ii: int|
                                0 <= ii < cs.len() && (#[trigger] cs[ii]).owner == HexOwner::Empty
                                    && cs[ii].q == empty_moves(cs)[t].0 && cs[ii].r == empty_moves(
                                cs,
                                )[t].1;
                            lemma_idx_unique(
                                cs,
                                new_node_g.state.max_qr(),
                                ci,
                                pt(new_node_g.untried@[t]),
                            );
                        }
                        assert(untried_ok(new_node_g));
                    }
                }
                assert forall|i: int|
                    1 <= i < nodes2.len() implies ((#[trigger] nodes2[i].last_move) matches Some(m)
                    && (nodes2[i].parent_index matches Some(p) && in_lattice(
                    pt(m),
                    nodes2[p as int].state.max_qr(),
                ) && owner_in(nodes2[p as int].state.cells@, pt(m)) == HexOwner::Empty)) by {
                    if i < nodes0.len() {
                        assert(nodes2[i].last_move == nodes0[i].last_move);
                        assert(nodes2[i].parent_index == nodes0[i].parent_index);
                        let p = nodes0[i].parent_index->Some_0;
                        assert(nodes2[p as int].state == nodes0[p as int].state);
                    } else {
                        assert(nodes2[i] == new_node_g);
                        assert(nodes2[node_index as int].state == st);
                    }
                }
            }
        }
        new_index
    }

    /// Estimates a position by playing uniformly random legal moves
    /// until somebody has won or the board is full; the reward is +1
    /// when the winner is the player who moved into this node's
    /// position, -1 when the other player won, and 0 for a draw. The
    /// playout, its reward and the random source's final state are the
    /// functions of the position and the seed that `rollout_from`,
    /// `rollout_winner` and `reward_of` spell out.
    fn simulate(&mut self, start_index: usize) -> (reward: i64)
        requires
            wf_tree(old(self).nodes@),
            start_index < old(self).nodes@.len(),
        ensures
            reward == -1 || reward == 0 || reward == 1,
            final(self).nodes == old(self).nodes,
            final(self).max_iter == old(self).max_iter,
            ({
                let st = old(self).nodes@[start_index as int].state;
                let ro = rollout_from(
                    st.cells@,
                    st.max_qr(),
                    st.turn,
                    old(self).rng.state,
                    empty_moves(st.cells@).len() as nat,
                );
                &&& reward as int == reward_of(
                    rollout_winner(ro.0, st.max_qr()),
                    old(self).nodes@[start_index as int].player_to_move,
                )
                &&& final(self).rng.state == ro.1
            }),
    {
        let mut board = self.nodes[start_index].state.duplicate();
        let ghost st = self.nodes@[start_index as int].state;
        let ghost n = st.max_qr();
        let ghost rng0 = self.rng.state;
        let ghost fuel0 = empty_moves(st.cells@).len() as nat;
        #[verifier::loop_isolation(true)]
        loop
            invariant
                board.wf(),
                board.board_size == st.board_size,
                self.nodes == old(self).nodes,
                self.max_iter == old(self).max_iter,
                start_index < self.nodes@.len(),
                st == old(self).nodes@[start_index as int].state,
                n == st.max_qr(),
                rng0 == old(self).rng.state,
                fuel0 == empty_moves(st.cells@).len() as nat,
                rollout_from(st.cells@, n, st.turn, rng0, fuel0) == rollout_from(
                    board.cells@,
                    n,
                    board.turn,
                    self.rng.state,
                    empty_moves(board.cells@).len() as nat,
                ),
            ensures
                board.wf(),
                board.board_size == st.board_size,
                self.nodes == old(self).nodes,
                self.max_iter == old(self).max_iter,
                start_index < self.nodes@.len(),
                rollout_from(st.cells@, n, st.turn, rng0, fuel0) == (board.cells@, self.rng.state),
            decreases empty_moves(board.cells@).len(),
        {
            if board.is_terminal() {
                proof {
                    assert(rollout_terminal(board.cells@, n));
                }
                break;
            }
            let moves = board.legal_moves();
            if moves.len() == 0 {
                proof {
                    assert(rollout_terminal(board.cells@, n));
                }
                break;
            }
            let ghost cells_pre = board.cells@;
            let ghost turn_pre = board.turn;
            let ghost rng_pre = self.rng.state;
            let ghost fuel_pre = empty_moves(board.cells@).len() as nat;
            let mi = self.get_random_move_index(moves.len());
            let mv = moves[mi];
            proof {
                lemma_empty_moves_index(board.cells@, mi as int);
                let ci = choose|ii: int|
                    0 <= ii < board.cells@.len() && (#[trigger] board.cells@[ii]).owner
                        == HexOwner::Empty && board.cells@[ii].q == mv.0 && board.cells@[ii].r
                        == mv.1;
                lemma_idx_unique(board.cells@, board.max_qr(), ci, pt(mv));
            }
            let ghost pre = board;
            let applied = board.apply_move(mv);
            proof {
                match applied {
                    Ok(_) => {},
                    Err(e) => {
                        assert(in_bounds(pt(mv), pre.max_qr()));
                        assert(has_cell_in(pre.cells@, pt(mv)));
                        assert(false);
                    },
                }
                assert(!rollout_terminal(cells_pre, n));
                assert(fuel_pre > 0);
                assert(rollout_step(cells_pre, turn_pre, rng_pre) == (
                    board.cells@,
                    board.turn,
                    self.rng.state,
                ));
                assert(empty_moves(board.cells@).len() as nat == (fuel_pre - 1) as nat);
                assert(rollout_from(cells_pre, n, turn_pre, rng_pre, fuel_pre) == rollout_from(
                    board.cells@,
                    n,
                    board.turn,
                    self.rng.state,
                    (fuel_pre - 1) as nat,
                ));
            }
        }
        let winner = board.get_winner();
        let last_player = match self.nodes[start_index].player_to_move {
            Player::P1 => Player::P2,
            Player::P2 => Player::P1,
        };
        proof {
            assert(rollout_winner(board.cells@, n) == if has_win(board.cells@, n, Player::P1) {
                Some(Player::P1)
            } else if has_win(board.cells@, n, Player::P2) {
                Some(Player::P2)
            } else {
                Option::<Player>::None
            });
        }
        match winner {
            Some(p) => if p == last_player {
                1
            } else {
                -1
            },
            None => 0,
        }
    }

    /// Runs the full search from one starting position: pushes it as
    /// the root, then spends the whole iteration budget on
    /// select / expand / simulate / backpropagate cycles. On a
    /// non-terminal root, the root's visit count afterwards equals the
    /// budget exactly, and the root has at least one child.
    #[verifier::rlimit(100)]
    fn search(&mut self, start_state: BoardState) -> (root: usize)
        requires
            old(self).nodes@.len() == 0,
            start_state.wf(),
            1 <= old(self).max_iter <= 0x100000,
        ensures
            root == 0,
            wf_tree(final(self).nodes@),
            final(self).nodes@[0].state == start_state,
            final(self).nodes@[0].last_move is None,
            final(self).max_iter == old(self).max_iter,
            final(self).nodes@.len() <= 1 + old(self).max_iter,
            !terminal_node(start_state) ==> final(self).nodes@[0].visits == old(self).max_iter
                && final(self).nodes@[0].children@.len() >= 1 && final(self).nodes@.len() >= 2
                && sum_visits(final(self).nodes@, final(self).nodes@[0].children@) == old(
            self).max_iter,
            terminal_node(start_state) ==> final(self).nodes@.len() == 1,
    {
        let term = is_terminal(&start_state);
        let root_node = Node::new(start_state, None, None);
        let ghost start_g = root_node.state;
        self.nodes.push(root_node);
        proof {
            assert(self.nodes@.len() == 1);
            let nd = self.nodes@[0];
            assert forall|t: int|
                0 <= t < nd.untried@.len() implies in_lattice(
                pt(#[trigger] nd.untried@[t]),
                nd.state.max_qr(),
            ) && owner_in(nd.state.cells@, pt(nd.untried@[t])) == HexOwner::Empty by {
                let cs = nd.state.cells@;
                lemma_empty_moves_index(cs, t);
                let ci = choose|ii: int|
                    0 <= ii < cs.len() && (#[trigger] cs[ii]).owner == HexOwner::Empty && cs[ii].q
                        == empty_moves(cs)[t].0 && cs[ii].r == empty_moves(cs)[t].1;
                lemma_idx_unique(cs, nd.state.max_qr(), ci, pt(nd.untried@[t]));
            }
            assert(untried_ok(nd));
            assert(wf_tree(self.nodes@));
        }
        if term {
            return 0;
        }
        let max_iter = self.max_iter;
        let mut it: u64 = 0;
        while it < max_iter
            invariant
                wf_tree(self.nodes@),
                self.nodes@.len() >= 1,
                self.nodes@[0].state == start_g,
                start_g == start_state,
                !terminal_node(start_state),
                self.max_iter == old(self).max_iter,
                max_iter == old(self).max_iter,
                1 <= max_iter <= 0x100000,
                it <= max_iter,
                self.nodes@[0].visits == it,
                self.nodes@[0].last_move is None,
                self.nodes@.len() <= 1 + it,
                it >= 1 ==> self.nodes@.len() >= 2,
                node_bounds(self.nodes@, it as int),
                it >= 1 ==> self.nodes@[0].children@.len() >= 1,
                self.nodes@[0].children@.len() >= 1 || self.nodes@[0].untried@.len() > 0,
                sum_visits(self.nodes@, self.nodes@[0].children@) == it,
            decreases max_iter - it,
        {
            proof {
                assert forall|i: int|
                    0 <= i < self.nodes@.len() implies (#[trigger] self.nodes@[i]).visits
                    <= 0x100000 && -(self.nodes@[i].visits as int) <= self.nodes@[i].total_reward
                    <= self.nodes@[i].visits as int by {
                    assert(self.nodes@[i].visits <= it as int);
                }
            }
            let node_index = self.select(0);
            if self.nodes[node_index].is_terminal {
                proof {
                    assert(self.nodes@[0].is_terminal == terminal_node(start_g));
                    if self.nodes@[0].children@.len() == 0 {
                        assert(self.nodes@[0].untried@.len() > 0);
                        assert(select_spec(self.nodes@, 0) == 0);
                        assert(node_index == 0);
                        assert(false);
                    }
                    assert(0 < self.nodes@[0].children@[0] < self.nodes@.len());
                }
                let reward = self.simulate(node_index);
                let ghost nodes_a = self.nodes@;
                self.back_propagation(reward, node_index);
                proof {
                    lemma_root_on_path(nodes_a, node_index as int);
                    assert forall|i: int|
                        0 <= i < nodes_a.len() implies struct_same(
                        nodes_a[i],
                        #[trigger] self.nodes@[i],
                    ) by {
                        if on_path(nodes_a, node_index as int, i) {
                            assert(bumped(
                                nodes_a[i],
                                self.nodes@[i],
                                (reward as int) * neg_pow(dist_to(nodes_a, node_index as int, i)),
                            ));
                        }
                    }
                    lemma_wf_preserved(nodes_a, self.nodes@);
                    assert(bumped(
                        nodes_a[0],
                        self.nodes@[0],
                        (reward as int) * neg_pow(dist_to(nodes_a, node_index as int, 0)),
                    ));
                    assert forall|i: int|
                        0 <= i < self.nodes@.len() implies (#[trigger] self.nodes@[i]).visits <= it
                        + 1 && -(self.nodes@[i].visits as int) <= self.nodes@[i].total_reward
                        <= self.nodes@[i].visits as int by {
                        if on_path(nodes_a, node_index as int, i) {
                            let d = (reward as int) * neg_pow(
                                dist_to(nodes_a, node_index as int, i),
                            );
                            assert(-1 <= d <= 1) by {
                                lemma_small_product(
                                    reward as int,
                                    neg_pow(dist_to(nodes_a, node_index as int, i)),
                                );
                            }
                            assert(bumped(nodes_a[i], self.nodes@[i], d));
                        }
                    }
                    assert(node_index != 0);
                    lemma_backprop_bumps_one_root_child(
                        nodes_a,
                        self.nodes@,
                        node_index as int,
                        reward as int,
                    );
                    assert(self.nodes@[0].children == nodes_a[0].children);
                }
            } else {
                let ghost nodes_pre = self.nodes@;
                let expanded = self.expand(node_index);
                proof {
                    if self.nodes@[0].children@.len() == 0 {
                        assert(node_index != 0);
                        assert(self.nodes@[0] == nodes_pre[0]);
                        assert(nodes_pre[0].untried@.len() > 0);
                        assert(select_spec(nodes_pre, 0) == 0);
                        assert(node_index == 0);
                        assert(false);
                    }
                    lemma_expand_keeps_sum(nodes_pre, self.nodes@, node_index, expanded);
                    assert forall|i: int|
                        0 <= i < self.nodes@.len() implies (#[trigger] self.nodes@[i]).visits
                        <= it as int && -(self.nodes@[i].visits as int)
                        <= self.nodes@[i].total_reward <= self.nodes@[i].visits as int by {}
                }
                let reward = self.simulate(expanded);
                let ghost nodes_b = self.nodes@;
                self.back_propagation(reward, expanded);
                proof {
                    lemma_root_on_path(nodes_b, expanded as int);
                    assert forall|i: int|
                        0 <= i < nodes_b.len() implies struct_same(
                        nodes_b[i],
                        #[trigger] self.nodes@[i],
                    ) by {
                        if on_path(nodes_b, expanded as int, i) {
                            assert(bumped(
                                nodes_b[i],
                                self.nodes@[i],
                                (reward as int) * neg_pow(dist_to(nodes_b, expanded as int, i)),
                            ));
                        }
                    }
                    lemma_wf_preserved(nodes_b, self.nodes@);
                    assert(bumped(
                        nodes_b[0],
                        self.nodes@[0],
                        (reward as int) * neg_pow(dist_to(nodes_b, expanded as int, 0)),
                    ));
                    assert forall|i: int|
                        0 <= i < self.nodes@.len() implies (#[trigger] self.nodes@[i]).visits <= it
                        + 1 && -(self.nodes@[i].visits as int) <= self.nodes@[i].total_reward
                        <= self.nodes@[i].visits as int by {
                        if on_path(nodes_b, expanded as int, i) {
                            let d = (reward as int) * neg_pow(dist_to(nodes_b, expanded as int, i));
                            assert(-1 <= d <= 1) by {
                                lemma_small_product(
                                    reward as int,
                                    neg_pow(dist_to(nodes_b, expanded as int, i)),
                                );
                            }
                            assert(bumped(nodes_b[i], self.nodes@[i], d));
                        }
                    }
                    assert(1 <= expanded as int && (expanded as int) < nodes_b.len());
                    lemma_backprop_bumps_one_root_child(
                        nodes_b,
                        self.nodes@,
                        expanded as int,
                        reward as int,
                    );
                    assert(self.nodes@[0].children == nodes_b[0].children);
                }
            }
            it += 1;
        }
        0
    }

    /// The robust child rule: the move of the root's child with the
    /// highest visit count, ties going to the earliest child.
    fn best_move(&self, root_index: usize) -> (res: (i32, i32))
        requires
            wf_tree(self.nodes@),
            root_index < self.nodes@.len(),
            self.nodes@[root_index as int].children@.len() > 0,
        ensures
            ({
                let ch = self.nodes@[root_index as int].children@;
                let b = best_child(self.nodes@, ch);
                &&& self.nodes@[b as int].last_move == Some(res)
                &&& in_lattice(pt(res), self.nodes@[root_index as int].state.max_qr())
                &&& owner_in(self.nodes@[root_index as int].state.cells@, pt(res))
                    == HexOwner::Empty
            }),
    {
        let ghost ch = self.nodes@[root_index as int].children@;
        let n_ch = self.nodes[root_index].children.len();
        let c0 = self.nodes[root_index].children[0];
        let mut best: usize = c0;
        let mut best_visits: u64 = self.nodes[c0].visits;
        proof {
            assert(ch.take(1) =~= seq![ch[0]]);
            assert(best_child(self.nodes@, ch.take(1)) == ch[0]);
        }
        let mut t: usize = 1;
        while t < n_ch
            invariant
                1 <= t <= n_ch,
                n_ch == ch.len(),
                ch == self.nodes@[root_index as int].children@,
                root_index < self.nodes@.len(),
                best == best_child(self.nodes@, ch.take(t as int)),
                best < self.nodes@.len(),
                best_visits == self.nodes@[best as int].visits,
            decreases n_ch - t,
        {
            let ci = self.nodes[root_index].children[t];
            let v = self.nodes[ci].visits;
            proof {
                assert(ch.take(t as int + 1).drop_last() =~= ch.take(t as int));
                assert(ch.take(t as int + 1).last() == ch[t as int]);
            }
            if v > best_visits {
                best = ci;
                best_visits = v;
            }
            t += 1;
        }
        proof {
            assert(ch.take(n_ch as int) =~= ch);
            lemma_best_child_in(self.nodes@, ch);
            let c = choose|c: int| 0 <= c < ch.len() && ch[c] == best_child(self.nodes@, ch);
            assert(self.nodes@[root_index as int].children@[c] == best);
            assert(1 <= best < self.nodes@.len());
        }
        let mv = self.nodes[best].last_move;
        match mv {
            Some(m) => m,
            None => {
                proof {
                    assert(false);
                }
                (0, 0)
            },
        }
    }

    /// A search engine with the default iteration budget and a fixed
    /// default seed.
    pub fn new() -> (res: MCTS)
        ensures
            res.nodes@.len() == 0,
            res.max_iter == 1000,
            res.rng.state == 0x9E3779B97F4A7C15,
    {
        MCTS {
            nodes: Vec::new(),
            max_iter: 1000,
            rng: SplitMix64::new(0x9E3779B97F4A7C15),
        }
    }

    /// A search engine with the default iteration budget and the given
    /// seed for its random source.
    pub fn with_seed(seed: u64) -> (res: MCTS)
        ensures
            res.nodes@.len() == 0,
            res.max_iter == 1000,
            res.rng.state == seed,
    {
        MCTS { nodes: Vec::new(), max_iter: 1000, rng: SplitMix64::new(seed) }
    }

    /// A search engine with an explicit iteration budget and seed.
    pub fn with_config(max_iter: u64, seed: u64) -> (res: MCTS)
        requires
            1 <= max_iter <= 0x100000,
        ensures
            res.nodes@.len() == 0,
            res.max_iter == max_iter,
            res.rng.state == seed,
    {
        MCTS { nodes: Vec::new(), max_iter, rng: SplitMix64::new(seed) }
    }

    /// Searches from the given position and returns the chosen move:
    /// always an empty lattice cell of that position, and always the
    /// move of the root's most-visited child after a full budget of
    /// iterations.
    pub fn run(&mut self, start_state: BoardState) -> (res: (i32, i32))
        requires
            old(self).nodes@.len() == 0,
            start_state.wf(),
            1 <= old(self).max_iter <= 0x100000,
            !terminal_node(start_state),
        ensures
            in_lattice(pt(res), start_state.max_qr()),
            owner_in(start_state.cells@, pt(res)) == HexOwner::Empty,
            wf_tree(final(self).nodes@),
            final(self).nodes@[0].state == start_state,
            final(self).nodes@[0].last_move is None,
            final(self).nodes@[0].visits == old(self).max_iter,
            final(self).nodes@[0].children@.len() >= 1,
            sum_visits(final(self).nodes@, final(self).nodes@[0].children@) == old(self).max_iter,
            2 <= final(self).nodes@.len() <= 1 + old(self).max_iter,
            ({
                let ch = final(self).nodes@[0].children@;
                final(self).nodes@[best_child(final(self).nodes@, ch) as int].last_move == Some(res)
            }),
    {
        let root_index = self.search(start_state);
        self.best_move(root_index)
    }
}

proof fn lemma_small_product(r: int, s: int)
    requires
        -1 <= r <= 1,
        s == 1 || s == -1,
    ensures
        -1 <= r * s <= 1,
{
    assert(-1 <= r * s <= 1) by (nonlinear_arith)
        requires
            -1 <= r <= 1,
            s == 1 || s == -1,
    ;
}

/// The node fields that backpropagation never changes.
pub open spec fn struct_same(a: Node, b: Node) -> bool {
    &&& b.state == a.state
    &&& b.parent_index == a.parent_index
    &&& b.children == a.children
    &&& b.untried == a.untried
    &&& b.is_terminal == a.is_terminal
    &&& b.player_to_move == a.player_to_move
    &&& b.last_move == a.last_move
}

/// A pass that only touches visit counts and rewards keeps the arena
/// well formed.
proof fn lemma_wf_preserved(a: Seq<Node>, b: Seq<Node>)
    requires
        wf_tree(a),
        a.len() == b.len(),
        forall|i: int| 0 <= i < a.len() ==> struct_same(a[i], #[trigger] b[i]),
    ensures
        wf_tree(b),
{
    assert(struct_same(a[0], b[0]));
    assert forall|i: int|
        1 <= i < b.len() implies ((#[trigger] b[i].parent_index) matches Some(p) && 0 <= p < i) by {
        assert(struct_same(a[i], b[i]));
    }
    assert forall|i: int, c: int|
        0 <= i < b.len() && 0 <= c < b[i].children@.len() implies i < (
    #[trigger] b[i].children@[c]) < b.len() && (b[b[i].children@[c] as int].parent_index matches Some(
        p,
    ) && p as int == i) by {
        assert(struct_same(a[i], b[i]));
        assert(b[i].children@ == a[i].children@);
        let tgt = a[i].children@[c];
        assert(struct_same(a[tgt as int], b[tgt as int]));
    }
    assert forall|i: int, c1: int, c2: int|
        0 <= i < b.len() && 0 <= c1 < c2 < b[i].children@.len() implies b[i].children@[c1]
        < b[i].children@[c2] by {
        assert(struct_same(a[i], b[i]));
        assert(b[i].children@ == a[i].children@);
    }
    assert forall|j: int|
        1 <= j < b.len() implies ((#[trigger] b[j].parent_index) matches Some(p) && exists|c: int|
            0 <= c < b[p as int].children@.len() && b[p as int].children@[c] == j) by {
        assert(struct_same(a[j], b[j]));
        let p = a[j].parent_index->Some_0;
        assert(struct_same(a[p as int], b[p as int]));
        let c = choose|c: int|
            0 <= c < a[p as int].children@.len() && a[p as int].children@[c] == j;
        assert(b[p as int].children@[c] == j);
    }
    assert forall|i: int|
        0 <= i < b.len() implies (#[trigger] b[i].state).wf() && b[i].state.board_size
        == b[0].state.board_size && b[i].is_terminal == terminal_node(b[i].state)
        && b[i].player_to_move == b[i].state.turn && untried_ok(b[i]) by {
        assert(struct_same(a[i], b[i]));
        assert(untried_ok(a[i]));
        assert(b[i].untried@ == a[i].untried@ && b[i].children@ == a[i].children@);
    }
    assert forall|i: int|
        1 <= i < b.len() implies ((#[trigger] b[i].last_move) matches Some(m) && (b[i].parent_index
        matches Some(p) && in_lattice(pt(m), b[p as int].state.max_qr()) && owner_in(
        b[p as int].state.cells@,
        pt(m),
    ) == HexOwner::Empty)) by {
        assert(struct_same(a[i], b[i]));
        let p = a[i].parent_index->Some_0;
        assert(struct_same(a[p as int], b[p as int]));
    }
}

/// The child with the most visits, earliest child winning ties.
pub open spec fn best_child(nodes: Seq<Node>, ch: Seq<usize>) -> usize
    decreases ch.len(),
{
    if ch.len() <= 1 {
        ch[0]
    } else {
        let prev = best_child(nodes, ch.drop_last());
        if nodes[ch.last() as int].visits > nodes[prev as int].visits {
            ch.last()
        } else {
            prev
        }
    }
}

/// The chosen best child is one of the children.
proof fn lemma_best_child_in(nodes: Seq<Node>, ch: Seq<usize>)
    requires
        ch.len() > 0,
    ensures
        exists|c: int| 0 <= c < ch.len() && ch[c] == best_child(nodes, ch),
    decreases ch.len(),
{
    if ch.len() == 1 {
        assert(ch[0] == best_child(nodes, ch));
    } else {
        lemma_best_child_in(nodes, ch.drop_last());
        let prev = best_child(nodes, ch.drop_last());
        if nodes[ch.last() as int].visits > nodes[prev as int].visits {
            assert(ch[ch.len() - 1] == best_child(nodes, ch));
        } else {
            let c = choose|c: int| 0 <= c < ch.drop_last().len() && ch.drop_last()[c] == prev;
            assert(ch[c] == prev);
        }
    }
}

} // verus!
