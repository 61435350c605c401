//! Win-condition analysis over a board snapshot.
//!
//! A player has won when one connected group of their stones touches
//! two distinct corner cells (bridge), touches three distinct sides
//! (fork), or encloses a region of non-player cells that cannot reach
//! the board boundary (ring). Connectivity is 6-neighbour adjacency on
//! the hex lattice; the specifications below phrase it as the
//! existence of a path, and the breadth-style traversal in the
//! executable code is proved sound and complete against that.

use vstd::prelude::*;

use crate::board::{
    cells_wf, has_cell_in, hex_coord, idx_in, in_lattice, lemma_idx_unique, owner_in, tag_of,
    BoardState, Hex, HexOwner, Player,
};

verus! {

/// The coordinate pair of an executable coordinate, as mathematical
/// integers.
pub open spec fn pt(p: (i32, i32)) -> (int, int) {
    (p.0 as int, p.1 as int)
}

/// The `d`-th of the six lattice neighbours of `p`.
pub open spec fn nbr(p: (int, int), d: int) -> (int, int) {
    if d == 0 {
        (p.0 + 1, p.1)
    } else if d == 1 {
        (p.0 - 1, p.1)
    } else if d == 2 {
        (p.0, p.1 + 1)
    } else if d == 3 {
        (p.0, p.1 - 1)
    } else if d == 4 {
        (p.0 + 1, p.1 - 1)
    } else {
        (p.0 - 1, p.1 + 1)
    }
}

/// Two coordinates are adjacent when one is a lattice neighbour of the
/// other.
pub open spec fn adjacent(a: (int, int), b: (int, int)) -> bool {
    exists|d: int| 0 <= d < 6 && (#[trigger] nbr(a, d)) == b
}

/// Whether a traversal may stand on coordinate `p`. With `mo`
/// ("match owner") the traversal walks the player's own stones;
/// without it, it walks lattice cells not owned by the player (the
/// escape regions of the ring check).
pub open spec fn pass_cell(cells: Seq<Hex>, n: int, player: Player, mo: bool, p: (int, int)) -> bool {
    if mo {
        owner_in(cells, p) == tag_of(player)
    } else {
        in_lattice(p, n) && owner_in(cells, p) != tag_of(player)
    }
}

/// A non-empty sequence of coordinates, each allowed by `pass_cell`
/// and each adjacent to the next.
pub open spec fn is_path(
    cells: Seq<Hex>,
    n: int,
    player: Player,
    mo: bool,
    path: Seq<(int, int)>,
) -> bool {
    &&& path.len() > 0
    &&& forall|i: int| 0 <= i < path.len() ==> pass_cell(cells, n, player, mo, #[trigger] path[i])
    &&& forall|i: int| 0 <= i < path.len() - 1 ==> adjacent(#[trigger] path[i], path[i + 1])
}

/// `path` is a walk from `a` to `b`.
pub open spec fn connects(
    cells: Seq<Hex>,
    n: int,
    player: Player,
    mo: bool,
    path: Seq<(int, int)>,
    a: (int, int),
    b: (int, int),
) -> bool {
    is_path(cells, n, player, mo, path) && path[0] == a && path[path.len() - 1] == b
}

/// Some walk leads from `a` to `b`.
pub open spec fn reachable(
    cells: Seq<Hex>,
    n: int,
    player: Player,
    mo: bool,
    a: (int, int),
    b: (int, int),
) -> bool {
    exists|path: Seq<(int, int)>| #[trigger] connects(cells, n, player, mo, path, a, b)
}

/// The six corner cells of the lattice, where exactly two of the three
/// axial coordinates take their extremal value.
pub open spec fn corner_seq(n: int) -> Seq<(int, int)> {
    seq![(-n, 0int), (-n, n), (0int, -n), (0int, n), (n, -n), (n, 0int)]
}

pub open spec fn is_corner(p: (int, int), n: int) -> bool {
    ||| p == (-n, 0int)
    ||| p == (-n, n)
    ||| p == (0int, -n)
    ||| p == (0int, n)
    ||| p == (n, -n)
    ||| p == (n, 0int)
}

/// A cell on the outer boundary: some axial coordinate takes an
/// extremal value.
pub open spec fn on_boundary(p: (int, int), n: int) -> bool {
    ||| p.0 == -n
    ||| p.0 == n
    ||| p.1 == -n
    ||| p.1 == n
    ||| -p.0 - p.1 == -n
    ||| -p.0 - p.1 == n
}

/// Which of the six sides (0-5) a boundary cell lies on. Corners
/// belong to no side: a side is the set of boundary cells between two
/// corners, the corners excluded.
pub open spec fn side_of(p: (int, int), n: int) -> Option<u8> {
    if is_corner(p, n) {
        Option::None
    } else if p.0 == -n {
        Option::Some(0u8)
    } else if p.1 == -n {
        Option::Some(1u8)
    } else if -p.0 - p.1 == -n {
        Option::Some(2u8)
    } else if p.0 == n {
        Option::Some(3u8)
    } else if p.1 == n {
        Option::Some(4u8)
    } else if -p.0 - p.1 == n {
        Option::Some(5u8)
    } else {
        Option::None
    }
}

/// From `x`, some walk over the player's stones reaches a cell of side
/// `s`.
pub open spec fn touches_side(cells: Seq<Hex>, n: int, player: Player, x: (int, int), s: u8) -> bool {
    exists|y: (int, int)|
        #[trigger] reachable(cells, n, player, true, x, y) && side_of(y, n) == Option::Some(s)
}

/// From `x`, walks over the player's stones reach two distinct corners.
pub open spec fn two_corners_from(cells: Seq<Hex>, n: int, player: Player, x: (int, int)) -> bool {
    exists|c1: (int, int), c2: (int, int)|
        #![trigger reachable(cells, n, player, true, x, c1), reachable(cells, n, player, true, x, c2)]
        c1 != c2 && is_corner(c1, n) && is_corner(c2, n) && reachable(cells, n, player, true, x, c1)
            && reachable(cells, n, player, true, x, c2)
}

/// Bridge win: one connected group of the player's stones touches two
/// distinct corners.
pub open spec fn bridge_win(cells: Seq<Hex>, n: int, player: Player) -> bool {
    exists|x: (int, int)|
        owner_in(cells, x) == tag_of(player) && #[trigger] two_corners_from(cells, n, player, x)
}

/// From `x`, walks over the player's stones reach three distinct sides.
pub open spec fn three_sides_from(cells: Seq<Hex>, n: int, player: Player, x: (int, int)) -> bool {
    exists|s1: u8, s2: u8, s3: u8|
        #![trigger touches_side(cells, n, player, x, s1), touches_side(cells, n, player, x, s2), touches_side(cells, n, player, x, s3)]
        s1 != s2 && s1 != s3 && s2 != s3 && touches_side(cells, n, player, x, s1) && touches_side(
            cells,
            n,
            player,
            x,
            s2,
        ) && touches_side(cells, n, player, x, s3)
}

/// Fork win: one connected group of the player's stones touches three
/// distinct sides.
pub open spec fn fork_win(cells: Seq<Hex>, n: int, player: Player) -> bool {
    exists|x: (int, int)|
        owner_in(cells, x) == tag_of(player) && #[trigger] three_sides_from(cells, n, player, x)
}

/// From `c`, some walk over cells not owned by the player reaches the
/// board boundary.
pub open spec fn escapes(cells: Seq<Hex>, n: int, player: Player, c: (int, int)) -> bool {
    exists|y: (int, int)|
        #[trigger] reachable(cells, n, player, false, c, y) && on_boundary(y, n)
}

/// Ring win: some lattice cell not owned by the player is enclosed by
/// the player's stones, i.e. cannot escape to the boundary.
pub open spec fn ring_win(cells: Seq<Hex>, n: int, player: Player) -> bool {
    exists|c: (int, int)|
        in_lattice(c, n) && owner_in(cells, c) != tag_of(player) && !(#[trigger] escapes(
            cells,
            n,
            player,
            c,
        ))
}

/// The player has won by bridge, fork or ring.
pub open spec fn has_win(cells: Seq<Hex>, n: int, player: Player) -> bool {
    bridge_win(cells, n, player) || fork_win(cells, n, player) || ring_win(cells, n, player)
}

/// A coordinate the traversal may stand on is always a stored cell.
proof fn lemma_pass_has_cell(cells: Seq<Hex>, n: int, player: Player, mo: bool, p: (int, int))
    requires
        cells_wf(cells, n),
        pass_cell(cells, n, player, mo, p),
    ensures
        has_cell_in(cells, p),
        in_lattice(p, n),
        0 <= idx_in(cells, p) < cells.len(),
        hex_coord(cells[idx_in(cells, p)]) == p,
{
    if mo {
        assert(owner_in(cells, p) != HexOwner::Empty);
        assert(has_cell_in(cells, p));
    } else {
        assert(has_cell_in(cells, p));
    }
    let w = idx_in(cells, p);
    assert(0 <= w < cells.len() && hex_coord(cells[w]) == p);
}

/// The one-cell walk: an allowed coordinate reaches itself.
proof fn lemma_reachable_self(cells: Seq<Hex>, n: int, player: Player, mo: bool, a: (int, int))
    requires
        pass_cell(cells, n, player, mo, a),
    ensures
        reachable(cells, n, player, mo, a, a),
{
    let path = seq![a];
    assert(path[0] == a);
    assert(connects(cells, n, player, mo, path, a, a));
}

/// Extending a walk by one allowed, adjacent coordinate.
proof fn lemma_reachable_step(
    cells: Seq<Hex>,
    n: int,
    player: Player,
    mo: bool,
    a: (int, int),
    b: (int, int),
    c: (int, int),
)
    requires
        reachable(cells, n, player, mo, a, b),
        adjacent(b, c),
        pass_cell(cells, n, player, mo, c),
    ensures
        reachable(cells, n, player, mo, a, c),
{
    let path = choose|path: Seq<(int, int)>| #[trigger] connects(cells, n, player, mo, path, a, b);
    let path2 = path.push(c);
    assert forall|i: int| 0 <= i < path2.len() implies pass_cell(
        cells,
        n,
        player,
        mo,
        #[trigger] path2[i],
    ) by {
        if i < path.len() {
            assert(path2[i] == path[i]);
        }
    }
    assert forall|i: int| 0 <= i < path2.len() - 1 implies adjacent(
        #[trigger] path2[i],
        path2[i + 1],
    ) by {
        if i < path.len() - 1 {
            assert(path2[i] == path[i] && path2[i + 1] == path[i + 1]);
        } else {
            assert(path2[i] == path[path.len() - 1] && path2[i + 1] == c);
        }
    }
    assert(path2[0] == a && path2[path2.len() - 1] == c);
    assert(connects(cells, n, player, mo, path2, a, c));
}

/// A region closed under allowed adjacency: no walk leaves it.
pub open spec fn region_closed(
    cells: Seq<Hex>,
    n: int,
    player: Player,
    mo: bool,
    vs: Set<(int, int)>,
) -> bool {
    forall|p: (int, int), d: int|
        vs.contains(p) && 0 <= d < 6 && pass_cell(cells, n, player, mo, #[trigger] nbr(p, d))
            ==> vs.contains(nbr(p, d))
}

/// Every walk that starts inside a closed region stays inside it.
proof fn lemma_path_in_closed(
    cells: Seq<Hex>,
    n: int,
    player: Player,
    mo: bool,
    vs: Set<(int, int)>,
    path: Seq<(int, int)>,
)
    requires
        is_path(cells, n, player, mo, path),
        vs.contains(path[0]),
        region_closed(cells, n, player, mo, vs),
    ensures
        forall|i: int| 0 <= i < path.len() ==> vs.contains(#[trigger] path[i]),
    decreases path.len(),
{
    if path.len() > 1 {
        assert(adjacent(path[0], path[1]));
        let d = choose|d: int| 0 <= d < 6 && (#[trigger] nbr(path[0], d)) == path[1];
        assert(pass_cell(cells, n, player, mo, path[1]));
        assert(vs.contains(path[1]));
        let tail = path.drop_first();
        assert forall|i: int| 0 <= i < tail.len() implies pass_cell(
            cells,
            n,
            player,
            mo,
            #[trigger] tail[i],
        ) by {
            assert(tail[i] == path[i + 1]);
        }
        assert forall|i: int| 0 <= i < tail.len() - 1 implies adjacent(
            #[trigger] tail[i],
            tail[i + 1],
        ) by {
            assert(tail[i] == path[i + 1] && tail[i + 1] == path[i + 2]);
        }
        assert(is_path(cells, n, player, mo, tail));
        lemma_path_in_closed(cells, n, player, mo, vs, tail);
        assert forall|i: int| 0 <= i < path.len() implies vs.contains(#[trigger] path[i]) by {
            if i >= 1 {
                assert(tail[i - 1] == path[i]);
                assert(vs.contains(tail[i - 1]));
            }
        }
    }
}

/// How many entries of a boolean sequence are set.
pub open spec fn count_true(s: Seq<bool>) -> int
    decreases s.len(),
{
    if s.len() == 0 {
        0
    } else {
        count_true(s.drop_last()) + if s.last() {
            1int
        } else {
            0int
        }
    }
}

proof fn lemma_count_true_le(s: Seq<bool>)
    ensures
        0 <= count_true(s) <= s.len(),
    decreases s.len(),
{
    if s.len() > 0 {
        lemma_count_true_le(s.drop_last());
    }
}

proof fn lemma_count_true_update(s: Seq<bool>, i: int)
    requires
        0 <= i < s.len(),
        !s[i],
    ensures
        count_true(s.update(i, true)) == count_true(s) + 1,
    decreases s.len(),
{
    let upd = s.update(i, true);
    if i == s.len() - 1 {
        assert(upd.drop_last() =~= s.drop_last());
    } else {
        assert(upd.drop_last() =~= s.drop_last().update(i, true));
        assert(upd.last() == s.last());
        lemma_count_true_update(s.drop_last(), i);
    }
}

/// The `d`-th neighbour of `p` is either disallowed or already marked
/// visited.
pub open spec fn nbr_ok(
    cells: Seq<Hex>,
    n: int,
    player: Player,
    mo: bool,
    vis: Seq<bool>,
    p: (int, int),
    d: int,
) -> bool {
    pass_cell(cells, n, player, mo, nbr(p, d)) ==> has_cell_in(cells, nbr(p, d)) && 0 <= idx_in(
        cells,
        nbr(p, d),
    ) < vis.len() && vis[idx_in(cells, nbr(p, d))]
}

/// Every allowed neighbour of the cell at index `k` is marked visited.
pub open spec fn closed_at(
    cells: Seq<Hex>,
    n: int,
    player: Player,
    mo: bool,
    vis: Seq<bool>,
    k: int,
) -> bool {
    forall|d: int| 0 <= d < 6 ==> nbr_ok(cells, n, player, mo, vis, hex_coord(cells[k]), d)
}

/// The set of coordinates a visited bitmap marks.
pub open spec fn visited_set(cells: Seq<Hex>, vis: Seq<bool>) -> Set<(int, int)> {
    Set::new(
        |p: (int, int)|
            has_cell_in(cells, p) && 0 <= idx_in(cells, p) < vis.len() && vis[idx_in(cells, p)],
    )
}

/// Marking one more cell visited preserves the closure of already
/// closed cells.
proof fn lemma_closed_monotone(
    cells: Seq<Hex>,
    n: int,
    player: Player,
    mo: bool,
    vis1: Seq<bool>,
    vis2: Seq<bool>,
    k: int,
)
    requires
        closed_at(cells, n, player, mo, vis1, k),
        vis1.len() == vis2.len(),
        forall|j: int| 0 <= j < vis1.len() && vis1[j] ==> vis2[j],
    ensures
        closed_at(cells, n, player, mo, vis2, k),
{
    assert forall|d: int| 0 <= d < 6 implies nbr_ok(
        cells,
        n,
        player,
        mo,
        vis2,
        hex_coord(cells[k]),
        d,
    ) by {
        assert(nbr_ok(cells, n, player, mo, vis1, hex_coord(cells[k]), d));
    }
}

impl WinDetector {
    /// Marks every cell whose coordinate some allowed walk from the
    /// cell at index `start` can reach. The returned bitmap is indexed
    /// like the board's cell vector; it is sound (every marked cell is
    /// reachable and allowed) and complete (every reachable coordinate
    /// is marked).
    #[verifier::rlimit(100)]
    fn bfs_region(&self, start: usize, player: Player, mo: bool) -> (visited: Vec<bool>)
        requires
            self.wf(),
            start < self.board.cells@.len(),
            pass_cell(
                self.board.cells@,
                self.board.max_qr(),
                player,
                mo,
                hex_coord(self.board.cells@[start as int]),
            ),
        ensures
            visited@.len() == self.board.cells@.len(),
            visited@[start as int],
            forall|k: int|
                0 <= k < visited@.len() && visited@[k] ==> pass_cell(
                    self.board.cells@,
                    self.board.max_qr(),
                    player,
                    mo,
                    hex_coord(self.board.cells@[k]),
                ) && reachable(
                    self.board.cells@,
                    self.board.max_qr(),
                    player,
                    mo,
                    hex_coord(self.board.cells@[start as int]),
                    hex_coord(self.board.cells@[k]),
                ),
            forall|p: (int, int)|
                #[trigger] reachable(
                    self.board.cells@,
                    self.board.max_qr(),
                    player,
                    mo,
                    hex_coord(self.board.cells@[start as int]),
                    p,
                ) ==> has_cell_in(self.board.cells@, p) && visited@[idx_in(self.board.cells@, p)],
    {
        let ghost cells = self.board.cells@;
        let ghost n = self.board.max_qr();
        let ghost sc = hex_coord(self.board.cells@[start as int]);
        let n_cells = self.board.cells.len();

        let mut visited: Vec<bool> = Vec::new();
        let mut t: usize = 0;
        while t < n_cells
            invariant
                t <= n_cells,
                visited@.len() == t as int,
                forall|j: int| 0 <= j < t ==> !visited@[j],
            decreases n_cells - t,
        {
            visited.push(false);
            t += 1;
        }
        proof {
            lemma_count_true_le(visited@);
        }
        let ghost vis_blank = visited@;
        visited[start] = true;
        let mut queue: Vec<usize> = Vec::new();
        queue.push(start);
        proof {
            lemma_count_true_le(visited@);
            lemma_reachable_self(cells, n, player, mo, sc);
            lemma_idx_unique(cells, n, start as int, sc);
            assert(queue@[0] == start);
            assert(queue@.contains(start));
            assert forall|k: int|
                0 <= k < cells.len() && visited@[k] && !queue@.contains(
                    k as usize,
                ) implies #[trigger] closed_at(cells, n, player, mo, visited@, k) by {
                if k != start as int {
                    assert(!vis_blank[k]);
                    assert(false);
                } else {
                    assert(false);
                }
            }
        }

        while queue.len() > 0
            invariant
                visited@.len() == cells.len(),
                visited@[start as int],
                count_true(visited@) <= cells.len(),
                forall|t: int|
                    0 <= t < queue@.len() ==> (#[trigger] queue@[t]) < cells.len()
                        && visited@[queue@[t] as int],
                forall|t1: int, t2: int|
                    0 <= t1 < t2 < queue@.len() ==> queue@[t1] != queue@[t2],
                forall|k: int|
                    0 <= k < cells.len() && visited@[k] ==> pass_cell(
                        cells,
                        n,
                        player,
                        mo,
                        hex_coord(#[trigger] cells[k]),
                    ) && reachable(cells, n, player, mo, sc, hex_coord(cells[k])),
                forall|k: int|
                    0 <= k < cells.len() && visited@[k] && !queue@.contains(k as usize)
                        ==> #[trigger] closed_at(cells, n, player, mo, visited@, k),
            decreases cells.len() - count_true(visited@), queue@.len(),
        {
            let ghost count0 = count_true(visited@);
            let ghost qlen0 = queue@.len();
            let ghost qpre = queue@;
            let k = queue.pop().unwrap();
            let ghost kc = hex_coord(cells[k as int]);
            let h = self.board.cells[k];
            proof {
                assert(in_lattice(kc, n));
                assert(-127 <= h.q <= 127 && -127 <= h.r <= 127);
                assert forall|kk: int|
                    0 <= kk < cells.len() && visited@[kk] && !queue@.contains(kk as usize) && kk
                        != k as int implies #[trigger] closed_at(
                    cells,
                    n,
                    player,
                    mo,
                    visited@,
                    kk,
                ) by {
                    if qpre.contains(kk as usize) {
                        let t = choose|t: int| 0 <= t < qpre.len() && qpre[t] == kk as usize;
                        if t < qpre.len() - 1 {
                            assert(queue@[t] == qpre[t]);
                            assert(queue@.contains(kk as usize));
                            assert(false);
                        } else {
                            assert(qpre[t] == k);
                            assert(false);
                        }
                    }
                }
                assert forall|kk: int|
                    0 <= kk < qpre.len() - 1 implies !(#[trigger] queue@[kk] == k) by {
                    assert(qpre[kk] == queue@[kk]);
                    assert(qpre[qpre.len() - 1] == k);
                }
                assert(!queue@.contains(k));
            }
            let nbrs = self.get_neighbours(h.q, h.r);
            let mut d: usize = 0;
            while d < 6
                invariant
                    d <= 6,
                    visited@.len() == cells.len(),
                    visited@[start as int],
                    visited@[k as int],
                    k < cells.len(),
                    kc == hex_coord(cells[k as int]),
                    count_true(visited@) <= cells.len(),
                    nbrs@.len() == 6,
                    forall|dd: int| 0 <= dd < 6 ==> pt(#[trigger] nbrs@[dd]) == nbr(kc, dd),
                    forall|t: int|
                        0 <= t < queue@.len() ==> (#[trigger] queue@[t]) < cells.len()
                            && visited@[queue@[t] as int],
                    forall|t1: int, t2: int|
                        0 <= t1 < t2 < queue@.len() ==> queue@[t1] != queue@[t2],
                    !queue@.contains(k),
                    forall|kk: int|
                        0 <= kk < cells.len() && visited@[kk] ==> pass_cell(
                            cells,
                            n,
                            player,
                            mo,
                            hex_coord(#[trigger] cells[kk]),
                        ) && reachable(cells, n, player, mo, sc, hex_coord(cells[kk])),
                    forall|kk: int|
                        0 <= kk < cells.len() && visited@[kk] && !queue@.contains(kk as usize) && kk
                            != k as int ==> #[trigger] closed_at(cells, n, player, mo, visited@, kk),
                    forall|dd: int| 0 <= dd < d ==> #[trigger] nbr_ok(cells, n, player, mo, visited@, kc, dd),
                    queue@.len() >= qlen0 - 1,
                    count_true(visited@) - count0 == queue@.len() - (qlen0 - 1),
                decreases 6 - d,
            {
                let (nq, nr) = nbrs[d];
                proof {
                    assert(pt(nbrs@[d as int]) == nbr(kc, d as int));
                }
                if pass_exec(&self.board, player, mo, nq, nr) {
                    match self.board.find_cell(nq, nr) {
                        Some(j) => {
                            proof {
                                lemma_pass_has_cell(cells, n, player, mo, (nq as int, nr as int));
                            }
                            if !visited[j] {
                                let ghost vis1 = visited@;
                                let ghost q1 = queue@;
                                visited[j] = true;
                                queue.push(j);
                                proof {
                                    lemma_count_true_update(vis1, j as int);
                                    lemma_count_true_le(visited@);
                                    assert(adjacent(kc, hex_coord(cells[j as int]))) by {
                                        assert((#[trigger] nbr(kc, d as int)) == hex_coord(
                                        cells[j as int],
                                        ));
                                    }
                                    lemma_reachable_step(
                                        cells,
                                        n,
                                        player,
                                        mo,
                                        sc,
                                        kc,
                                        hex_coord(cells[j as int]),
                                    );
                                    assert forall|kk: int|
                                        0 <= kk < cells.len() && visited@[kk]
                                            && !queue@.contains(kk as usize) && kk
                                            != k as int implies #[trigger] closed_at(
                                        cells,
                                        n,
                                        player,
                                        mo,
                                        visited@,
                                        kk,
                                    ) by {
                                        assert(queue@[queue@.len() - 1] == j);
                                        assert(queue@.contains(j));
                                        if kk == j as int {
                                            assert(kk as usize == j);
                                            assert(false);
                                        }
                                        assert(vis1[kk]);
                                        if q1.contains(kk as usize) {
                                            let t = choose|t: int|
                                                0 <= t < q1.len() && q1[t] == kk as usize;
                                            assert(queue@[t] == kk as usize);
                                            assert(queue@.contains(kk as usize));
                                            assert(false);
                                        }
                                        assert(closed_at(cells, n, player, mo, vis1, kk));
                                        lemma_closed_monotone(
                                            cells,
                                            n,
                                            player,
                                            mo,
                                            vis1,
                                            visited@,
                                            kk,
                                        );
                                    }
                                    assert forall|dd: int| 0 <= dd < d + 1 implies #[trigger] nbr_ok(
                                        cells,
                                        n,
                                        player,
                                        mo,
                                        visited@,
                                        kc,
                                        dd,
                                    ) by {
                                        if dd < d {
                                            assert(nbr_ok(cells, n, player, mo, vis1, kc, dd));
                                        } else {
                                            assert(nbr(kc, dd) == (nq as int, nr as int));
                                            assert(visited@[j as int]);
                                        }
                                    }
                                }
                            } else {
                                proof {
                                    assert(nbr_ok(cells, n, player, mo, visited@, kc, d as int))
                                        by {
                                        assert(nbr(kc, d as int) == (nq as int, nr as int));
                                        assert(idx_in(cells, (nq as int, nr as int)) == j as int);
                                    }
                                }
                            }
                        },
                        None => {
                            proof {
                                lemma_pass_has_cell(cells, n, player, mo, (nq as int, nr as int));
                                assert(false);
                            }
                        },
                    }
                } else {
                    proof {
                        assert(nbr_ok(cells, n, player, mo, visited@, kc, d as int)) by {
                            assert(nbr(kc, d as int) == (nq as int, nr as int));
                        }
                    }
                }
                d += 1;
            }
            proof {
                assert(closed_at(cells, n, player, mo, visited@, k as int));
            }
        }

        proof {
            let vs = visited_set(cells, visited@);
            assert(region_closed(cells, n, player, mo, vs)) by {
                assert forall|p: (int, int), d: int|
                    vs.contains(p) && 0 <= d < 6 && pass_cell(
                        cells,
                        n,
                        player,
                        mo,
                        #[trigger] nbr(p, d),
                    ) implies vs.contains(nbr(p, d)) by {
                    let k = idx_in(cells, p);
                    assert(hex_coord(cells[k]) == p);
                    assert(closed_at(cells, n, player, mo, visited@, k));
                    assert(nbr_ok(cells, n, player, mo, visited@, p, d));
                }
            }
            assert(vs.contains(sc)) by {
                lemma_idx_unique(cells, n, start as int, sc);
            }
            assert forall|p: (int, int)|
                #[trigger] reachable(cells, n, player, mo, sc, p) implies has_cell_in(cells, p)
                && visited@[idx_in(cells, p)] by {
                let path = choose|path: Seq<(int, int)>|
                    #[trigger] connects(cells, n, player, mo, path, sc, p);
                lemma_path_in_closed(cells, n, player, mo, vs, path);
                assert(vs.contains(path[path.len() - 1]));
            }
        }
        visited
    }

    /// The six neighbour coordinates of `(q, r)`, in a fixed order.
    fn get_neighbours(&self, q: i32, r: i32) -> (res: Vec<(i32, i32)>)
        requires
            -1000000 <= q <= 1000000,
            -1000000 <= r <= 1000000,
        ensures
            res@.len() == 6,
            forall|d: int| 0 <= d < 6 ==> pt(#[trigger] res@[d]) == nbr((q as int, r as int), d),
    {
        let mut res: Vec<(i32, i32)> = Vec::new();
        res.push((q + 1, r));
        res.push((q - 1, r));
        res.push((q, r + 1));
        res.push((q, r - 1));
        res.push((q + 1, r - 1));
        res.push((q - 1, r + 1));
        res
    }
}

/// Whether the traversal may stand on `(q, r)`; see [`pass_cell`].
fn pass_exec(board: &BoardState, player: Player, mo: bool, q: i32, r: i32) -> (res: bool)
    requires
        board.wf(),
        -1000000 <= q <= 1000000,
        -1000000 <= r <= 1000000,
    ensures
        res == pass_cell(board.cells@, board.max_qr(), player, mo, (q as int, r as int)),
{
    let owner = board.get_owner(q, r);
    let tag = HexOwner::from_player(player);
    if mo {
        owner == tag
    } else {
        let n = board.board_size as i32 - 1;
        let s = -q - r;
        -n <= q && q <= n && -n <= r && r <= n && -n <= s && s <= n && owner != tag
    }
}

/// Stateless win analysis over one board snapshot. It holds its own
/// copy of the board, the six precomputed corner coordinates, and the
/// precomputed list of side cells.
pub struct WinDetector {
    pub board: BoardState,
    pub corners: Vec<(i32, i32)>,
    pub edges: Vec<(i32, i32)>,
}

impl WinDetector {
    /// The detector's invariant: a well-formed board, the six corner
    /// coordinates of its radius, and the duplicate-free, complete list
    /// of its side cells.
    pub open spec fn wf(self) -> bool {
        &&& self.board.wf()
        &&& self.corners@.len() == 6
        &&& forall|t: int|
            0 <= t < 6 ==> pt(#[trigger] self.corners@[t]) == corner_seq(self.board.max_qr())[t]
        &&& forall|t: int|
            0 <= t < self.edges@.len() ==> in_lattice(pt(#[trigger] self.edges@[t]), self.board.max_qr())
                && (side_of(pt(self.edges@[t]), self.board.max_qr()) is Some)
        &&& forall|p: (int, int)|
            in_lattice(p, self.board.max_qr()) && (#[trigger] side_of(p, self.board.max_qr()))
                is Some ==> exists|t: int| 0 <= t < self.edges@.len() && pt(#[trigger] self.edges@[t]) == p
        &&& forall|t1: int, t2: int|
            0 <= t1 < t2 < self.edges@.len() ==> pt(self.edges@[t1]) != pt(self.edges@[t2])
    }
}

/// A coordinate is a corner exactly when it occurs in the corner list.
proof fn lemma_is_corner_iff(p: (int, int), n: int)
    ensures
        is_corner(p, n) <==> exists|t: int| 0 <= t < 6 && corner_seq(n)[t] == p,
{
    if is_corner(p, n) {
        if p == (-n, 0int) {
            assert(corner_seq(n)[0] == p);
        } else if p == (-n, n) {
            assert(corner_seq(n)[1] == p);
        } else if p == (0int, -n) {
            assert(corner_seq(n)[2] == p);
        } else if p == (0int, n) {
            assert(corner_seq(n)[3] == p);
        } else if p == (n, -n) {
            assert(corner_seq(n)[4] == p);
        } else {
            assert(corner_seq(n)[5] == p);
        }
    }
    if exists|t: int| 0 <= t < 6 && corner_seq(n)[t] == p {
        let t = choose|t: int| 0 <= t < 6 && corner_seq(n)[t] == p;
        if t == 0 {
            assert(p == (-n, 0int));
        } else if t == 1 {
            assert(p == (-n, n));
        } else if t == 2 {
            assert(p == (0int, -n));
        } else if t == 3 {
            assert(p == (0int, n));
        } else if t == 4 {
            assert(p == (n, -n));
        } else {
            assert(p == (n, 0int));
        }
    }
}

/// Whether the coordinate list holds `(q, r)`.
fn contains_coord(v: &Vec<(i32, i32)>, q: i32, r: i32) -> (res: bool)
    ensures
        res == exists|t: int| 0 <= t < v@.len() && pt(#[trigger] v@[t]) == (q as int, r as int),
{
    let len = v.len();
    let mut i: usize = 0;
    while i < len
        invariant
            i <= len,
            forall|t: int| 0 <= t < i ==> pt(#[trigger] v@[t]) != (q as int, r as int),
        decreases len - i,
    {
        if v[i].0 == q && v[i].1 == r {
            proof {
                assert(pt(v@[i as int]) == (q as int, r as int));
            }
            return true;
        }
        i += 1;
    }
    false
}

/// Whether the side list holds `s`.
fn contains_u8(v: &Vec<u8>, s: u8) -> (res: bool)
    ensures
        res == v@.contains(s),
{
    let len = v.len();
    let mut i: usize = 0;
    while i < len
        invariant
            i <= len,
            forall|t: int| 0 <= t < i ==> v@[t] != s,
        decreases len - i,
    {
        if v[i] == s {
            return true;
        }
        i += 1;
    }
    false
}

impl WinDetector {
    /// The six corner coordinates of a board of the given radius.
    fn initialize_corners(board_size: i8) -> (res: Vec<(i32, i32)>)
        requires
            1 <= board_size,
        ensures
            res@.len() == 6,
            forall|t: int|
                0 <= t < 6 ==> pt(#[trigger] res@[t]) == corner_seq(board_size as int - 1)[t],
    {
        let m: i32 = board_size as i32 - 1;
        let mut v: Vec<(i32, i32)> = Vec::new();
        v.push((-m, 0));
        v.push((-m, m));
        v.push((0, -m));
        v.push((0, m));
        v.push((m, -m));
        v.push((m, 0));
        proof {
            assert forall|t: int| 0 <= t < 6 implies pt(#[trigger] v@[t]) == corner_seq(
                board_size as int - 1,
            )[t] by {
                if t == 0 {
                } else if t == 1 {
                } else if t == 2 {
                } else if t == 3 {
                } else if t == 4 {
                } else {
                }
            }
        }
        v
    }

    /// The side cells of a board of the given radius: every boundary
    /// cell that is not a corner, each exactly once.
    fn initialize_edges(board_size: i8) -> (res: Vec<(i32, i32)>)
        requires
            1 <= board_size,
        ensures
            forall|t: int|
                0 <= t < res@.len() ==> in_lattice(pt(#[trigger] res@[t]), board_size as int - 1)
                    && (side_of(pt(res@[t]), board_size as int - 1) is Some),
            forall|p: (int, int)|
                in_lattice(p, board_size as int - 1) && (#[trigger] side_of(
                    p,
                    board_size as int - 1,
                )) is Some ==> exists|t: int| 0 <= t < res@.len() && pt(#[trigger] res@[t]) == p,
            forall|t1: int, t2: int| 0 <= t1 < t2 < res@.len() ==> pt(res@[t1]) != pt(res@[t2]),
    {
        let ghost n = board_size as int - 1;
        let m: i32 = board_size as i32 - 1;
        let mut edges: Vec<(i32, i32)> = Vec::new();
        let mut q: i32 = -m;
        while q <= m
            invariant
                -m <= q <= m + 1,
                forall|t: int|
                    0 <= t < edges@.len() ==> in_lattice(pt(#[trigger] edges@[t]), n) && (side_of(
                        pt(edges@[t]),
                        n,
                    ) is Some),
                forall|t: int|
                    0 <= t < edges@.len() ==> (#[trigger] edges@[t]).0 < q,
                forall|t1: int, t2: int|
                    0 <= t1 < t2 < edges@.len() ==> (edges@[t1].0 < edges@[t2].0 || (edges@[t1].0
                        == edges@[t2].0 && edges@[t1].1 < edges@[t2].1)),
                forall|p: (int, int)|
                    in_lattice(p, n) && (#[trigger] side_of(p, n)) is Some && p.0 < q
                        ==> exists|t: int| 0 <= t < edges@.len() && pt(#[trigger] edges@[t]) == p,
            decreases m + 1 - q,
        {
            let mut r: i32 = -m;
            while r <= m
                invariant
                    -m <= q <= m,
                    -m <= r <= m + 1,
                    forall|t: int|
                        0 <= t < edges@.len() ==> in_lattice(pt(#[trigger] edges@[t]), n) && (
                        side_of(pt(edges@[t]), n) is Some),
                    forall|t: int|
                        0 <= t < edges@.len() ==> ((#[trigger] edges@[t]).0 < q || (edges@[t].0 == q
                            && edges@[t].1 < r)),
                    forall|t1: int, t2: int|
                        0 <= t1 < t2 < edges@.len() ==> (edges@[t1].0 < edges@[t2].0 || (
                        edges@[t1].0 == edges@[t2].0 && edges@[t1].1 < edges@[t2].1)),
                    forall|p: (int, int)|
                        in_lattice(p, n) && (#[trigger] side_of(p, n)) is Some && (p.0 < q || (p.0
                            == q && p.1 < r)) ==> exists|t: int|
                            0 <= t < edges@.len() && pt(#[trigger] edges@[t]) == p,
                decreases m + 1 - r,
            {
                let s = -q - r;
                let in_lat = -m <= s && s <= m;
                let corner = (q == -m && r == 0) || (q == -m && r == m) || (q == 0 && r == -m) || (
                q == 0 && r == m) || (q == m && r == -m) || (q == m && r == 0);
                let boundary = q == -m || q == m || r == -m || r == m || s == -m || s == m;
                let ghost edges0 = edges@;
                if in_lat && !corner && boundary {
                    edges.push((q, r));
                }
                proof {
                    assert(corner == is_corner((q as int, r as int), n));
                    assert((in_lat && !corner && boundary) == (in_lattice((q as int, r as int), n)
                        && (side_of((q as int, r as int), n) is Some)));
                    assert forall|p: (int, int)|
                        in_lattice(p, n) && (#[trigger] side_of(p, n)) is Some && (p.0 < q || (p.0
                            == q && p.1 < r + 1)) implies exists|t: int|
                        0 <= t < edges@.len() && pt(#[trigger] edges@[t]) == p by {
                        if p.0 == q as int && p.1 == r as int {
                            assert(pt(edges@[edges@.len() - 1]) == p);
                        } else {
                            let t = choose|t: int|
                                0 <= t < edges0.len() && pt(#[trigger] edges0[t]) == p;
                            assert(pt(edges@[t]) == p);
                        }
                    }
                }
                r += 1;
            }
            q += 1;
        }
        edges
    }

    /// Builds a detector for one board snapshot, precomputing the six
    /// corner coordinates and the side cells from the radius.
    pub fn from_board(board: &BoardState) -> (res: WinDetector)
        requires
            board.wf(),
        ensures
            res.wf(),
            res.board.cells@ == board.cells@,
            res.board.board_size == board.board_size,
            res.board.turn == board.turn,
    {
        let corners = Self::initialize_corners(board.board_size);
        let edges = Self::initialize_edges(board.board_size);
        WinDetector { board: board.duplicate(), corners, edges }
    }

    /// Whether `(q, r)` is one of the six corner cells.
    fn is_corner(&self, q: i32, r: i32) -> (res: bool)
        requires
            self.wf(),
        ensures
            res == is_corner((q as int, r as int), self.board.max_qr()),
    {
        proof {
            lemma_is_corner_iff((q as int, r as int), self.board.max_qr());
        }
        let mut t: usize = 0;
        while t < 6
            invariant
                t <= 6,
                forall|tt: int| 0 <= tt < t ==> pt(#[trigger] self.corners@[tt]) != (q as int, r as int),
            decreases 6 - t,
        {
            let c = self.corners[t];
            if c.0 == q && c.1 == r {
                proof {
                    assert(corner_seq(self.board.max_qr())[t as int] == (q as int, r as int));
                }
                return true;
            }
            t += 1;
        }
        proof {
            if is_corner((q as int, r as int), self.board.max_qr()) {
                let t = choose|t: int|
                    0 <= t < 6 && corner_seq(self.board.max_qr())[t] == (q as int, r as int);
                assert(pt(self.corners@[t]) == (q as int, r as int));
            }
        }
        false
    }

    /// Which side, if any, the cell `(q, r)` lies on; corners lie on
    /// none.
    fn edge_side(&self, q: i32, r: i32) -> (res: Option<u8>)
        requires
            self.wf(),
            -1000000 <= q <= 1000000,
            -1000000 <= r <= 1000000,
        ensures
            res == side_of((q as int, r as int), self.board.max_qr()),
    {
        if self.is_corner(q, r) {
            return None;
        }
        let n = self.board.board_size as i32 - 1;
        let s = -q - r;
        if q == -n {
            Some(0)
        } else if r == -n {
            Some(1)
        } else if s == -n {
            Some(2)
        } else if q == n {
            Some(3)
        } else if r == n {
            Some(4)
        } else if s == n {
            Some(5)
        } else {
            None
        }
    }

    /// Whether `(q, r)` is a side cell (a boundary cell that is not a
    /// corner).
    pub fn is_edge(&self, q: i32, r: i32) -> (res: bool)
        requires
            self.wf(),
            -1000000 <= q <= 1000000,
            -1000000 <= r <= 1000000,
        ensures
            res == (side_of((q as int, r as int), self.board.max_qr()) is Some),
    {
        self.edge_side(q, r).is_some()
    }

    /// Whether `(q, r)` lies on the outer boundary of the lattice.
    fn is_on_board_boundary(&self, q: i32, r: i32) -> (res: bool)
        requires
            self.wf(),
            -1000000 <= q <= 1000000,
            -1000000 <= r <= 1000000,
        ensures
            res == on_boundary((q as int, r as int), self.board.max_qr()),
    {
        let n = self.board.board_size as i32 - 1;
        let s = -q - r;
        q == -n || q == n || r == -n || r == n || s == -n || s == n
    }

    /// The owner at `(q, r)`, with coordinates outside the lattice
    /// reading as empty, so that probing just past the edge is safe.
    pub fn get_hex_owner(&self, q: i32, r: i32) -> (res: HexOwner)
        requires
            self.wf(),
        ensures
            res == owner_in(self.board.cells@, (q as int, r as int)),
    {
        self.board.get_owner(q, r)
    }

    /// Explores the connected group of the player's stones seeded at
    /// cell index `start` and reports the distinct corners and the
    /// distinct sides the group touches.
    #[verifier::rlimit(100)]
    fn find_connection(&self, start: usize, player: Player) -> (res: (Vec<(i32, i32)>, Vec<u8>))
        requires
            self.wf(),
            start < self.board.cells@.len(),
            self.board.cells@[start as int].owner == tag_of(player),
        ensures
            ({
                let cells = self.board.cells@;
                let n = self.board.max_qr();
                let sc = hex_coord(cells[start as int]);
                &&& forall|t: int|
                    0 <= t < res.0@.len() ==> is_corner(pt(#[trigger] res.0@[t]), n) && reachable(
                        cells,
                        n,
                        player,
                        true,
                        sc,
                        pt(res.0@[t]),
                    )
                &&& forall|t1: int, t2: int|
                    0 <= t1 < t2 < res.0@.len() ==> pt(res.0@[t1]) != pt(res.0@[t2])
                &&& forall|p: (int, int)|
                    is_corner(p, n) && #[trigger] reachable(cells, n, player, true, sc, p)
                        ==> exists|t: int| 0 <= t < res.0@.len() && pt(#[trigger] res.0@[t]) == p
                &&& forall|t: int|
                    0 <= t < res.1@.len() ==> touches_side(cells, n, player, sc, #[trigger] res.1@[t])
                &&& forall|t1: int, t2: int|
                    0 <= t1 < t2 < res.1@.len() ==> res.1@[t1] != res.1@[t2]
                &&& forall|s: u8| #[trigger] touches_side(cells, n, player, sc, s) ==> res.1@.contains(s)
            }),
    {
        let ghost cells = self.board.cells@;
        let ghost n = self.board.max_qr();
        let ghost sc = hex_coord(cells[start as int]);
        proof {
            lemma_idx_unique(cells, n, start as int, sc);
        }
        let visited = self.bfs_region(start, player, true);
        let n_cells = self.board.cells.len();
        let mut corners: Vec<(i32, i32)> = Vec::new();
        let mut sides: Vec<u8> = Vec::new();
        let mut i: usize = 0;
        while i < n_cells
            invariant
                i <= n_cells,
                n_cells == cells.len(),
                visited@.len() == cells.len(),
                forall|t: int|
                    0 <= t < corners@.len() ==> is_corner(pt(#[trigger] corners@[t]), n)
                        && reachable(cells, n, player, true, sc, pt(corners@[t])),
                forall|t1: int, t2: int|
                    0 <= t1 < t2 < corners@.len() ==> pt(corners@[t1]) != pt(corners@[t2]),
                forall|j: int|
                    0 <= j < i && visited@[j] && is_corner(hex_coord(#[trigger] cells[j]), n)
                        ==> exists|t: int|
                        0 <= t < corners@.len() && pt(#[trigger] corners@[t]) == hex_coord(cells[j]),
                forall|t: int|
                    0 <= t < sides@.len() ==> touches_side(cells, n, player, sc, #[trigger] sides@[t]),
                forall|t1: int, t2: int| 0 <= t1 < t2 < sides@.len() ==> sides@[t1] != sides@[t2],
                forall|j: int|
                    0 <= j < i && visited@[j] ==> ((#[trigger] side_of(
                        hex_coord(cells[j]),
                        n,
                    )) matches Some(s) ==> sides@.contains(s)),
            decreases n_cells - i,
        {
            if visited[i] {
                let h = self.board.cells[i];
                proof {
                    assert(-127 <= h.q <= 127 && -127 <= h.r <= 127);
                    assert(hex_coord(cells[i as int]) == (h.q as int, h.r as int));
                }
                let ghost corners0 = corners@;
                if self.is_corner(h.q, h.r) {
                    if !contains_coord(&corners, h.q, h.r) {
                        corners.push((h.q, h.r));
                        proof {
                            assert forall|t1: int, t2: int|
                                0 <= t1 < t2 < corners@.len() implies pt(corners@[t1]) != pt(
                                corners@[t2],
                            ) by {
                                if t2 < corners@.len() - 1 {
                                    assert(pt(corners0[t1]) != pt(corners0[t2]));
                                } else {
                                    assert(pt(corners@[t1]) == pt(corners0[t1]));
                                    assert(pt(corners0[t1]) != (h.q as int, h.r as int));
                                }
                            }
                            assert forall|j: int|
                                0 <= j < i + 1 && visited@[j] && is_corner(
                                    hex_coord(#[trigger] cells[j]),
                                    n,
                                ) implies exists|t: int|
                                0 <= t < corners@.len() && pt(#[trigger] corners@[t]) == hex_coord(
                                cells[j],
                            ) by {
                                if j < i {
                                    let t = choose|t: int|
                                        0 <= t < corners0.len() && pt(#[trigger] corners0[t])
                                            == hex_coord(cells[j]);
                                    assert(pt(corners@[t]) == hex_coord(cells[j]));
                                } else {
                                    assert(pt(corners@[corners@.len() - 1]) == hex_coord(cells[j]));
                                }
                            }
                        }
                    } else {
                        proof {
                            assert(exists|t: int|
                                0 <= t < corners@.len() && pt(#[trigger] corners@[t]) == hex_coord(
                                cells[i as int],
                            ));
                        }
                    }
                }
                let ghost sides0 = sides@;
                match self.edge_side(h.q, h.r) {
                    Some(s) => {
                        if !contains_u8(&sides, s) {
                            sides.push(s);
                            proof {
                                assert(touches_side(cells, n, player, sc, s)) by {
                                    assert(reachable(cells, n, player, true, sc, hex_coord(
                                    cells[i as int],
                                    )));
                                }
                                assert forall|j: int|
                                    0 <= j < i + 1 && visited@[j] implies ((#[trigger] side_of(
                                    hex_coord(cells[j]),
                                    n,
                                )) matches Some(ss) ==> sides@.contains(ss)) by {
                                    if side_of(hex_coord(cells[j]), n) is Some {
                                        let ss = side_of(hex_coord(cells[j]), n)->Some_0;
                                        if j < i {
                                            assert(sides0.contains(ss));
                                            let t = choose|t: int|
                                                0 <= t < sides0.len() && sides0[t] == ss;
                                            assert(sides@[t] == ss);
                                            assert(sides@.contains(ss));
                                        } else {
                                            assert(sides@[sides@.len() - 1] == ss);
                                            assert(sides@.contains(ss));
                                        }
                                    }
                                }
                            }
                        } else {
                            proof {
                                assert(sides@.contains(s));
                            }
                        }
                    },
                    None => {},
                }
            }
            i += 1;
        }
        let res_pair = (corners, sides);
        proof {
            assert forall|p: (int, int)|
                is_corner(p, n) && #[trigger] reachable(cells, n, player, true, sc, p) implies exists|
                t: int,
            | 0 <= t < res_pair.0@.len() && pt(#[trigger] res_pair.0@[t]) == p by {
                let j = idx_in(cells, p);
                assert(visited@[j] && hex_coord(cells[j]) == p);
                assert(is_corner(hex_coord(cells[j]), n));
                let t = choose|t: int|
                    0 <= t < res_pair.0@.len() && pt(#[trigger] res_pair.0@[t]) == hex_coord(
                    cells[j],
                );
                assert(pt(res_pair.0@[t]) == p);
            }
            assert forall|s: u8| #[trigger] touches_side(cells, n, player, sc, s) implies
                res_pair.1@.contains(s) by {
                let y = choose|y: (int, int)|
                    #[trigger] reachable(cells, n, player, true, sc, y) && side_of(y, n)
                        == Option::Some(s);
                let j = idx_in(cells, y);
                assert(visited@[j] && hex_coord(cells[j]) == y);
                assert(side_of(hex_coord(cells[j]), n) == Option::Some(s));
            }
        }
        res_pair
    }

    /// Bridge check: does some connected group of the player's stones
    /// touch two distinct corners?
    fn check_bridge(&self, player: Player) -> (res: bool)
        requires
            self.wf(),
        ensures
            res == bridge_win(self.board.cells@, self.board.max_qr(), player),
    {
        let ghost cells = self.board.cells@;
        let ghost n = self.board.max_qr();
        let n_cells = self.board.cells.len();
        let tag = HexOwner::from_player(player);
        let mut i: usize = 0;
        while i < n_cells
            invariant
                i <= n_cells,
                n_cells == cells.len(),
                forall|j: int|
                    0 <= j < i && (#[trigger] cells[j]).owner == tag_of(player)
                        ==> !two_corners_from(cells, n, player, hex_coord(cells[j])),
            decreases n_cells - i,
        {
            let h = self.board.cells[i];
            if h.owner == tag {
                let ghost sc = hex_coord(cells[i as int]);
                let (corners, _sides) = self.find_connection(i, player);
                if corners.len() >= 2 {
                    proof {
                        let c1 = pt(corners@[0]);
                        let c2 = pt(corners@[1]);
                        assert(c1 != c2);
                        assert(reachable(cells, n, player, true, sc, c1));
                        assert(reachable(cells, n, player, true, sc, c2));
                        assert(two_corners_from(cells, n, player, sc));
                        lemma_idx_unique(cells, n, i as int, sc);
                        assert(owner_in(cells, sc) == tag_of(player));
                        assert(bridge_win(cells, n, player));
                    }
                    return true;
                }
                proof {
                    if two_corners_from(cells, n, player, sc) {
                        let (c1, c2) = choose|c1: (int, int), c2: (int, int)|
                            #![trigger reachable(cells, n, player, true, sc, c1), reachable(cells, n, player, true, sc, c2)]
                            c1 != c2 && is_corner(c1, n) && is_corner(c2, n) && reachable(
                                cells,
                                n,
                                player,
                                true,
                                sc,
                                c1,
                            ) && reachable(cells, n, player, true, sc, c2);
                        let t1 = choose|t: int|
                            0 <= t < corners@.len() && pt(#[trigger] corners@[t]) == c1;
                        let t2 = choose|t: int|
                            0 <= t < corners@.len() && pt(#[trigger] corners@[t]) == c2;
                        assert(t1 != t2);
                        assert(false);
                    }
                }
            }
            i += 1;
        }
        proof {
            if bridge_win(cells, n, player) {
                let x = choose|x: (int, int)|
                    owner_in(cells, x) == tag_of(player) && #[trigger] two_corners_from(
                        cells,
                        n,
                        player,
                        x,
                    );
                assert(has_cell_in(cells, x));
                let j = idx_in(cells, x);
                assert(hex_coord(cells[j]) == x && cells[j].owner == tag_of(player));
                assert(false);
            }
        }
        false
    }

    /// Fork check: does some connected group of the player's stones
    /// touch three distinct sides?
    fn check_fork(&self, player: Player) -> (res: bool)
        requires
            self.wf(),
        ensures
            res == fork_win(self.board.cells@, self.board.max_qr(), player),
    {
        let ghost cells = self.board.cells@;
        let ghost n = self.board.max_qr();
        let n_cells = self.board.cells.len();
        let tag = HexOwner::from_player(player);
        let mut i: usize = 0;
        while i < n_cells
            invariant
                i <= n_cells,
                n_cells == cells.len(),
                forall|j: int|
                    0 <= j < i && (#[trigger] cells[j]).owner == tag_of(player)
                        ==> !three_sides_from(cells, n, player, hex_coord(cells[j])),
            decreases n_cells - i,
        {
            let h = self.board.cells[i];
            if h.owner == tag {
                let ghost sc = hex_coord(cells[i as int]);
                let (_corners, sides) = self.find_connection(i, player);
                if sides.len() >= 3 {
                    proof {
                        let s1 = sides@[0];
                        let s2 = sides@[1];
                        let s3 = sides@[2];
                        assert(s1 != s2 && s1 != s3 && s2 != s3);
                        assert(touches_side(cells, n, player, sc, s1));
                        assert(touches_side(cells, n, player, sc, s2));
                        assert(touches_side(cells, n, player, sc, s3));
                        assert(three_sides_from(cells, n, player, sc));
                        lemma_idx_unique(cells, n, i as int, sc);
                        assert(fork_win(cells, n, player));
                    }
                    return true;
                }
                proof {
                    if three_sides_from(cells, n, player, sc) {
                        let (s1, s2, s3) = choose|s1: u8, s2: u8, s3: u8|
                            #![trigger touches_side(cells, n, player, sc, s1), touches_side(cells, n, player, sc, s2), touches_side(cells, n, player, sc, s3)]
                            s1 != s2 && s1 != s3 && s2 != s3 && touches_side(cells, n, player, sc, s1)
                                && touches_side(cells, n, player, sc, s2) && touches_side(
                                cells,
                                n,
                                player,
                                sc,
                                s3,
                            );
                        assert(sides@.contains(s1));
                        assert(sides@.contains(s2));
                        assert(sides@.contains(s3));
                        let t1 = choose|t: int| 0 <= t < sides@.len() && sides@[t] == s1;
                        let t2 = choose|t: int| 0 <= t < sides@.len() && sides@[t] == s2;
                        let t3 = choose|t: int| 0 <= t < sides@.len() && sides@[t] == s3;
                        assert(t1 != t2 && t1 != t3 && t2 != t3);
                        assert(false);
                    }
                }
            }
            i += 1;
        }
        proof {
            if fork_win(cells, n, player) {
                let x = choose|x: (int, int)|
                    owner_in(cells, x) == tag_of(player) && #[trigger] three_sides_from(
                        cells,
                        n,
                        player,
                        x,
                    );
                assert(has_cell_in(cells, x));
                let j = idx_in(cells, x);
                assert(hex_coord(cells[j]) == x && cells[j].owner == tag_of(player));
                assert(false);
            }
        }
        false
    }

    /// Whether the region of non-player cells seeded at `(start_q,
    /// start_r)` can reach the board boundary.
    fn can_empty_cell_escape(&self, start_q: i32, start_r: i32, player: &Player) -> (res: bool)
        requires
            self.wf(),
            in_lattice((start_q as int, start_r as int), self.board.max_qr()),
            owner_in(self.board.cells@, (start_q as int, start_r as int)) != tag_of(*player),
        ensures
            res == escapes(
                self.board.cells@,
                self.board.max_qr(),
                *player,
                (start_q as int, start_r as int),
            ),
    {
        let ghost cells = self.board.cells@;
        let ghost n = self.board.max_qr();
        let ghost sc = (start_q as int, start_r as int);
        let k = match self.board.find_cell(start_q, start_r) {
            Some(k) => k,
            None => {
                proof {
                    assert(false);
                }
                0
            },
        };
        proof {
            assert(hex_coord(cells[k as int]) == sc);
        }
        let visited = self.bfs_region(k, *player, false);
        let n_cells = self.board.cells.len();
        let mut j: usize = 0;
        while j < n_cells
            invariant
                j <= n_cells,
                n_cells == cells.len(),
                visited@.len() == cells.len(),
                forall|jj: int|
                    0 <= jj < j && visited@[jj] ==> !on_boundary(hex_coord(#[trigger] cells[jj]), n),
            decreases n_cells - j,
        {
            if visited[j] {
                let h = self.board.cells[j];
                proof {
                    assert(-127 <= h.q <= 127 && -127 <= h.r <= 127);
                }
                if self.is_on_board_boundary(h.q, h.r) {
                    proof {
                        assert(reachable(cells, n, *player, false, sc, hex_coord(cells[j as int])));
                        assert(escapes(cells, n, *player, sc));
                    }
                    return true;
                }
            }
            j += 1;
        }
        proof {
            if escapes(cells, n, *player, sc) {
                let y = choose|y: (int, int)|
                    #[trigger] reachable(cells, n, *player, false, sc, y) && on_boundary(y, n);
                let jj = idx_in(cells, y);
                assert(visited@[jj] && hex_coord(cells[jj]) == y);
                assert(false);
            }
        }
        false
    }

    /// Ring check: is some lattice cell not owned by the player unable
    /// to reach the boundary through non-player cells?
    pub fn check_ring(&self, player: &Player) -> (res: bool)
        requires
            self.wf(),
        ensures
            res == ring_win(self.board.cells@, self.board.max_qr(), *player),
    {
        let ghost cells = self.board.cells@;
        let ghost n = self.board.max_qr();
        let n_cells = self.board.cells.len();
        let tag = HexOwner::from_player(*player);
        let mut i: usize = 0;
        while i < n_cells
            invariant
                i <= n_cells,
                n_cells == cells.len(),
                forall|j: int|
                    0 <= j < i && (#[trigger] cells[j]).owner != tag_of(*player) ==> escapes(
                        cells,
                        n,
                        *player,
                        hex_coord(cells[j]),
                    ),
            decreases n_cells - i,
        {
            let h = self.board.cells[i];
            proof {
                lemma_idx_unique(cells, n, i as int, hex_coord(cells[i as int]));
            }
            if h.owner != tag {
                if !self.can_empty_cell_escape(h.q, h.r, player) {
                    proof {
                        assert(in_lattice(hex_coord(cells[i as int]), n));
                        assert(owner_in(cells, hex_coord(cells[i as int])) != tag_of(*player));
                        assert(ring_win(cells, n, *player));
                    }
                    return true;
                }
            }
            i += 1;
        }
        proof {
            if ring_win(cells, n, *player) {
                let c = choose|c: (int, int)|
                    in_lattice(c, n) && owner_in(cells, c) != tag_of(*player) && !(
                    #[trigger] escapes(cells, n, *player, c));
                assert(has_cell_in(cells, c));
                let j = idx_in(cells, c);
                assert(hex_coord(cells[j]) == c && cells[j].owner != tag_of(*player));
                assert(false);
            }
        }
        false
    }

    /// Whether the player has won on this snapshot, by bridge, fork or
    /// ring.
    pub fn run(&self, player: &Player) -> (res: bool)
        requires
            self.wf(),
        ensures
            res == has_win(self.board.cells@, self.board.max_qr(), *player),
    {
        self.check_bridge(*player) || self.check_fork(*player) || self.check_ring(player)
    }
}

} // verus!
