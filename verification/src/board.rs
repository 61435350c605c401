//! The board model: a hexagonal lattice of cells addressed by axial
//! coordinates, cell ownership, turn state, and move legality.
//!
//! The lattice of radius `R` holds every `(q, r)` with
//! `|q| <= R - 1`, `|r| <= R - 1` and `|s| <= R - 1` where `s = -q - r`.
//! Cells are stored in one growable vector in a fixed enumeration
//! order; the well-formedness predicate [`cells_wf`] says that the
//! stored coordinates are exactly that lattice, each appearing once.

use vstd::prelude::*;

use crate::win_detector::{has_win, WinDetector};

verus! {

/// Who owns a cell: one of the two players, or nobody yet.
#[derive(Debug, PartialEq, Eq, Structural, Clone, Copy)]
pub enum HexOwner {
    P1,
    P2,
    Empty,
}

/// One of the two players. Maps to an owner tag, never to `Empty`.
#[derive(Debug, PartialEq, Eq, Structural, Clone, Copy)]
pub enum Player {
    P1,
    P2,
}

/// Why a move was rejected.
#[derive(Debug, PartialEq, Eq, Structural, Clone, Copy)]
pub enum MoveError {
    /// The coordinate exceeds the board's axial range.
    OutOfBounds,
    /// The coordinate is absent from the generated lattice.
    InvalidCell,
    /// The target cell is already owned.
    CellOccupied,
}

/// A single cell: its axial coordinate and its owner.
#[derive(Debug, PartialEq, Eq, Structural, Clone, Copy)]
pub struct Hex {
    pub q: i32,
    pub r: i32,
    pub owner: HexOwner,
}

/// The owner tag a player's stones carry.
pub open spec fn tag_of(player: Player) -> HexOwner {
    match player {
        Player::P1 => HexOwner::P1,
        Player::P2 => HexOwner::P2,
    }
}

/// The player whose turn comes after `player`'s.
pub open spec fn flip(player: Player) -> Player {
    match player {
        Player::P1 => Player::P2,
        Player::P2 => Player::P1,
    }
}

/// The coordinate pair of a cell, as mathematical integers.
pub open spec fn hex_coord(h: Hex) -> (int, int) {
    (h.q as int, h.r as int)
}

/// Membership in the hex lattice with extremal coordinate value `n`
/// (`n` is radius minus one): all three axial coordinates lie in `[-n, n]`.
pub open spec fn in_lattice(p: (int, int), n: int) -> bool {
    &&& -n <= p.0 <= n
    &&& -n <= p.1 <= n
    &&& -n <= -p.0 - p.1 <= n
}

/// The axial-range check used for move validation: only `q` and `r`
/// are bounded, the implicit coordinate is not consulted.
pub open spec fn in_bounds(p: (int, int), n: int) -> bool {
    &&& -n <= p.0 <= n
    &&& -n <= p.1 <= n
}

/// Some stored cell carries coordinate `p`.
pub open spec fn has_cell_in(cells: Seq<Hex>, p: (int, int)) -> bool {
    exists|i: int| 0 <= i < cells.len() && hex_coord(#[trigger] cells[i]) == p
}

/// The index of the cell carrying coordinate `p` (meaningful when
/// `has_cell_in` holds and the coordinates are duplicate-free).
pub open spec fn idx_in(cells: Seq<Hex>, p: (int, int)) -> int {
    choose|i: int| 0 <= i < cells.len() && hex_coord(#[trigger] cells[i]) == p
}

/// The owner recorded at coordinate `p`; coordinates outside the
/// stored lattice read as `Empty`, so boundary probing never fails.
pub open spec fn owner_in(cells: Seq<Hex>, p: (int, int)) -> HexOwner {
    if has_cell_in(cells, p) {
        cells[idx_in(cells, p)].owner
    } else {
        HexOwner::Empty
    }
}

/// The stored cells are exactly the lattice with extremal value `n`:
/// every stored coordinate is in the lattice, every lattice coordinate
/// is stored, and no coordinate is stored twice.
pub open spec fn cells_wf(cells: Seq<Hex>, n: int) -> bool {
    &&& forall|i: int| 0 <= i < cells.len() ==> in_lattice(hex_coord(#[trigger] cells[i]), n)
    &&& forall|p: (int, int)| in_lattice(p, n) ==> #[trigger] has_cell_in(cells, p)
    &&& forall|i: int, j: int|
        0 <= i < j < cells.len() ==> hex_coord(cells[i]) != hex_coord(cells[j])
}

/// The number of empty cells among `cells`, and their coordinates in
/// enumeration order.
pub open spec fn empty_moves(cells: Seq<Hex>) -> Seq<(i32, i32)>
    decreases cells.len(),
{
    if cells.len() == 0 {
        Seq::empty()
    } else {
        empty_moves(cells.drop_last())
            + (if cells.last().owner == HexOwner::Empty {
                seq![(cells.last().q, cells.last().r)]
            } else {
                Seq::<(i32, i32)>::empty()
            })
    }
}

/// The game board: the lattice cells, the radius, and whose turn it is.
#[derive(Debug)]
pub struct BoardState {
    pub cells: Vec<Hex>,
    pub board_size: i8,
    pub turn: Player,
}

impl BoardState {
    /// Extremal axial coordinate value: radius minus one.
    pub open spec fn max_qr(self) -> int {
        self.board_size as int - 1
    }

    /// The board's invariant: a positive radius and a duplicate-free,
    /// complete lattice enumeration.
    pub open spec fn wf(self) -> bool {
        &&& 1 <= self.board_size
        &&& cells_wf(self.cells@, self.max_qr())
    }

    pub open spec fn has_cell(self, p: (int, int)) -> bool {
        has_cell_in(self.cells@, p)
    }

    pub open spec fn owner_of(self, p: (int, int)) -> HexOwner {
        owner_in(self.cells@, p)
    }
}

/// The first legal row coordinate of column `q`: `max(-m, -q - m)`.
pub open spec fn row_lo(q: int, m: int) -> int {
    if -q - m > -m {
        -q - m
    } else {
        -m
    }
}

/// The last legal row coordinate of column `q`: `min(m, m - q)`.
pub open spec fn row_hi(q: int, m: int) -> int {
    if m - q < m {
        m - q
    } else {
        m
    }
}

/// How many lattice cells column `q` holds.
pub open spec fn row_len(q: int, m: int) -> int {
    row_hi(q, m) - row_lo(q, m) + 1
}

/// How many lattice cells lie in columns strictly left of `q`.
pub open spec fn col_prefix(q: int, m: int) -> int
    decreases q + m,
{
    if q <= -m {
        0
    } else {
        col_prefix(q - 1, m) + row_len(q - 1, m)
    }
}

/// Twice the closed form of `col_prefix` (doubled to stay free of
/// division).
pub open spec fn col_prefix_closed2(q: int, m: int) -> int {
    if q <= 0 {
        2 * (q + m) * (2 * m + 1) + (q + m) * (q - 1 - m)
    } else {
        2 * m * (2 * m + 1) + m * (-1 - m) + 2 * q * (2 * m + 1) - q * (q - 1)
    }
}

proof fn lemma_col_prefix_closed(q: int, m: int)
    requires
        0 <= m,
        -m <= q <= m + 1,
    ensures
        2 * col_prefix(q, m) == col_prefix_closed2(q, m),
    decreases q + m,
{
    if q <= -m {
        assert(q + m == 0);
        assert(2 * (q + m) * (2 * m + 1) + (q + m) * (q - 1 - m) == 0) by (nonlinear_arith)
            requires q + m == 0;
        assert(col_prefix_closed2(q, m) == 0);
    } else {
        lemma_col_prefix_closed(q - 1, m);
        if q <= 0 {
            assert(col_prefix_closed2(q, m) == col_prefix_closed2(q - 1, m) + 2 * (2 * m + q))
                by (nonlinear_arith)
                requires -m < q <= 0;
            assert(row_len(q - 1, m) == 2 * m + q);
        } else if q == 1 {
            assert(col_prefix_closed2(1, m) == col_prefix_closed2(0, m) + 2 * (2 * m + 1))
                by (nonlinear_arith);
            assert(row_len(0, m) == 2 * m + 1);
        } else {
            assert(col_prefix_closed2(q, m) == col_prefix_closed2(q - 1, m) + 2 * (2 * m + 2
                - q)) by (nonlinear_arith)
                requires 2 <= q;
            assert(row_len(q - 1, m) == 2 * m + 2 - q);
        }
    }
}

/// A successful move from board `pre` to board `post` at coordinate `m`:
/// the target was an empty lattice cell, it now carries the mover's tag,
/// every other cell is unchanged, and the turn has passed to the other
/// player.
pub open spec fn apply_ok(pre: BoardState, m: (int, int), post: BoardState) -> bool {
    &&& pre.wf()
    &&& post.wf()
    &&& post.board_size == pre.board_size
    &&& in_lattice(m, pre.max_qr())
    &&& pre.owner_of(m) == HexOwner::Empty
    &&& post.turn == flip(pre.turn)
    &&& forall|p: (int, int)|
        #[trigger] post.owner_of(p) == if p == m {
            tag_of(pre.turn)
        } else {
            pre.owner_of(p)
        }
}

impl HexOwner {
    /// The owner tag of a player's stones.
    pub fn from_player(player: Player) -> (res: HexOwner)
        ensures
            res == tag_of(player),
    {
        match player {
            Player::P1 => HexOwner::P1,
            Player::P2 => HexOwner::P2,
        }
    }
}

impl BoardState {
    /// Builds the full lattice of radius `board_size`, every cell
    /// empty, with Player 1 to move. The lattice of radius `R` holds
    /// exactly `3R^2 - 3R + 1` cells.
    pub fn new(board_size: i8) -> (res: BoardState)
        requires
            1 <= board_size,
        ensures
            res.wf(),
            res.board_size == board_size,
            res.turn == Player::P1,
            forall|i: int| 0 <= i < res.cells@.len() ==> res.cells@[i].owner == HexOwner::Empty,
            forall|p: (int, int)|
                in_lattice(p, board_size - 1) ==> #[trigger] res.owner_of(p) == HexOwner::Empty,
            res.cells@.len() == 3 * (board_size as int) * (board_size as int) - 3 * (
            board_size as int) + 1,
            empty_moves(res.cells@).len() == res.cells@.len(),
    {
        let m: i32 = board_size as i32 - 1;
        let mut cells: Vec<Hex> = Vec::new();
        let mut q: i32 = -m;
        while q <= m
            invariant
                -m <= q <= m + 1,
                cells@.len() == col_prefix(q as int, m as int),
                forall|i: int|
                    0 <= i < cells@.len() ==> in_lattice(hex_coord(#[trigger] cells@[i]), m as int)
                        && cells@[i].owner == HexOwner::Empty,
                forall|i: int, j: int|
                    0 <= i < j < cells@.len() ==> (cells@[i].q < cells@[j].q || (cells@[i].q
                        == cells@[j].q && cells@[i].r < cells@[j].r)),
                forall|i: int| 0 <= i < cells@.len() ==> (#[trigger] cells@[i]).q < q,
                forall|p: (int, int)|
                    in_lattice(p, m as int) && p.0 < q ==> #[trigger] has_cell_in(cells@, p),
            decreases m + 1 - q,
        {
            let r_lo: i32 = if -q - m > -m {
                -q - m
            } else {
                -m
            };
            let r_hi: i32 = if m - q < m {
                m - q
            } else {
                m
            };
            let mut r: i32 = r_lo;
            while r <= r_hi
                invariant
                    r_lo <= r <= r_hi + 1,
                    r_lo == row_lo(q as int, m as int),
                    r_hi == row_hi(q as int, m as int),
                    -m <= q <= m,
                    cells@.len() == col_prefix(q as int, m as int) + (r - r_lo),
                    forall|i: int|
                        0 <= i < cells@.len() ==> in_lattice(
                            hex_coord(#[trigger] cells@[i]),
                            m as int,
                        ) && cells@[i].owner == HexOwner::Empty,
                    forall|i: int, j: int|
                        0 <= i < j < cells@.len() ==> (cells@[i].q < cells@[j].q || (cells@[i].q
                            == cells@[j].q && cells@[i].r < cells@[j].r)),
                    forall|i: int|
                        0 <= i < cells@.len() ==> ((#[trigger] cells@[i]).q < q || (cells@[i].q == q
                            && cells@[i].r < r)),
                    forall|p: (int, int)|
                        in_lattice(p, m as int) && (p.0 < q || (p.0 == q && p.1 < r))
                            ==> #[trigger] has_cell_in(cells@, p),
                decreases r_hi + 1 - r,
            {
                let ghost prev = cells@;
                cells.push(Hex { q, r, owner: HexOwner::Empty });
                proof {
                    assert forall|p: (int, int)|
                        in_lattice(p, m as int) && (p.0 < q || (p.0 == q && p.1 < r
                            + 1)) implies #[trigger] has_cell_in(cells@, p) by {
                        if p == (q as int, r as int) {
                            assert(hex_coord(cells@[prev.len() as int]) == p);
                        } else {
                            assert(has_cell_in(prev, p));
                            let w = choose|i: int|
                                0 <= i < prev.len() && hex_coord(#[trigger] prev[i]) == p;
                            assert(hex_coord(cells@[w]) == p);
                        }
                    }
                }
                r += 1;
            }
            proof {
                assert(col_prefix(q as int + 1, m as int) == col_prefix(q as int, m as int)
                    + row_len(q as int, m as int));
                assert forall|p: (int, int)|
                    in_lattice(p, m as int) && p.0 < q + 1 implies #[trigger] has_cell_in(
                    cells@,
                    p,
                ) by {
                    if p.0 == q as int {
                        assert(row_lo(q as int, m as int) <= p.1 <= row_hi(q as int, m as int));
                    }
                }
            }
            q += 1;
        }
        proof {
            lemma_col_prefix_closed(m as int + 1, m as int);
            let mm = m as int;
            assert(col_prefix_closed2(mm + 1, mm) == 2 * mm * (2 * mm + 1) + mm * (-1 - mm) + 2 * (
            mm + 1) * (2 * mm + 1) - (mm + 1) * (mm + 1 - 1));
            assert(2 * mm * (2 * mm + 1) + mm * (-1 - mm) + 2 * (mm + 1) * (2 * mm + 1) - (mm + 1)
                * (mm + 1 - 1) == 2 * (3 * mm * mm + 3 * mm + 1)) by (nonlinear_arith);
            assert(3 * (m as int) * (m as int) + 3 * (m as int) + 1 == 3 * (board_size as int) * (
            board_size as int) - 3 * (board_size as int) + 1) by (nonlinear_arith)
                requires m as int == board_size as int - 1;
        }
        let res = BoardState { cells, board_size, turn: Player::P1 };
        proof {
            lemma_empty_moves_all_empty(res.cells@);
            assert forall|p: (int, int)|
                in_lattice(p, board_size - 1) implies #[trigger] res.owner_of(p)
                == HexOwner::Empty by {
                assert(has_cell_in(res.cells@, p));
                let w = idx_in(res.cells@, p);
                assert(0 <= w < res.cells@.len());
            }
        }
        res
    }

    /// True iff both axial coordinates lie within the board's range.
    /// The implicit coordinate `s` is not consulted here: this is the
    /// coarse range check, not lattice membership.
    pub fn is_hex_in_bounds(&self, q: i32, r: i32) -> (res: bool)
        requires
            1 <= self.board_size,
        ensures
            res == in_bounds((q as int, r as int), self.max_qr()),
    {
        let max_qr: i32 = self.board_size as i32 - 1;
        -max_qr <= q && q <= max_qr && -max_qr <= r && r <= max_qr
    }

    /// Looks up the stored cell with coordinate `(q, r)`, if any.
    pub fn find_cell(&self, q: i32, r: i32) -> (res: Option<usize>)
        requires
            self.wf(),
        ensures
            match res {
                Some(i) => i < self.cells@.len() && self.cells@[i as int].q == q
                    && self.cells@[i as int].r == r && self.has_cell((q as int, r as int))
                    && idx_in(self.cells@, (q as int, r as int)) == i,
                None => !self.has_cell((q as int, r as int)),
            },
    {
        let n = self.cells.len();
        let mut i: usize = 0;
        while i < n
            invariant
                i <= n,
                forall|j: int| 0 <= j < i ==> hex_coord(self.cells@[j]) != (q as int, r as int),
            decreases n - i,
        {
            if self.cells[i].q == q && self.cells[i].r == r {
                proof {
                    assert(hex_coord(self.cells@[i as int]) == (q as int, r as int));
                    let w = idx_in(self.cells@, (q as int, r as int));
                    assert(0 <= w < self.cells@.len() && hex_coord(self.cells@[w]) == (
                    q as int,
                    r as int,
                    ));
                    if w != i {
                        assert(hex_coord(self.cells@[w]) != (q as int, r as int));
                    }
                }
                return Some(i);
            }
            i += 1;
        }
        None
    }

    /// The owner recorded at `(q, r)`; `Empty` when the coordinate is
    /// not part of the lattice. This is the public read-only cell
    /// lookup that rendering is built on.
    pub fn get_owner(&self, q: i32, r: i32) -> (res: HexOwner)
        requires
            self.wf(),
        ensures
            res == self.owner_of((q as int, r as int)),
    {
        match self.find_cell(q, r) {
            Some(i) => self.cells[i].owner,
            None => HexOwner::Empty,
        }
    }

    /// An independent copy of the board with the same cell ownership
    /// and turn, so that hypothetical continuations can be explored
    /// without touching the original.
    pub fn duplicate(&self) -> (res: BoardState)
        ensures
            res.cells@ == self.cells@,
            res.board_size == self.board_size,
            res.turn == self.turn,
            res.wf() == self.wf(),
    {
        let n = self.cells.len();
        let mut cells: Vec<Hex> = Vec::new();
        let mut i: usize = 0;
        while i < n
            invariant
                i <= n,
                cells@.len() == i as int,
                forall|j: int| 0 <= j < i ==> cells@[j] == self.cells@[j],
            decreases n - i,
        {
            cells.push(self.cells[i]);
            i += 1;
        }
        proof {
            assert(cells@ =~= self.cells@);
        }
        BoardState { cells, board_size: self.board_size, turn: self.turn }
    }

    /// The coordinates of all currently empty cells, in lattice
    /// enumeration order.
    pub fn legal_moves(&self) -> (res: Vec<(i32, i32)>)
        ensures
            res@ == empty_moves(self.cells@),
    {
        let n = self.cells.len();
        let mut moves: Vec<(i32, i32)> = Vec::new();
        let mut i: usize = 0;
        while i < n
            invariant
                i <= n,
                moves@ == empty_moves(self.cells@.take(i as int)),
            decreases n - i,
        {
            let h = self.cells[i];
            proof {
                assert(self.cells@.take(i as int + 1).drop_last() =~= self.cells@.take(i as int));
                assert(self.cells@.take(i as int + 1).last() == self.cells@[i as int]);
            }
            if h.owner == HexOwner::Empty {
                moves.push((h.q, h.r));
                proof {
                    assert(moves@ =~= empty_moves(self.cells@.take(i as int)) + seq![(h.q, h.r)]);
                }
            } else {
                proof {
                    assert(moves@ =~= empty_moves(self.cells@.take(i as int))
                        + Seq::<(i32, i32)>::empty());
                }
            }
            i += 1;
        }
        proof {
            assert(self.cells@.take(n as int) =~= self.cells@);
        }
        moves
    }

    /// True iff the win detector reports a win for either player on the
    /// current snapshot.
    pub fn is_terminal(&self) -> (res: bool)
        requires
            self.wf(),
        ensures
            res == (has_win(self.cells@, self.max_qr(), Player::P1) || has_win(
                self.cells@,
                self.max_qr(),
                Player::P2,
            )),
    {
        let detector = WinDetector::from_board(self);
        detector.run(&Player::P1) || detector.run(&Player::P2)
    }

    /// The winner, if any; when both win predicates hold at once,
    /// Player 1 takes priority.
    pub fn get_winner(&self) -> (res: Option<Player>)
        requires
            self.wf(),
        ensures
            res == if has_win(self.cells@, self.max_qr(), Player::P1) {
                Some(Player::P1)
            } else if has_win(self.cells@, self.max_qr(), Player::P2) {
                Some(Player::P2)
            } else {
                Option::<Player>::None
            },
    {
        let detector = WinDetector::from_board(self);
        if detector.run(&Player::P1) {
            Some(Player::P1)
        } else if detector.run(&Player::P2) {
            Some(Player::P2)
        } else {
            None
        }
    }

    /// Validates and applies a move for the player to move: rejects a
    /// coordinate outside the axial range, one absent from the lattice,
    /// or an occupied cell, in that order of checks; on success marks
    /// the cell with the mover's tag and passes the turn. A rejected
    /// move leaves the board exactly as it was.
    pub fn apply_move(&mut self, mv: (i32, i32)) -> (res: Result<(i32, i32), MoveError>)
        requires
            old(self).wf(),
        ensures
            final(self).wf(),
            final(self).board_size == old(self).board_size,
            match res {
                Ok(m) => m == mv && apply_ok(
                    *old(self),
                    (mv.0 as int, mv.1 as int),
                    *final(self),
                ) && empty_moves(final(self).cells@).len() == empty_moves(old(self).cells@).len()
                    - 1 && final(self).cells@ == old(self).cells@.update(
                    idx_in(old(self).cells@, (mv.0 as int, mv.1 as int)),
                    Hex { q: mv.0, r: mv.1, owner: tag_of(old(self).turn) },
                ),
                Err(MoveError::OutOfBounds) => !in_bounds(
                    (mv.0 as int, mv.1 as int),
                    old(self).max_qr(),
                ) && *final(self) == *old(self),
                Err(MoveError::InvalidCell) => in_bounds((mv.0 as int, mv.1 as int), old(self).max_qr())
                    && !old(self).has_cell((mv.0 as int, mv.1 as int)) && *final(self) == *old(self),
                Err(MoveError::CellOccupied) => old(self).has_cell((mv.0 as int, mv.1 as int))
                    && old(self).owner_of((mv.0 as int, mv.1 as int)) != HexOwner::Empty && *final(
                self) == *old(self),
            },
    {
        let (q, r) = mv;
        if !self.is_hex_in_bounds(q, r) {
            return Err(MoveError::OutOfBounds);
        }
        match self.find_cell(q, r) {
            None => Err(MoveError::InvalidCell),
            Some(i) => {
                if self.cells[i].owner != HexOwner::Empty {
                    return Err(MoveError::CellOccupied);
                }
                let tag = HexOwner::from_player(self.turn);
                self.cells[i] = Hex { q, r, owner: tag };
                self.next_turn();
                proof {
                    lemma_idx_unique(
                        old(self).cells@,
                        old(self).max_qr(),
                        i as int,
                        (q as int, r as int),
                    );
                    self.lemma_overwrite_ok(*old(self), i as int, (q as int, r as int));
                    lemma_empty_moves_update(
                        old(self).cells@,
                        i as int,
                        Hex { q, r, owner: tag_of(old(self).turn) },
                    );
                    assert(self.cells@ =~= old(self).cells@.update(
                        i as int,
                        Hex { q, r, owner: tag_of(old(self).turn) },
                    ));
                }
                Ok((q, r))
            },
        }
    }

    /// Marks cell `(q, r)` with the tag of the player to move, whether
    /// or not it was empty, and passes the turn.
    pub fn make_move(&mut self, q: i32, r: i32)
        requires
            old(self).wf(),
            in_lattice((q as int, r as int), old(self).max_qr()),
        ensures
            final(self).wf(),
            final(self).board_size == old(self).board_size,
            final(self).turn == flip(old(self).turn),
            forall|p: (int, int)|
                #[trigger] final(self).owner_of(p) == if p == (q as int, r as int) {
                    tag_of(old(self).turn)
                } else {
                    old(self).owner_of(p)
                },
    {
        match self.find_cell(q, r) {
            None => {
                proof {
                    assert(false);
                }
            },
            Some(i) => {
                let tag = HexOwner::from_player(self.turn);
                self.cells[i] = Hex { q, r, owner: tag };
                self.next_turn();
                proof {
                    self.lemma_overwrite_ok(*old(self), i as int, (q as int, r as int));
                }
            },
        }
    }

    /// After overwriting the cell at index `i` (same coordinate `mv`,
    /// new owner) and flipping the turn, the board is still well formed
    /// and the owner map has changed at `mv` alone.
    proof fn lemma_overwrite_ok(self, pre: BoardState, i: int, mv: (int, int))
        requires
            pre.wf(),
            0 <= i < pre.cells@.len(),
            hex_coord(pre.cells@[i]) == mv,
            self.board_size == pre.board_size,
            self.cells@.len() == pre.cells@.len(),
            hex_coord(self.cells@[i]) == mv,
            forall|j: int| 0 <= j < pre.cells@.len() && j != i ==> self.cells@[j] == pre.cells@[j],
        ensures
            self.wf(),
            forall|p: (int, int)|
                #[trigger] self.owner_of(p) == if p == mv {
                    self.cells@[i].owner
                } else {
                    pre.owner_of(p)
                },
    {
        assert forall|j: int| 0 <= j < self.cells@.len() implies in_lattice(
            hex_coord(#[trigger] self.cells@[j]),
            self.max_qr(),
        ) by {
            assert(hex_coord(self.cells@[j]) == hex_coord(pre.cells@[j]));
        }
        assert forall|j: int, k: int| 0 <= j < k < self.cells@.len() implies hex_coord(
            self.cells@[j],
        ) != hex_coord(self.cells@[k]) by {
            assert(hex_coord(self.cells@[j]) == hex_coord(pre.cells@[j]));
            assert(hex_coord(self.cells@[k]) == hex_coord(pre.cells@[k]));
        }
        assert forall|p: (int, int)| in_lattice(p, self.max_qr()) implies #[trigger] has_cell_in(
            self.cells@,
            p,
        ) by {
            assert(has_cell_in(pre.cells@, p));
            let w = choose|j: int| 0 <= j < pre.cells@.len() && hex_coord(#[trigger] pre.cells@[j]) == p;
            assert(hex_coord(self.cells@[w]) == p);
        }
        assert forall|p: (int, int)| true implies #[trigger] self.owner_of(p) == (if p == mv {
            self.cells@[i].owner
        } else {
            pre.owner_of(p)
        }) by {
            if p == mv {
                lemma_idx_unique(self.cells@, self.max_qr(), i, p);
            } else {
                if has_cell_in(pre.cells@, p) {
                    let w = choose|j: int|
                        0 <= j < pre.cells@.len() && hex_coord(#[trigger] pre.cells@[j]) == p;
                    lemma_idx_unique(pre.cells@, pre.max_qr(), w, p);
                    assert(w != i);
                    assert(hex_coord(self.cells@[w]) == p);
                    lemma_idx_unique(self.cells@, self.max_qr(), w, p);
                } else {
                    if has_cell_in(self.cells@, p) {
                        let w = choose|j: int|
                            0 <= j < self.cells@.len() && hex_coord(#[trigger] self.cells@[j]) == p;
                        assert(w != i);
                        assert(hex_coord(pre.cells@[w]) == p);
                        assert(false);
                    }
                }
            }
        }
    }

    fn next_turn(&mut self)
        ensures
            final(self).turn == flip(old(self).turn),
            final(self).cells@ == old(self).cells@,
            final(self).board_size == old(self).board_size,
    {
        self.turn = match self.turn {
            Player::P1 => Player::P2,
            Player::P2 => Player::P1,
        };
    }
}

/// Every entry of the empty-move list is the coordinate of some stored
/// empty cell.
pub proof fn lemma_empty_moves_index(cells: Seq<Hex>, k: int)
    requires
        0 <= k < empty_moves(cells).len(),
    ensures
        exists|i: int|
            0 <= i < cells.len() && (#[trigger] cells[i]).owner == HexOwner::Empty && cells[i].q
                == empty_moves(cells)[k].0 && cells[i].r == empty_moves(cells)[k].1,
    decreases cells.len(),
{
    if k < empty_moves(cells.drop_last()).len() {
        lemma_empty_moves_index(cells.drop_last(), k);
        let i = choose|i: int|
            0 <= i < cells.drop_last().len() && (#[trigger] cells.drop_last()[i]).owner
                == HexOwner::Empty && cells.drop_last()[i].q == empty_moves(cells.drop_last())[k].0
                && cells.drop_last()[i].r == empty_moves(cells.drop_last())[k].1;
        assert(cells[i] == cells.drop_last()[i]);
    } else {
        assert(cells.last().owner == HexOwner::Empty);
        assert(cells[cells.len() - 1].owner == HexOwner::Empty);
    }
}

/// On a board whose cells are all empty, every cell is a legal move.
pub proof fn lemma_empty_moves_all_empty(cells: Seq<Hex>)
    requires
        forall|i: int| 0 <= i < cells.len() ==> (#[trigger] cells[i]).owner == HexOwner::Empty,
    ensures
        empty_moves(cells).len() == cells.len(),
    decreases cells.len(),
{
    if cells.len() > 0 {
        assert forall|i: int|
            0 <= i < cells.drop_last().len() implies (#[trigger] cells.drop_last()[i]).owner
            == HexOwner::Empty by {
            assert(cells.drop_last()[i] == cells[i]);
        }
        lemma_empty_moves_all_empty(cells.drop_last());
        assert(cells.last().owner == HexOwner::Empty);
    }
}

/// Overwriting one empty cell with an owned one shortens the
/// empty-move list by exactly one entry.
pub proof fn lemma_empty_moves_update(cells: Seq<Hex>, i: int, h: Hex)
    requires
        0 <= i < cells.len(),
        cells[i].owner == HexOwner::Empty,
        h.owner != HexOwner::Empty,
    ensures
        empty_moves(cells.update(i, h)).len() == empty_moves(cells).len() - 1,
    decreases cells.len(),
{
    let upd = cells.update(i, h);
    if i == cells.len() - 1 {
        assert(upd.drop_last() =~= cells.drop_last());
        assert(upd.last() == h);
    } else {
        assert(upd.drop_last() =~= cells.drop_last().update(i, h));
        assert(upd.last() == cells.last());
        lemma_empty_moves_update(cells.drop_last(), i, h);
    }
}

/// Turn alternation: a run of `N` successful moves from a position
/// where Player 1 is to move leaves Player 1 to move exactly when `N`
/// is even.
pub proof fn lemma_turn_alternation(boards: Seq<BoardState>, moves: Seq<(int, int)>)
    requires
        boards.len() == moves.len() + 1,
        boards[0].turn == Player::P1,
        forall|i: int|
            0 <= i < moves.len() ==> apply_ok(#[trigger] boards[i], moves[i], boards[i + 1]),
    ensures
        boards[boards.len() - 1].turn == if moves.len() % 2 == 0 {
            Player::P1
        } else {
            Player::P2
        },
    decreases moves.len(),
{
    if moves.len() > 0 {
        let n = moves.len() as int;
        assert forall|i: int| 0 <= i < n - 1 implies apply_ok(
            #[trigger] boards.drop_last()[i],
            moves.drop_last()[i],
            boards.drop_last()[i + 1],
        ) by {
            assert(apply_ok(boards[i], moves[i], boards[i + 1]));
        }
        lemma_turn_alternation(boards.drop_last(), moves.drop_last());
        assert(apply_ok(boards[n - 1], moves[n - 1], boards[n]));
        assert(boards.drop_last()[n - 1] == boards[n - 1]);
    }
}

/// If some stored cell at index `i` carries coordinate `p` and the
/// coordinates are duplicate-free, then `i` is the unique index chosen
/// by `idx_in`.
pub proof fn lemma_idx_unique(cells: Seq<Hex>, n: int, i: int, p: (int, int))
    requires
        cells_wf(cells, n),
        0 <= i < cells.len(),
        hex_coord(cells[i]) == p,
    ensures
        has_cell_in(cells, p),
        idx_in(cells, p) == i,
{
    assert(has_cell_in(cells, p));
    let w = idx_in(cells, p);
    assert(0 <= w < cells.len() && hex_coord(cells[w]) == p);
    if w != i {
        assert(hex_coord(cells[i]) != hex_coord(cells[w]));
    }
}

} // verus!
