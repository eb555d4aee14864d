//! The board engine: grid, turn state, legality queries, placements,
//! scoring, and game-end detection.
//!
//! The board is a square grid of side `size`, stored row-major in a flat
//! vector; cell `(i, j)` lives at index `i * size + j`.  The mathematical
//! model speaks of the grid as a `Seq<Option<Turn>>` together with the side
//! length.

use vstd::prelude::*;

verus! {

/// The two players.  `Black` (the dark side) moves first.
#[derive(Clone, Copy, PartialEq, Eq, Structural, Debug)]
pub enum Turn {
    Black,
    White,
}

/// The recoverable failures of the engine.
#[derive(Clone, Copy, PartialEq, Eq, Structural, Debug)]
pub enum BoardError {
    /// A row or column outside `[0, size)`.
    InvalidCoordinate,
    /// A placement on an occupied cell or on a cell that captures nothing.
    IllegalMove,
    /// The advisor was asked for a move when no legal move exists.
    NoLegalMove,
    /// A board size that is odd or below the minimum of 4.
    InvalidConfiguration,
}

/// The opponent of `p`.
pub open spec fn other(p: Turn) -> Turn {
    match p {
        Turn::Black => Turn::White,
        Turn::White => Turn::Black,
    }
}

/// `(i, j)` names a cell of an `n` by `n` grid.
pub open spec fn in_bounds(n: int, i: int, j: int) -> bool {
    0 <= i < n && 0 <= j < n
}

/// The cell `(i, j)` of a flat row-major grid of side `n`.
pub open spec fn at(b: Seq<Option<Turn>>, n: int, i: int, j: int) -> Option<Turn> {
    b[i * n + j]
}

/// A compass step: each coordinate moves by -1, 0 or +1, not both by 0.
pub open spec fn valid_dir(di: int, dj: int) -> bool {
    -1 <= di <= 1 && -1 <= dj <= 1 && !(di == 0 && dj == 0)
}

/// How many steps remain from coordinate `x` to the edge when moving by `d`.
pub open spec fn edge_dist(x: int, d: int, n: int) -> int {
    if d == 1 {
        n - 1 - x
    } else if d == -1 {
        x
    } else {
        0
    }
}

/// A termination measure for walks from `(i, j)` in direction `(di, dj)`:
/// it shrinks by at least one per step and is non-negative in bounds.
pub open spec fn ray_measure(n: int, i: int, j: int, di: int, dj: int) -> int {
    edge_dist(i, di, n) + edge_dist(j, dj, n)
}

/// The length of the contiguous run of opponent pieces that starts one step
/// from `(i, j)` in direction `(di, dj)`, walking for the player `p`.
pub open spec fn run_len(
    b: Seq<Option<Turn>>,
    n: int,
    i: int,
    j: int,
    di: int,
    dj: int,
    p: Turn,
) -> nat
    decreases ray_measure(n, i, j, di, dj),
{
    if valid_dir(di, dj) && in_bounds(n, i + di, j + dj) && at(b, n, i + di, j + dj) == Some(
        other(p),
    ) {
        1 + run_len(b, n, i + di, j + dj, di, dj, p)
    } else {
        0
    }
}

/// Whether the walk from `(i, j)` in direction `(di, dj)` meets a piece of
/// `p` after zero or more opponent pieces, before any empty cell or edge.
pub open spec fn dir_closed(
    b: Seq<Option<Turn>>,
    n: int,
    i: int,
    j: int,
    di: int,
    dj: int,
    p: Turn,
) -> bool
    decreases ray_measure(n, i, j, di, dj),
{
    if !(valid_dir(di, dj) && in_bounds(n, i + di, j + dj)) {
        false
    } else {
        match at(b, n, i + di, j + dj) {
            None => false,
            Some(q) => q == p || dir_closed(b, n, i + di, j + dj, di, dj, p),
        }
    }
}

/// How many opponent pieces a piece of `p` placed at `(i, j)` would flip in
/// direction `(di, dj)`: the run length when the run is closed by a piece of
/// `p`, and zero otherwise.
pub open spec fn dir_flips(
    b: Seq<Option<Turn>>,
    n: int,
    i: int,
    j: int,
    di: int,
    dj: int,
    p: Turn,
) -> nat {
    if dir_closed(b, n, i, j, di, dj, p) {
        run_len(b, n, i, j, di, dj, p)
    } else {
        0
    }
}

/// How many opponent pieces a piece of `p` placed at `(i, j)` would flip in
/// all eight directions together; zero on an occupied cell.  A cell is a
/// legal move for `p` exactly when this count is positive.
pub open spec fn cell_flips(b: Seq<Option<Turn>>, n: int, i: int, j: int, p: Turn) -> nat {
    if at(b, n, i, j) is Some {
        0
    } else {
        dir_flips(b, n, i, j, -1, -1, p) + dir_flips(b, n, i, j, -1, 0, p) + dir_flips(
            b,
            n,
            i,
            j,
            -1,
            1,
            p,
        ) + dir_flips(b, n, i, j, 0, -1, p) + dir_flips(b, n, i, j, 0, 1, p) + dir_flips(
            b,
            n,
            i,
            j,
            1,
            -1,
            p,
        ) + dir_flips(b, n, i, j, 1, 0, p) + dir_flips(b, n, i, j, 1, 1, p)
    }
}

/// Whether `p` has at least one legal move anywhere on the grid.
pub open spec fn has_legal_move(b: Seq<Option<Turn>>, n: int, p: Turn) -> bool {
    exists|i: int, j: int|
        in_bounds(n, i, j) && #[trigger] cell_flips(b, n, i, j, p) > 0
}

/// The all-empty grid of side `n`.
pub open spec fn empty_grid(n: int) -> Seq<Option<Turn>> {
    Seq::new((n * n) as nat, |k: int| None::<Turn>)
}

/// The standard starting grid of side `n`: the four center cells hold the
/// two alternating diagonal pairs, everything else is empty.  `variant`
/// selects between the two mirror-image layouts; with `variant == false`
/// the main-diagonal center pair belongs to `White`.
pub open spec fn init_grid(n: int, variant: bool) -> Seq<Option<Turn>> {
    let h = n / 2;
    let a = if variant {
        Turn::Black
    } else {
        Turn::White
    };
    let c = other(a);
    empty_grid(n).update((h - 1) * n + (h - 1), Some(a)).update((h - 1) * n + h, Some(c)).update(
        h * n + (h - 1),
        Some(c),
    ).update(h * n + h, Some(a))
}

/// How many cells of `b` hold a piece of `p`.
pub open spec fn count_pieces_of(b: Seq<Option<Turn>>, p: Turn) -> nat
    decreases b.len(),
{
    if b.len() == 0 {
        0
    } else {
        count_pieces_of(b.drop_last(), p) + if b.last() == Some(p) {
            1nat
        } else {
            0nat
        }
    }
}

/// How many cells of `b` are occupied by either player.
pub open spec fn occupied_count(b: Seq<Option<Turn>>) -> nat
    decreases b.len(),
{
    if b.len() == 0 {
        0
    } else {
        occupied_count(b.drop_last()) + if b.last() is Some {
            1nat
        } else {
            0nat
        }
    }
}

/// The per-cell capture counts for player `p`, as an `n` by `n` matrix.
pub open spec fn legal_matrix(b: Seq<Option<Turn>>, n: int, p: Turn) -> Seq<Seq<nat>> {
    Seq::new(n as nat, |i: int| Seq::new(n as nat, |j: int| cell_flips(b, n, i, j, p)))
}

/// The view of an executable capture-count matrix.
pub open spec fn matrix_view(r: Seq<Vec<usize>>) -> Seq<Seq<nat>> {
    r.map(|i: int, row: Vec<usize>| row@.map(|j: int, v: usize| v as nat))
}

/// The grid after `p` places at the empty cell `(i, j)`: the placed piece
/// appears, and every closed run of opponent pieces around it flips to `p`.
/// Each direction flips exactly the `dir_flips` of the grid as it stood
/// before the placement.
pub open spec fn after_place(b: Seq<Option<Turn>>, n: int, i: int, j: int, p: Turn) -> Seq<
    Option<Turn>,
> {
    let b0 = b.update(i * n + j, Some(p));
    let b1 = flip_ray(b0, n, i, j, -1, -1, p, dir_flips(b, n, i, j, -1, -1, p) as int);
    let b2 = flip_ray(b1, n, i, j, -1, 0, p, dir_flips(b, n, i, j, -1, 0, p) as int);
    let b3 = flip_ray(b2, n, i, j, -1, 1, p, dir_flips(b, n, i, j, -1, 1, p) as int);
    let b4 = flip_ray(b3, n, i, j, 0, -1, p, dir_flips(b, n, i, j, 0, -1, p) as int);
    let b5 = flip_ray(b4, n, i, j, 0, 1, p, dir_flips(b, n, i, j, 0, 1, p) as int);
    let b6 = flip_ray(b5, n, i, j, 1, -1, p, dir_flips(b, n, i, j, 1, -1, p) as int);
    let b7 = flip_ray(b6, n, i, j, 1, 0, p, dir_flips(b, n, i, j, 1, 0, p) as int);
    flip_ray(b7, n, i, j, 1, 1, p, dir_flips(b, n, i, j, 1, 1, p) as int)
}

/// Flip the `k` cells that follow `(i, j)` in direction `(di, dj)` to `p`.
pub open spec fn flip_ray(
    b: Seq<Option<Turn>>,
    n: int,
    i: int,
    j: int,
    di: int,
    dj: int,
    p: Turn,
    k: int,
) -> Seq<Option<Turn>>
    decreases k,
{
    if k <= 0 {
        b
    } else {
        flip_ray(b.update((i + di) * n + (j + dj), Some(p)), n, i + di, j + dj, di, dj, p, k - 1)
    }
}

/// The player to move after `p` has placed and the grid became `b`: the
/// opponent if the opponent has a legal move, else `p` (an implicit pass).
pub open spec fn next_turn(b: Seq<Option<Turn>>, n: int, p: Turn) -> Turn {
    if has_legal_move(b, n, other(p)) {
        other(p)
    } else {
        p
    }
}

/// Whether the game is over once `p` has placed and the grid became `b`:
/// neither player has any legal move left.
pub open spec fn game_over(b: Seq<Option<Turn>>, n: int, p: Turn) -> bool {
    !has_legal_move(b, n, other(p)) && !has_legal_move(b, n, p)
}

/// The side length may not exceed this bound, so that the cell count and
/// all index arithmetic fit comfortably in `usize` on any machine.
pub const MAX_SIZE: usize = 46340;

/// The authoritative game state: the grid, the active player, and whether
/// the game has ended.
#[derive(Debug)]
pub struct BoardState {
    /// The side length of the square grid.
    pub size: usize,
    /// The grid, row-major: cell `(i, j)` is `cells[i * size + j]`.
    pub cells: Vec<Option<Turn>>,
    /// The player whose move is expected next.
    pub turn: Turn,
    /// Whether neither player has a legal move any more.
    pub finished: bool,
}

impl BoardState {
    /// The side length as a mathematical integer.
    pub open spec fn n(self) -> int {
        self.size as int
    }

    /// The grid as a sequence.
    pub open spec fn grid(self) -> Seq<Option<Turn>> {
        self.cells@
    }

    /// Well-formedness: an even side of at least 4, within the machine
    /// bound, and a grid vector of exactly `size * size` cells.
    pub open spec fn wf(self) -> bool {
        &&& 4 <= self.size
        &&& self.size % 2 == 0
        &&& self.size <= MAX_SIZE
        &&& self.cells@.len() == self.size * self.size
    }

    /// Create a fresh game: the standard four-center-cell layout selected
    /// by `variant`, with `Black` to move.  Sizes that are odd or below 4
    /// are rejected with `InvalidConfiguration`.
    pub fn new(size: usize, variant: bool) -> (r: Result<BoardState, BoardError>)
        requires
            size <= MAX_SIZE,
        ensures
            match r {
                Ok(b) => {
                    &&& size >= 4 && size % 2 == 0
                    &&& b.wf()
                    &&& b.size == size
                    &&& b.turn == Turn::Black
                    &&& !b.finished
                    &&& b.grid() == init_grid(size as int, variant)
                },
                Err(e) => e == BoardError::InvalidConfiguration && (size < 4 || size % 2 != 0),
            },
    {
        if size < 4 || size % 2 != 0 {
            return Err(BoardError::InvalidConfiguration);
        }
        proof {
            assert(size * size <= 2147395600) by (nonlinear_arith)
                requires
                    size <= 46340,
            ;
        }
        let area = size * size;
        let mut cells: Vec<Option<Turn>> = Vec::new();
        let mut k: usize = 0;
        while k < area
            invariant
                k <= area,
                area == size * size,
                cells@.len() == k,
                forall|m: int| 0 <= m < k ==> cells@[m] is None,
            decreases area - k,
        {
            cells.push(None);
            k += 1;
        }
        proof {
            assert(cells@ =~= empty_grid(size as int));
        }
        let h = size / 2;
        let a = if variant {
            Turn::Black
        } else {
            Turn::White
        };
        let c = if variant {
            Turn::White
        } else {
            Turn::Black
        };
        proof {
            lemma_cell_index(size as int, h - 1, h - 1);
            lemma_cell_index(size as int, h - 1, h as int);
            lemma_cell_index(size as int, h as int, h - 1);
            lemma_cell_index(size as int, h as int, h as int);
        }
        cells[(h - 1) * size + (h - 1)] = Some(a);
        cells[(h - 1) * size + h] = Some(c);
        cells[h * size + (h - 1)] = Some(c);
        cells[h * size + h] = Some(a);
        let b = BoardState { size, cells, turn: Turn::Black, finished: false };
        proof {
            assert(b.grid() =~= init_grid(size as int, variant));
        }
        Ok(b)
    }

    /// The player whose move is expected now.
    pub fn which_turn(&self) -> (r: Turn)
        ensures
            r == self.turn,
    {
        self.turn
    }

    /// The side length of the grid.
    pub fn get_size(&self) -> (r: usize)
        ensures
            r == self.size,
    {
        self.size
    }

    /// Whether the game has ended.
    pub fn is_finished(&self) -> (r: bool)
        ensures
            r == self.finished,
    {
        self.finished
    }

    /// The content of cell `(i, j)`, or `InvalidCoordinate` when the
    /// coordinates lie outside the grid.
    pub fn cell_at(&self, i: usize, j: usize) -> (r: Result<Option<Turn>, BoardError>)
        requires
            self.wf(),
        ensures
            match r {
                Ok(c) => i < self.size && j < self.size && c == at(
                    self.grid(),
                    self.n(),
                    i as int,
                    j as int,
                ),
                Err(e) => e == BoardError::InvalidCoordinate && (i >= self.size || j
                    >= self.size),
            },
    {
        if i >= self.size || j >= self.size {
            return Err(BoardError::InvalidCoordinate);
        }
        proof {
            lemma_cell_index(self.n(), i as int, j as int);
        }
        Ok(self.cells[i * self.size + j])
    }

    /// Count the pieces of each player over the whole grid.  Ties are an
    /// ordinary outcome: the two counts may be equal.
    pub fn count_pieces(&self) -> (r: ((Turn, usize), (Turn, usize)))
        ensures
            r.0.0 == Turn::Black && r.1.0 == Turn::White,
            r.0.1 == count_pieces_of(self.grid(), Turn::Black),
            r.1.1 == count_pieces_of(self.grid(), Turn::White),
    {
        let mut black: usize = 0;
        let mut white: usize = 0;
        let mut k: usize = 0;
        let len = self.cells.len();
        while k < len
            invariant
                k <= len,
                len == self.cells@.len(),
                black == count_pieces_of(self.grid().take(k as int), Turn::Black),
                white == count_pieces_of(self.grid().take(k as int), Turn::White),
                black <= k,
                white <= k,
            decreases len - k,
        {
            proof {
                assert(self.grid().take(k + 1).drop_last() =~= self.grid().take(k as int));
                assert(self.grid().take(k + 1).last() == self.grid()[k as int]);
            }
            match self.cells[k] {
                Some(Turn::Black) => {
                    black += 1;
                },
                Some(Turn::White) => {
                    white += 1;
                },
                None => {},
            }
            k += 1;
        }
        proof {
            assert(self.grid().take(len as int) =~= self.grid());
        }
        ((Turn::Black, black), (Turn::White, white))
    }
}

/// An opponent run is never longer than the walk's distance to the edge.
pub proof fn lemma_run_len_bound(
    b: Seq<Option<Turn>>,
    n: int,
    i: int,
    j: int,
    di: int,
    dj: int,
    p: Turn,
)
    requires
        valid_dir(di, dj),
        in_bounds(n, i, j),
    ensures
        run_len(b, n, i, j, di, dj, p) <= ray_measure(n, i, j, di, dj),
        ray_measure(n, i, j, di, dj) <= 2 * n,
    decreases ray_measure(n, i, j, di, dj),
{
    if in_bounds(n, i + di, j + dj) && at(b, n, i + di, j + dj) == Some(other(p)) {
        lemma_run_len_bound(b, n, i + di, j + dj, di, dj, p);
    }
}

impl BoardState {
    /// Walk from the in-bounds cell `(pi, pj)` in direction `(di, dj)` for
    /// player `p` and report the opponent-run length together with whether
    /// a piece of `p` closes the run.
    fn count_dir(&self, pi: i64, pj: i64, di: i64, dj: i64, p: Turn) -> (r: (usize, bool))
        requires
            self.wf(),
            0 <= pi < self.size,
            0 <= pj < self.size,
            valid_dir(di as int, dj as int),
        ensures
            r.0 == run_len(self.grid(), self.n(), pi as int, pj as int, di as int, dj as int, p),
            r.1 == dir_closed(self.grid(), self.n(), pi as int, pj as int, di as int, dj as int, p),
        decreases ray_measure(self.n(), pi as int, pj as int, di as int, dj as int),
    {
        let n = self.size as i64;
        let ni = pi + di;
        let nj = pj + dj;
        if ni < 0 || ni >= n || nj < 0 || nj >= n {
            return (0, false);
        }
        proof {
            lemma_cell_index(self.n(), ni as int, nj as int);
        }
        let idx: usize = (ni as usize) * self.size + (nj as usize);
        match self.cells[idx] {
            None => (0, false),
            Some(q) => {
                if q == p {
                    (0, true)
                } else {
                    proof {
                        lemma_run_len_bound(
                            self.grid(),
                            self.n(),
                            ni as int,
                            nj as int,
                            di as int,
                            dj as int,
                            p,
                        );
                    }
                    let (run, closed) = self.count_dir(ni, nj, di, dj, p);
                    (run + 1, closed)
                }
            },
        }
    }

    /// How many opponent pieces `p` would flip from `(i, j)` in direction
    /// `(di, dj)`.
    fn flips_dir(&self, i: usize, j: usize, di: i64, dj: i64, p: Turn) -> (r: usize)
        requires
            self.wf(),
            i < self.size,
            j < self.size,
            valid_dir(di as int, dj as int),
        ensures
            r == dir_flips(self.grid(), self.n(), i as int, j as int, di as int, dj as int, p),
            r <= 2 * self.size,
    {
        proof {
            lemma_run_len_bound(
                self.grid(),
                self.n(),
                i as int,
                j as int,
                di as int,
                dj as int,
                p,
            );
        }
        let (run, closed) = self.count_dir(i as i64, j as i64, di, dj, p);
        if closed {
            run
        } else {
            0
        }
    }

    /// How many opponent pieces `p` would flip by placing at `(i, j)`,
    /// summed over all eight directions; zero on an occupied cell.
    fn flips_at(&self, i: usize, j: usize, p: Turn) -> (r: usize)
        requires
            self.wf(),
            i < self.size,
            j < self.size,
        ensures
            r == cell_flips(self.grid(), self.n(), i as int, j as int, p),
            r <= 16 * self.size,
    {
        proof {
            lemma_cell_index(self.n(), i as int, j as int);
        }
        if self.cells[i * self.size + j].is_some() {
            return 0;
        }
        let c0 = self.flips_dir(i, j, -1, -1, p);
        let c1 = self.flips_dir(i, j, -1, 0, p);
        let c2 = self.flips_dir(i, j, -1, 1, p);
        let c3 = self.flips_dir(i, j, 0, -1, p);
        let c4 = self.flips_dir(i, j, 0, 1, p);
        let c5 = self.flips_dir(i, j, 1, -1, p);
        let c6 = self.flips_dir(i, j, 1, 0, p);
        let c7 = self.flips_dir(i, j, 1, 1, p);
        c0 + c1 + c2 + c3 + c4 + c5 + c6 + c7
    }

    /// The capture-count matrix for the active player: entry `(i, j)` is
    /// the number of opponent pieces a placement there would flip right
    /// now, with zero meaning the cell is not a legal move.  A pure query:
    /// the result is fully determined by the current state.
    pub fn cnt_reversable(&self) -> (r: Vec<Vec<usize>>)
        requires
            self.wf(),
        ensures
            matrix_view(r@) == legal_matrix(self.grid(), self.n(), self.turn),
            r@.len() == self.size,
            forall|i: int| 0 <= i < self.size ==> r@[i]@.len() == self.size,
            forall|i: int, j: int|
                0 <= i < self.size && 0 <= j < self.size ==> r@[i]@[j] == #[trigger] cell_flips(
                    self.grid(),
                    self.n(),
                    i,
                    j,
                    self.turn,
                ),
    {
        let n = self.size;
        let mut rows: Vec<Vec<usize>> = Vec::new();
        let mut i: usize = 0;
        while i < n
            invariant
                i <= n,
                self.wf(),
                n == self.size,
                rows@.len() == i,
                forall|a: int| 0 <= a < i ==> rows@[a]@.len() == n,
                forall|a: int, b: int|
                    0 <= a < i && 0 <= b < n ==> rows@[a]@[b] == #[trigger] cell_flips(
                        self.grid(),
                        self.n(),
                        a,
                        b,
                        self.turn,
                    ),
            decreases n - i,
        {
            let mut row: Vec<usize> = Vec::new();
            let mut j: usize = 0;
            while j < n
                invariant
                    j <= n,
                    i < n,
                    self.wf(),
                    n == self.size,
                    row@.len() == j,
                    forall|b: int|
                        0 <= b < j ==> row@[b] == #[trigger] cell_flips(
                            self.grid(),
                            self.n(),
                            i as int,
                            b,
                            self.turn,
                        ),
                decreases n - j,
            {
                let c = self.flips_at(i, j, self.turn);
                row.push(c);
                j += 1;
            }
            rows.push(row);
            i += 1;
        }
        proof {
            assert(matrix_view(rows@) =~~= legal_matrix(self.grid(), self.n(), self.turn));
        }
        rows
    }
}

/// Flip the `k` cells that follow `(i, j)` in direction `(di, dj)` to `p`,
/// mirroring the `flip_ray` model.  The walk stays in bounds because the
/// pre-placement grid `orig` carries an opponent run of at least `k` cells
/// there, and a run never leaves the grid.
fn flip_ray_exec(
    cells: &mut Vec<Option<Turn>>,
    size: usize,
    i: usize,
    j: usize,
    di: i64,
    dj: i64,
    p: Turn,
    k: usize,
    Ghost(orig): Ghost<Seq<Option<Turn>>>,
)
    requires
        4 <= size <= MAX_SIZE,
        old(cells)@.len() == size * size,
        i < size,
        j < size,
        valid_dir(di as int, dj as int),
        k <= run_len(orig, size as int, i as int, j as int, di as int, dj as int, p),
    ensures
        final(cells)@ == flip_ray(
            old(cells)@,
            size as int,
            i as int,
            j as int,
            di as int,
            dj as int,
            p,
            k as int,
        ),
        final(cells)@.len() == old(cells)@.len(),
    decreases k,
{
    if k == 0 {
        return ;
    }
    proof {
        assert(run_len(orig, size as int, i as int, j as int, di as int, dj as int, p) > 0);
        assert(in_bounds(size as int, i + di, j + dj) && at(
            orig,
            size as int,
            i + di,
            j + dj,
        ) == Some(other(p)) && run_len(
            orig,
            size as int,
            i + di,
            j + dj,
            di as int,
            dj as int,
            p,
        ) >= k - 1);
        lemma_cell_index(size as int, i + di, j + dj);
    }
    let ni = (i as i64 + di) as usize;
    let nj = (j as i64 + dj) as usize;
    let idx: usize = ni * size + nj;
    cells[idx] = Some(p);
    flip_ray_exec(cells, size, ni, nj, di, dj, p, k - 1, Ghost(orig));
}

impl BoardState {
    /// Whether player `p` has at least one legal move on the current grid.
    fn exists_legal(&self, p: Turn) -> (r: bool)
        requires
            self.wf(),
        ensures
            r == has_legal_move(self.grid(), self.n(), p),
    {
        let n = self.size;
        let mut i: usize = 0;
        while i < n
            invariant
                i <= n,
                self.wf(),
                n == self.size,
                forall|a: int, b: int|
                    0 <= a < i && 0 <= b < n ==> #[trigger] cell_flips(
                        self.grid(),
                        self.n(),
                        a,
                        b,
                        p,
                    ) == 0,
            decreases n - i,
        {
            let mut j: usize = 0;
            while j < n
                invariant
                    j <= n,
                    i < n,
                    self.wf(),
                    n == self.size,
                    forall|b: int|
                        0 <= b < j ==> #[trigger] cell_flips(
                            self.grid(),
                            self.n(),
                            i as int,
                            b,
                            p,
                        ) == 0,
                decreases n - j,
            {
                if self.flips_at(i, j, p) > 0 {
                    return true;
                }
                j += 1;
            }
            i += 1;
        }
        false
    }

    /// Place a piece of the active player at `(i, j)`.
    ///
    /// Coordinates outside the grid fail with `InvalidCoordinate`; an
    /// occupied cell or a cell that captures nothing fails with
    /// `IllegalMove`; either failure leaves the state untouched.  A legal
    /// placement sets the cell, flips every closed opponent run around it,
    /// and then decides the turn three ways: the opponent moves next if
    /// they have a legal move; otherwise the mover keeps the turn if they
    /// still have one (an implicit pass); otherwise the game is over and
    /// `Ok(false)` is returned.
    pub fn put(&mut self, i: usize, j: usize) -> (r: Result<bool, BoardError>)
        requires
            old(self).wf(),
        ensures
            final(self).wf(),
            match r {
                Err(BoardError::InvalidCoordinate) => (i >= old(self).size || j >= old(
                    self,
                ).size) && *final(self) == *old(self),
                Err(BoardError::IllegalMove) => i < old(self).size && j < old(self).size
                    && cell_flips(
                    old(self).grid(),
                    old(self).n(),
                    i as int,
                    j as int,
                    old(self).turn,
                ) == 0 && *final(self) == *old(self),
                Err(_) => false,
                Ok(can) => {
                    let g2 = after_place(
                        old(self).grid(),
                        old(self).n(),
                        i as int,
                        j as int,
                        old(self).turn,
                    );
                    &&& i < old(self).size && j < old(self).size
                    &&& cell_flips(
                        old(self).grid(),
                        old(self).n(),
                        i as int,
                        j as int,
                        old(self).turn,
                    ) > 0
                    &&& final(self).size == old(self).size
                    &&& final(self).grid() == g2
                    &&& final(self).turn == next_turn(g2, final(self).n(), old(self).turn)
                    &&& final(self).finished == game_over(g2, final(self).n(), old(self).turn)
                    &&& can == !final(self).finished
                },
            },
    {
        let n = self.size;
        if i >= n || j >= n {
            return Err(BoardError::InvalidCoordinate);
        }
        proof {
            lemma_cell_index(self.n(), i as int, j as int);
        }
        if self.cells[i * n + j].is_some() {
            return Err(BoardError::IllegalMove);
        }
        let p = self.turn;
        let c0 = self.flips_dir(i, j, -1, -1, p);
        let c1 = self.flips_dir(i, j, -1, 0, p);
        let c2 = self.flips_dir(i, j, -1, 1, p);
        let c3 = self.flips_dir(i, j, 0, -1, p);
        let c4 = self.flips_dir(i, j, 0, 1, p);
        let c5 = self.flips_dir(i, j, 1, -1, p);
        let c6 = self.flips_dir(i, j, 1, 0, p);
        let c7 = self.flips_dir(i, j, 1, 1, p);
        if c0 + c1 + c2 + c3 + c4 + c5 + c6 + c7 == 0 {
            return Err(BoardError::IllegalMove);
        }
        let ghost orig = self.grid();
        self.cells[i * n + j] = Some(p);
        flip_ray_exec(&mut self.cells, n, i, j, -1, -1, p, c0, Ghost(orig));
        flip_ray_exec(&mut self.cells, n, i, j, -1, 0, p, c1, Ghost(orig));
        flip_ray_exec(&mut self.cells, n, i, j, -1, 1, p, c2, Ghost(orig));
        flip_ray_exec(&mut self.cells, n, i, j, 0, -1, p, c3, Ghost(orig));
        flip_ray_exec(&mut self.cells, n, i, j, 0, 1, p, c4, Ghost(orig));
        flip_ray_exec(&mut self.cells, n, i, j, 1, -1, p, c5, Ghost(orig));
        flip_ray_exec(&mut self.cells, n, i, j, 1, 0, p, c6, Ghost(orig));
        flip_ray_exec(&mut self.cells, n, i, j, 1, 1, p, c7, Ghost(orig));
        proof {
            assert(self.grid() == after_place(orig, self.n(), i as int, j as int, p));
        }
        let opp = match p {
            Turn::Black => Turn::White,
            Turn::White => Turn::Black,
        };
        if self.exists_legal(opp) {
            self.turn = opp;
            self.finished = false;
            Ok(true)
        } else if self.exists_legal(p) {
            self.turn = p;
            self.finished = false;
            Ok(true)
        } else {
            self.finished = true;
            Ok(false)
        }
    }
}

/// Row-major indexing stays inside the flat grid vector, and the whole
/// index arithmetic stays far below `usize::MAX` for a bounded side.
pub proof fn lemma_cell_index(n: int, i: int, j: int)
    requires
        0 <= i < n,
        0 <= j < n,
        n <= MAX_SIZE,
    ensures
        0 <= i * n + j,
        i * n + j < n * n,
        n * n <= 2147395600,
{
    assert(0 <= i * n + j && i * n + j < n * n && n * n <= 2147395600) by (nonlinear_arith)
        requires
            0 <= i < n,
            0 <= j < n,
            n <= 46340,
    ;
}

} // verus!
