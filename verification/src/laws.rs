//! Laws of the board engine that relate several operations: the score
//! always partitions the occupied cells between the two players, queries
//! are pure functions of the state, and a placement occupies exactly one
//! new cell.

use vstd::prelude::*;
use crate::board::MAX_SIZE;
use crate::board::Turn;
use crate::board::after_place;
use crate::board::at;
use crate::board::cell_flips;
use crate::board::count_pieces_of;
use crate::board::dir_flips;
use crate::board::flip_ray;
use crate::board::in_bounds;
use crate::board::legal_matrix;
use crate::board::lemma_cell_index;
use crate::board::occupied_count;
use crate::board::other;
use crate::board::run_len;
use crate::board::valid_dir;

verus! {

/// On every grid, the two players' piece counts sum to the number of
/// occupied cells: the score accounts for every piece and nothing else.
pub proof fn lemma_score_accounts_for_occupied(b: Seq<Option<Turn>>)
    ensures
        count_pieces_of(b, Turn::Black) + count_pieces_of(b, Turn::White) == occupied_count(b),
    decreases b.len(),
{
    if b.len() > 0 {
        lemma_score_accounts_for_occupied(b.drop_last());
        assert(b.last() is Some ==> b.last() == Some(Turn::Black) || b.last() == Some(
            Turn::White,
        ));
    }
}

/// The legality matrix and the score are functions of the game state
/// alone: asking twice without an intervening placement gives identical
/// results.
pub proof fn lemma_queries_deterministic(
    b: Seq<Option<Turn>>,
    n: int,
    p: Turn,
    m1: Seq<Seq<nat>>,
    m2: Seq<Seq<nat>>,
    s1: (nat, nat),
    s2: (nat, nat),
)
    requires
        m1 == legal_matrix(b, n, p),
        m2 == legal_matrix(b, n, p),
        s1 == (count_pieces_of(b, Turn::Black), count_pieces_of(b, Turn::White)),
        s2 == (count_pieces_of(b, Turn::Black), count_pieces_of(b, Turn::White)),
    ensures
        m1 == m2,
        s1 == s2,
{
}

/// The cell reached from `(i, j)` after `m` steps in direction `(di, dj)`.
spec fn ray_pos(i: int, j: int, di: int, dj: int, m: int) -> (int, int)
    decreases m,
{
    if m <= 0 {
        (i, j)
    } else {
        ray_pos(i + di, j + dj, di, dj, m - 1)
    }
}

/// The flat index of the cell `m` steps from `(i, j)` in direction
/// `(di, dj)` on a grid of side `n`.
spec fn ray_idx(n: int, i: int, j: int, di: int, dj: int, m: int) -> int {
    ray_pos(i, j, di, dj, m).0 * n + ray_pos(i, j, di, dj, m).1
}

/// Walking `m` steps lands on `(i + m * di, j + m * dj)`.
proof fn lemma_ray_pos_linear(i: int, j: int, di: int, dj: int, m: int)
    requires
        m >= 0,
    ensures
        ray_pos(i, j, di, dj, m) == (i + m * di, j + m * dj),
    decreases m,
{
    if m > 0 {
        lemma_ray_pos_linear(i + di, j + dj, di, dj, m - 1);
        assert((m - 1) * di + di == m * di && (m - 1) * dj + dj == m * dj) by (nonlinear_arith);
    } else {
        assert(0 * di == 0 && 0 * dj == 0) by (nonlinear_arith);
    }
}

/// Different step counts along one direction reach different cells.
proof fn lemma_ray_pos_distinct(i: int, j: int, di: int, dj: int, m1: int, m2: int)
    requires
        valid_dir(di, dj),
        0 <= m1 < m2,
    ensures
        ray_pos(i, j, di, dj, m1) != ray_pos(i, j, di, dj, m2),
{
    lemma_ray_pos_linear(i, j, di, dj, m1);
    lemma_ray_pos_linear(i, j, di, dj, m2);
    assert(m1 * di != m2 * di || m1 * dj != m2 * dj) by (nonlinear_arith)
        requires
            valid_dir(di, dj),
            0 <= m1 < m2,
    ;
}

/// Positive step counts along two different directions reach different
/// cells.
proof fn lemma_rays_disjoint(
    i: int,
    j: int,
    di1: int,
    dj1: int,
    di2: int,
    dj2: int,
    m1: int,
    m2: int,
)
    requires
        valid_dir(di1, dj1),
        valid_dir(di2, dj2),
        !(di1 == di2 && dj1 == dj2),
        m1 >= 1,
        m2 >= 1,
    ensures
        ray_pos(i, j, di1, dj1, m1) != ray_pos(i, j, di2, dj2, m2),
{
    lemma_ray_pos_linear(i, j, di1, dj1, m1);
    lemma_ray_pos_linear(i, j, di2, dj2, m2);
    assert(m1 * di1 != m2 * di2 || m1 * dj1 != m2 * dj2) by (nonlinear_arith)
        requires
            valid_dir(di1, dj1),
            valid_dir(di2, dj2),
            !(di1 == di2 && dj1 == dj2),
            m1 >= 1,
            m2 >= 1,
    ;
}

/// Row-major indexing is injective over in-bounds cells.
proof fn lemma_idx_injective(n: int, r1: int, c1: int, r2: int, c2: int)
    requires
        in_bounds(n, r1, c1),
        in_bounds(n, r2, c2),
        !(r1 == r2 && c1 == c2),
    ensures
        r1 * n + c1 != r2 * n + c2,
{
    assert(r1 * n + c1 != r2 * n + c2) by (nonlinear_arith)
        requires
            0 <= r1 < n,
            0 <= c1 < n,
            0 <= r2 < n,
            0 <= c2 < n,
            !(r1 == r2 && c1 == c2),
    ;
}

/// Every cell of an opponent run is in bounds and holds an opponent piece.
proof fn lemma_run_cell(
    b: Seq<Option<Turn>>,
    n: int,
    i: int,
    j: int,
    di: int,
    dj: int,
    p: Turn,
    m: int,
)
    requires
        valid_dir(di, dj),
        1 <= m <= run_len(b, n, i, j, di, dj, p),
    ensures
        in_bounds(n, ray_pos(i, j, di, dj, m).0, ray_pos(i, j, di, dj, m).1),
        at(b, n, ray_pos(i, j, di, dj, m).0, ray_pos(i, j, di, dj, m).1) == Some(other(p)),
    decreases m,
{
    assert(run_len(b, n, i, j, di, dj, p) > 0);
    assert(ray_pos(i, j, di, dj, m) == ray_pos(i + di, j + dj, di, dj, m - 1));
    if m > 1 {
        lemma_run_cell(b, n, i + di, j + dj, di, dj, p, m - 1);
    } else {
        assert(ray_pos(i + di, j + dj, di, dj, 0) == (i + di, j + dj));
    }
}

/// Updating one cell changes the occupied count by what the cell lost and
/// gained.
proof fn lemma_occupied_update(b: Seq<Option<Turn>>, k: int, v: Option<Turn>)
    requires
        0 <= k < b.len(),
    ensures
        occupied_count(b.update(k, v)) == occupied_count(b) - (if b[k] is Some {
            1int
        } else {
            0int
        }) + (if v is Some {
            1int
        } else {
            0int
        }),
    decreases b.len(),
{
    let bu = b.update(k, v);
    if k == b.len() - 1 {
        assert(bu.drop_last() =~= b.drop_last());
    } else {
        assert(bu.drop_last() =~= b.drop_last().update(k, v));
        lemma_occupied_update(b.drop_last(), k, v);
    }
}

/// Updating one cell changes a player's piece count by what the cell lost
/// and gained.
proof fn lemma_count_update(b: Seq<Option<Turn>>, k: int, v: Option<Turn>, q: Turn)
    requires
        0 <= k < b.len(),
    ensures
        count_pieces_of(b.update(k, v), q) == count_pieces_of(b, q) - (if b[k] == Some(q) {
            1int
        } else {
            0int
        }) + (if v == Some(q) {
            1int
        } else {
            0int
        }),
    decreases b.len(),
{
    let bu = b.update(k, v);
    if k == b.len() - 1 {
        assert(bu.drop_last() =~= b.drop_last());
    } else {
        assert(bu.drop_last() =~= b.drop_last().update(k, v));
        lemma_count_update(b.drop_last(), k, v, q);
    }
}

/// Whether `t` is the flat index of one of the first `k` cells that follow
/// `(i, j)` in direction `(di, dj)`.
spec fn ray_touches(n: int, i: int, j: int, di: int, dj: int, k: int, t: int) -> bool {
    exists|m: int| 1 <= m <= k && t == ray_idx(n, i, j, di, dj, m)
}

/// Flipping `k` cells of a ray that all hold opponent pieces moves exactly
/// `k` pieces from the opponent to `p`, and rewrites nothing off the ray.
proof fn lemma_flip_ray_counts(
    bcur: Seq<Option<Turn>>,
    n: int,
    i: int,
    j: int,
    di: int,
    dj: int,
    p: Turn,
    k: int,
)
    requires
        4 <= n <= MAX_SIZE,
        bcur.len() == n * n,
        valid_dir(di, dj),
        k >= 0,
        forall|m: int|
            #![trigger ray_pos(i, j, di, dj, m)]
            1 <= m <= k ==> in_bounds(n, ray_pos(i, j, di, dj, m).0, ray_pos(i, j, di, dj, m).1),
        forall|m: int|
            #![trigger ray_idx(n, i, j, di, dj, m)]
            1 <= m <= k ==> bcur[ray_idx(n, i, j, di, dj, m)] == Some(other(p)),
    ensures
        flip_ray(bcur, n, i, j, di, dj, p, k).len() == bcur.len(),
        count_pieces_of(flip_ray(bcur, n, i, j, di, dj, p, k), p) == count_pieces_of(bcur, p) + k,
        count_pieces_of(flip_ray(bcur, n, i, j, di, dj, p, k), other(p)) == count_pieces_of(
            bcur,
            other(p),
        ) - k,
        forall|t: int|
            0 <= t < bcur.len() && !ray_touches(n, i, j, di, dj, k, t) ==> flip_ray(
                bcur,
                n,
                i,
                j,
                di,
                dj,
                p,
                k,
            )[t] == bcur[t],
    decreases k,
{
    if k == 0 {
    } else {
        assert(ray_pos(i, j, di, dj, 1) == ray_pos(i + di, j + dj, di, dj, 0));
        assert(ray_pos(i + di, j + dj, di, dj, 0) == (i + di, j + dj));
        assert(in_bounds(n, i + di, j + dj));
        let idx1 = (i + di) * n + (j + dj);
        assert(ray_idx(n, i, j, di, dj, 1) == idx1);
        assert(bcur[idx1] == Some(other(p)));
        lemma_cell_index(n, i + di, j + dj);
        assert(other(p) != p);
        let b2 = bcur.update(idx1, Some(p));
        lemma_count_update(bcur, idx1, Some(p), p);
        lemma_count_update(bcur, idx1, Some(p), other(p));
        assert forall|m: int|
            #![trigger ray_pos(i + di, j + dj, di, dj, m)]
            1 <= m <= k - 1 implies in_bounds(
            n,
            ray_pos(i + di, j + dj, di, dj, m).0,
            ray_pos(i + di, j + dj, di, dj, m).1,
        ) by {
            assert(ray_pos(i, j, di, dj, m + 1) == ray_pos(i + di, j + dj, di, dj, m));
        }
        assert forall|m: int|
            #![trigger ray_idx(n, i + di, j + dj, di, dj, m)]
            1 <= m <= k - 1 implies b2[ray_idx(n, i + di, j + dj, di, dj, m)] == Some(
            other(p),
        ) by {
            assert(ray_pos(i, j, di, dj, m + 1) == ray_pos(i + di, j + dj, di, dj, m));
            assert(ray_idx(n, i + di, j + dj, di, dj, m) == ray_idx(n, i, j, di, dj, m + 1));
            lemma_cell_index(n, ray_pos(i, j, di, dj, m + 1).0, ray_pos(i, j, di, dj, m + 1).1);
            lemma_ray_pos_distinct(i, j, di, dj, 1, m + 1);
            lemma_idx_injective(
                n,
                ray_pos(i, j, di, dj, 1).0,
                ray_pos(i, j, di, dj, 1).1,
                ray_pos(i, j, di, dj, m + 1).0,
                ray_pos(i, j, di, dj, m + 1).1,
            );
        }
        lemma_flip_ray_counts(b2, n, i + di, j + dj, di, dj, p, k - 1);
        assert(flip_ray(bcur, n, i, j, di, dj, p, k) == flip_ray(
            b2,
            n,
            i + di,
            j + dj,
            di,
            dj,
            p,
            k - 1,
        ));
        assert forall|t: int|
            0 <= t < bcur.len() && !ray_touches(n, i, j, di, dj, k, t) implies flip_ray(
            bcur,
            n,
            i,
            j,
            di,
            dj,
            p,
            k,
        )[t] == bcur[t] by {
            assert(t != idx1) by {
                if t == idx1 {
                    assert(t == ray_idx(n, i, j, di, dj, 1));
                    assert(ray_touches(n, i, j, di, dj, k, t));
                }
            }
            assert(!ray_touches(n, i + di, j + dj, di, dj, k - 1, t)) by {
                if ray_touches(n, i + di, j + dj, di, dj, k - 1, t) {
                    let m = choose|m: int|
                        1 <= m <= k - 1 && t == #[trigger] ray_idx(n, i + di, j + dj, di, dj, m);
                    assert(ray_pos(i, j, di, dj, m + 1) == ray_pos(i + di, j + dj, di, dj, m));
                    assert(t == ray_idx(n, i, j, di, dj, m + 1));
                    assert(ray_touches(n, i, j, di, dj, k, t));
                }
            }
            assert(flip_ray(b2, n, i + di, j + dj, di, dj, p, k - 1)[t] == b2[t]);
        }
    }
}

/// The row step of the `d`-th compass direction, in the order the engine
/// applies them.
spec fn delta_i(d: int) -> int {
    if d == 0 {
        -1
    } else if d == 1 {
        -1
    } else if d == 2 {
        -1
    } else if d == 3 {
        0
    } else if d == 4 {
        0
    } else if d == 5 {
        1
    } else if d == 6 {
        1
    } else {
        1
    }
}

/// The column step of the `d`-th compass direction.
spec fn delta_j(d: int) -> int {
    if d == 0 {
        -1
    } else if d == 1 {
        0
    } else if d == 2 {
        1
    } else if d == 3 {
        -1
    } else if d == 4 {
        1
    } else if d == 5 {
        -1
    } else if d == 6 {
        0
    } else {
        1
    }
}

/// The grid after the placed piece and the rays of the first `d`
/// directions, each flipping what the pre-placement grid `b` predicts.
spec fn place_stage(b: Seq<Option<Turn>>, n: int, i: int, j: int, p: Turn, d: int) -> Seq<
    Option<Turn>,
>
    decreases d,
{
    if d <= 0 {
        b.update(i * n + j, Some(p))
    } else {
        flip_ray(
            place_stage(b, n, i, j, p, d - 1),
            n,
            i,
            j,
            delta_i(d - 1),
            delta_j(d - 1),
            p,
            dir_flips(b, n, i, j, delta_i(d - 1), delta_j(d - 1), p) as int,
        )
    }
}

/// The captures of the first `d` directions together.
spec fn flips_sum(b: Seq<Option<Turn>>, n: int, i: int, j: int, p: Turn, d: int) -> int
    decreases d,
{
    if d <= 0 {
        0
    } else {
        flips_sum(b, n, i, j, p, d - 1) + dir_flips(b, n, i, j, delta_i(d - 1), delta_j(d - 1), p)
    }
}

/// Whether `t` is the placed cell or a cell some ray of the first `d`
/// directions flips.
spec fn stage_touched(b: Seq<Option<Turn>>, n: int, i: int, j: int, p: Turn, d: int, t: int) -> bool {
    t == i * n + j || exists|e: int, m: int|
        #![trigger ray_idx(n, i, j, delta_i(e), delta_j(e), m)]
        0 <= e < d && 1 <= m <= dir_flips(b, n, i, j, delta_i(e), delta_j(e), p) && t == ray_idx(
            n,
            i,
            j,
            delta_i(e),
            delta_j(e),
            m,
        )
}

/// After the placement and the first `d` rays, the mover has gained the
/// placed piece plus those rays' captures, the opponent has lost exactly
/// those captures, and no other cell has changed.
proof fn lemma_place_stage_counts(b: Seq<Option<Turn>>, n: int, i: int, j: int, p: Turn, d: int)
    requires
        4 <= n <= MAX_SIZE,
        b.len() == n * n,
        in_bounds(n, i, j),
        at(b, n, i, j) is None,
        0 <= d <= 8,
    ensures
        place_stage(b, n, i, j, p, d).len() == b.len(),
        count_pieces_of(place_stage(b, n, i, j, p, d), p) == count_pieces_of(b, p) + 1
            + flips_sum(b, n, i, j, p, d),
        count_pieces_of(place_stage(b, n, i, j, p, d), other(p)) == count_pieces_of(b, other(p))
            - flips_sum(b, n, i, j, p, d),
        forall|t: int|
            0 <= t < b.len() && !stage_touched(b, n, i, j, p, d, t) ==> place_stage(
                b,
                n,
                i,
                j,
                p,
                d,
            )[t] == b[t],
    decreases d,
{
    lemma_cell_index(n, i, j);
    if d == 0 {
        lemma_count_update(b, i * n + j, Some(p), p);
        lemma_count_update(b, i * n + j, Some(p), other(p));
        assert(other(p) != p);
    } else {
        lemma_place_stage_counts(b, n, i, j, p, d - 1);
        let prev = place_stage(b, n, i, j, p, d - 1);
        let di = delta_i(d - 1);
        let dj = delta_j(d - 1);
        let k = dir_flips(b, n, i, j, di, dj, p) as int;
        assert(valid_dir(di, dj));
        assert(k <= run_len(b, n, i, j, di, dj, p));
        assert forall|m: int|
            #![trigger ray_pos(i, j, di, dj, m)]
            1 <= m <= k implies in_bounds(
            n,
            ray_pos(i, j, di, dj, m).0,
            ray_pos(i, j, di, dj, m).1,
        ) by {
            lemma_run_cell(b, n, i, j, di, dj, p, m);
        }
        assert forall|m: int|
            #![trigger ray_idx(n, i, j, di, dj, m)]
            1 <= m <= k implies prev[ray_idx(n, i, j, di, dj, m)] == Some(other(p)) by {
            lemma_run_cell(b, n, i, j, di, dj, p, m);
            lemma_cell_index(n, ray_pos(i, j, di, dj, m).0, ray_pos(i, j, di, dj, m).1);
            let t = ray_idx(n, i, j, di, dj, m);
            assert(ray_pos(i, j, di, dj, 0) == (i, j));
            lemma_ray_pos_distinct(i, j, di, dj, 0, m);
            lemma_idx_injective(n, ray_pos(i, j, di, dj, m).0, ray_pos(i, j, di, dj, m).1, i, j);
            assert(!stage_touched(b, n, i, j, p, d - 1, t)) by {
                if stage_touched(b, n, i, j, p, d - 1, t) {
                    let (e, m2) = choose|e: int, m2: int|
                        0 <= e < d - 1 && 1 <= m2 <= dir_flips(
                            b,
                            n,
                            i,
                            j,
                            delta_i(e),
                            delta_j(e),
                            p,
                        ) && t == #[trigger] ray_idx(n, i, j, delta_i(e), delta_j(e), m2);
                    assert(valid_dir(delta_i(e), delta_j(e)));
                    assert(!(delta_i(e) == di && delta_j(e) == dj));
                    lemma_run_cell(b, n, i, j, delta_i(e), delta_j(e), p, m2);
                    lemma_rays_disjoint(i, j, delta_i(e), delta_j(e), di, dj, m2, m);
                    lemma_idx_injective(
                        n,
                        ray_pos(i, j, delta_i(e), delta_j(e), m2).0,
                        ray_pos(i, j, delta_i(e), delta_j(e), m2).1,
                        ray_pos(i, j, di, dj, m).0,
                        ray_pos(i, j, di, dj, m).1,
                    );
                    assert(false);
                }
            }
        }
        lemma_flip_ray_counts(prev, n, i, j, di, dj, p, k);
        assert forall|t: int|
            0 <= t < b.len() && !stage_touched(b, n, i, j, p, d, t) implies place_stage(
            b,
            n,
            i,
            j,
            p,
            d,
        )[t] == b[t] by {
            assert(!stage_touched(b, n, i, j, p, d - 1, t)) by {
                if stage_touched(b, n, i, j, p, d - 1, t) {
                    if t != i * n + j {
                        let (e, m2) = choose|e: int, m2: int|
                            0 <= e < d - 1 && 1 <= m2 <= dir_flips(
                                b,
                                n,
                                i,
                                j,
                                delta_i(e),
                                delta_j(e),
                                p,
                            ) && t == #[trigger] ray_idx(n, i, j, delta_i(e), delta_j(e), m2);
                        assert(stage_touched(b, n, i, j, p, d, t));
                    }
                }
            }
            assert(!ray_touches(n, i, j, di, dj, k, t)) by {
                if ray_touches(n, i, j, di, dj, k, t) {
                    let m = choose|m: int|
                        1 <= m <= k && t == #[trigger] ray_idx(n, i, j, di, dj, m);
                    assert(stage_touched(b, n, i, j, p, d, t));
                }
            }
            assert(place_stage(b, n, i, j, p, d)[t] == prev[t]);
        }
    }
}

/// The placement model applies exactly the eight direction stages.
proof fn lemma_after_place_is_stage(b: Seq<Option<Turn>>, n: int, i: int, j: int, p: Turn)
    ensures
        after_place(b, n, i, j, p) == place_stage(b, n, i, j, p, 8),
        at(b, n, i, j) is None ==> cell_flips(b, n, i, j, p) == flips_sum(b, n, i, j, p, 8),
{
    reveal_with_fuel(place_stage, 9);
    reveal_with_fuel(flips_sum, 9);
}

/// A legal placement gives the mover the placed piece plus exactly the
/// captures the legality matrix predicted for the cell, and costs the
/// opponent exactly those captures.
pub proof fn lemma_place_moves_pieces(b: Seq<Option<Turn>>, n: int, i: int, j: int, p: Turn)
    requires
        4 <= n <= MAX_SIZE,
        b.len() == n * n,
        in_bounds(n, i, j),
        at(b, n, i, j) is None,
    ensures
        count_pieces_of(after_place(b, n, i, j, p), p) == count_pieces_of(b, p) + 1 + cell_flips(
            b,
            n,
            i,
            j,
            p,
        ),
        count_pieces_of(after_place(b, n, i, j, p), other(p)) == count_pieces_of(b, other(p))
            - cell_flips(b, n, i, j, p),
{
    lemma_place_stage_counts(b, n, i, j, p, 8);
    lemma_after_place_is_stage(b, n, i, j, p);
}

/// Flipping a ray only rewrites cells that an opponent run of the
/// pre-placement grid `orig` occupies, so it neither creates nor removes
/// pieces, and every cell occupied in `orig` stays occupied.
proof fn lemma_flip_ray_occupied(
    bcur: Seq<Option<Turn>>,
    orig: Seq<Option<Turn>>,
    n: int,
    i: int,
    j: int,
    di: int,
    dj: int,
    p: Turn,
    k: int,
)
    requires
        4 <= n <= MAX_SIZE,
        bcur.len() == n * n,
        valid_dir(di, dj),
        k <= run_len(orig, n, i, j, di, dj, p),
        forall|t: int| 0 <= t < bcur.len() && orig[t] is Some ==> #[trigger] bcur[t] is Some,
    ensures
        flip_ray(bcur, n, i, j, di, dj, p, k).len() == bcur.len(),
        occupied_count(flip_ray(bcur, n, i, j, di, dj, p, k)) == occupied_count(bcur),
        forall|t: int|
            0 <= t < bcur.len() && orig[t] is Some ==> #[trigger] flip_ray(
                bcur,
                n,
                i,
                j,
                di,
                dj,
                p,
                k,
            )[t] is Some,
    decreases k,
{
    if k <= 0 {
    } else {
        assert(run_len(orig, n, i, j, di, dj, p) > 0);
        assert(in_bounds(n, i + di, j + dj) && at(orig, n, i + di, j + dj) == Some(other(p))
            && run_len(orig, n, i + di, j + dj, di, dj, p) >= k - 1);
        lemma_cell_index(n, i + di, j + dj);
        let idx = (i + di) * n + (j + dj);
        let b2 = bcur.update(idx, Some(p));
        lemma_occupied_update(bcur, idx, Some(p));
        lemma_flip_ray_occupied(b2, orig, n, i + di, j + dj, di, dj, p, k - 1);
    }
}

/// A legal placement occupies exactly one new cell: the placed piece
/// appears on the empty target cell, and the captured pieces change owner
/// without changing occupancy.
pub proof fn lemma_place_occupies_one(b: Seq<Option<Turn>>, n: int, i: int, j: int, p: Turn)
    requires
        4 <= n <= MAX_SIZE,
        b.len() == n * n,
        in_bounds(n, i, j),
        at(b, n, i, j) is None,
    ensures
        occupied_count(after_place(b, n, i, j, p)) == occupied_count(b) + 1,
        after_place(b, n, i, j, p).len() == b.len(),
{
    lemma_cell_index(n, i, j);
    let b0 = b.update(i * n + j, Some(p));
    lemma_occupied_update(b, i * n + j, Some(p));
    let b1 = flip_ray(b0, n, i, j, -1, -1, p, dir_flips(b, n, i, j, -1, -1, p) as int);
    let b2 = flip_ray(b1, n, i, j, -1, 0, p, dir_flips(b, n, i, j, -1, 0, p) as int);
    let b3 = flip_ray(b2, n, i, j, -1, 1, p, dir_flips(b, n, i, j, -1, 1, p) as int);
    let b4 = flip_ray(b3, n, i, j, 0, -1, p, dir_flips(b, n, i, j, 0, -1, p) as int);
    let b5 = flip_ray(b4, n, i, j, 0, 1, p, dir_flips(b, n, i, j, 0, 1, p) as int);
    let b6 = flip_ray(b5, n, i, j, 1, -1, p, dir_flips(b, n, i, j, 1, -1, p) as int);
    let b7 = flip_ray(b6, n, i, j, 1, 0, p, dir_flips(b, n, i, j, 1, 0, p) as int);
    lemma_flip_ray_occupied(b0, b, n, i, j, -1, -1, p, dir_flips(b, n, i, j, -1, -1, p) as int);
    lemma_flip_ray_occupied(b1, b, n, i, j, -1, 0, p, dir_flips(b, n, i, j, -1, 0, p) as int);
    lemma_flip_ray_occupied(b2, b, n, i, j, -1, 1, p, dir_flips(b, n, i, j, -1, 1, p) as int);
    lemma_flip_ray_occupied(b3, b, n, i, j, 0, -1, p, dir_flips(b, n, i, j, 0, -1, p) as int);
    lemma_flip_ray_occupied(b4, b, n, i, j, 0, 1, p, dir_flips(b, n, i, j, 0, 1, p) as int);
    lemma_flip_ray_occupied(b5, b, n, i, j, 1, -1, p, dir_flips(b, n, i, j, 1, -1, p) as int);
    lemma_flip_ray_occupied(b6, b, n, i, j, 1, 0, p, dir_flips(b, n, i, j, 1, 0, p) as int);
    lemma_flip_ray_occupied(b7, b, n, i, j, 1, 1, p, dir_flips(b, n, i, j, 1, 1, p) as int);
}

} // verus!
