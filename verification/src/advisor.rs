//! The move advisor: given a game state with at least one legal move, it
//! selects one at random.  Candidates are weighted by their capture count,
//! and whenever a legal corner exists the choice is restricted to the
//! (weighted) corner candidates, since corners dominate strategically.

use vstd::prelude::*;
use rand::seq::SliceRandom;
use crate::board::BoardError;
use crate::board::BoardState;
use crate::board::Turn;
use crate::board::cell_flips;
use crate::board::has_legal_move;
use crate::board::in_bounds;

verus! {

/// `(i, j)` is one of the four corner cells of an `n` by `n` grid.
pub open spec fn is_corner(n: int, i: int, j: int) -> bool {
    (i == 0 || i == n - 1) && (j == 0 || j == n - 1)
}

/// Whether `p` has a legal move on a corner cell.
pub open spec fn has_legal_corner(b: Seq<Option<Turn>>, n: int, p: Turn) -> bool {
    exists|i: int, j: int|
        in_bounds(n, i, j) && is_corner(n, i, j) && #[trigger] cell_flips(b, n, i, j, p) > 0
}

/// Relies on `rand::seq::SliceRandom::choose` (with `rand::thread_rng` as
/// the source of randomness): it returns `None` exactly on an empty slice
/// and otherwise a reference to one of the slice's elements.  Which
/// element comes back depends on the random source, so nothing more is
/// stated.
#[verifier::external_body]
fn choose_cell(pool: &Vec<(usize, usize)>) -> (r: Option<(usize, usize)>)
    ensures
        match r {
            Some(c) => exists|k: int| 0 <= k < pool@.len() && pool@[k] == c,
            None => pool@.len() == 0,
        },
{
    pool.as_slice().choose(&mut rand::thread_rng()).copied()
}

/// Pick one legal move for the active player at random.
///
/// Every legal cell enters the candidate pool once per piece it would
/// capture, so the draw is weighted by material gain; the legal corner
/// cells form a second weighted pool, and whenever that pool is non-empty
/// the draw is made from it alone.  With no legal move at all the call
/// fails with `NoLegalMove`.
pub fn suggest_move(bs: &BoardState) -> (r: Result<(usize, usize), BoardError>)
    requires
        bs.wf(),
    ensures
        match r {
            Ok(c) => {
                &&& in_bounds(bs.n(), c.0 as int, c.1 as int)
                &&& cell_flips(bs.grid(), bs.n(), c.0 as int, c.1 as int, bs.turn) > 0
                &&& (has_legal_corner(bs.grid(), bs.n(), bs.turn) ==> is_corner(
                    bs.n(),
                    c.0 as int,
                    c.1 as int,
                ))
            },
            Err(e) => e == BoardError::NoLegalMove && !has_legal_move(bs.grid(), bs.n(), bs.turn),
        },
        r is Ok <==> has_legal_move(bs.grid(), bs.n(), bs.turn),
{
    let matrix = bs.cnt_reversable();
    let n = bs.get_size();
    let mut options: Vec<(usize, usize)> = Vec::new();
    let mut corners: Vec<(usize, usize)> = Vec::new();
    let mut i: usize = 0;
    while i < n
        invariant
            i <= n,
            bs.wf(),
            n == bs.size,
            matrix@.len() == n,
            forall|a: int| 0 <= a < n ==> matrix@[a]@.len() == n,
            forall|a: int, b: int|
                0 <= a < n && 0 <= b < n ==> matrix@[a]@[b] == #[trigger] cell_flips(
                    bs.grid(),
                    bs.n(),
                    a,
                    b,
                    bs.turn,
                ),
            forall|k: int|
                0 <= k < options@.len() ==> {
                    &&& in_bounds(bs.n(), #[trigger] options@[k].0 as int, options@[k].1 as int)
                    &&& cell_flips(
                        bs.grid(),
                        bs.n(),
                        options@[k].0 as int,
                        options@[k].1 as int,
                        bs.turn,
                    ) > 0
                },
            forall|k: int|
                0 <= k < corners@.len() ==> {
                    &&& in_bounds(bs.n(), #[trigger] corners@[k].0 as int, corners@[k].1 as int)
                    &&& is_corner(bs.n(), corners@[k].0 as int, corners@[k].1 as int)
                    &&& cell_flips(
                        bs.grid(),
                        bs.n(),
                        corners@[k].0 as int,
                        corners@[k].1 as int,
                        bs.turn,
                    ) > 0
                },
            options@.len() == 0 ==> forall|a: int, b: int|
                0 <= a < i && 0 <= b < n ==> #[trigger] cell_flips(
                    bs.grid(),
                    bs.n(),
                    a,
                    b,
                    bs.turn,
                ) == 0,
            corners@.len() == 0 ==> forall|a: int, b: int|
                0 <= a < i && 0 <= b < n && is_corner(bs.n(), a, b) ==> #[trigger] cell_flips(
                    bs.grid(),
                    bs.n(),
                    a,
                    b,
                    bs.turn,
                ) == 0,
        decreases n - i,
    {
        let mut j: usize = 0;
        while j < n
            invariant
                j <= n,
                i < n,
                bs.wf(),
                n == bs.size,
                matrix@.len() == n,
                forall|a: int| 0 <= a < n ==> matrix@[a]@.len() == n,
                forall|a: int, b: int|
                    0 <= a < n && 0 <= b < n ==> matrix@[a]@[b] == #[trigger] cell_flips(
                        bs.grid(),
                        bs.n(),
                        a,
                        b,
                        bs.turn,
                    ),
                forall|k: int|
                    0 <= k < options@.len() ==> {
                        &&& in_bounds(
                            bs.n(),
                            #[trigger] options@[k].0 as int,
                            options@[k].1 as int,
                        )
                        &&& cell_flips(
                            bs.grid(),
                            bs.n(),
                            options@[k].0 as int,
                            options@[k].1 as int,
                            bs.turn,
                        ) > 0
                    },
                forall|k: int|
                    0 <= k < corners@.len() ==> {
                        &&& in_bounds(
                            bs.n(),
                            #[trigger] corners@[k].0 as int,
                            corners@[k].1 as int,
                        )
                        &&& is_corner(bs.n(), corners@[k].0 as int, corners@[k].1 as int)
                        &&& cell_flips(
                            bs.grid(),
                            bs.n(),
                            corners@[k].0 as int,
                            corners@[k].1 as int,
                            bs.turn,
                        ) > 0
                    },
                options@.len() == 0 ==> forall|a: int, b: int|
                    (0 <= a < i && 0 <= b < n) || (a == i && 0 <= b < j) ==> #[trigger] cell_flips(
                        bs.grid(),
                        bs.n(),
                        a,
                        b,
                        bs.turn,
                    ) == 0,
                corners@.len() == 0 ==> forall|a: int, b: int|
                    ((0 <= a < i && 0 <= b < n) || (a == i && 0 <= b < j)) && is_corner(
                        bs.n(),
                        a,
                        b,
                    ) ==> #[trigger] cell_flips(bs.grid(), bs.n(), a, b, bs.turn) == 0,
            decreases n - j,
        {
            let c = matrix[i][j];
            if c > 0 {
                let mut t: usize = 0;
                while t < c
                    invariant
                        t <= c,
                        i < n,
                        j < n,
                        bs.wf(),
                        n == bs.size,
                        c == cell_flips(bs.grid(), bs.n(), i as int, j as int, bs.turn),
                        c > 0,
                        forall|k: int|
                            0 <= k < options@.len() ==> {
                                &&& in_bounds(
                                    bs.n(),
                                    #[trigger] options@[k].0 as int,
                                    options@[k].1 as int,
                                )
                                &&& cell_flips(
                                    bs.grid(),
                                    bs.n(),
                                    options@[k].0 as int,
                                    options@[k].1 as int,
                                    bs.turn,
                                ) > 0
                            },
                        t > 0 ==> options@.len() > 0,
                    decreases c - t,
                {
                    options.push((i, j));
                    t += 1;
                }
                if (i == 0 || i == n - 1) && (j == 0 || j == n - 1) {
                    let mut t2: usize = 0;
                    while t2 < c
                        invariant
                            t2 <= c,
                            i < n,
                            j < n,
                            bs.wf(),
                            n == bs.size,
                            c == cell_flips(bs.grid(), bs.n(), i as int, j as int, bs.turn),
                            c > 0,
                            (i == 0 || i == n - 1) && (j == 0 || j == n - 1),
                            forall|k: int|
                                0 <= k < corners@.len() ==> {
                                    &&& in_bounds(
                                        bs.n(),
                                        #[trigger] corners@[k].0 as int,
                                        corners@[k].1 as int,
                                    )
                                    &&& is_corner(
                                        bs.n(),
                                        corners@[k].0 as int,
                                        corners@[k].1 as int,
                                    )
                                    &&& cell_flips(
                                        bs.grid(),
                                        bs.n(),
                                        corners@[k].0 as int,
                                        corners@[k].1 as int,
                                        bs.turn,
                                    ) > 0
                                },
                            t2 > 0 ==> corners@.len() > 0,
                        decreases c - t2,
                    {
                        corners.push((i, j));
                        t2 += 1;
                    }
                }
            }
            j += 1;
        }
        i += 1;
    }
    if corners.len() > 0 {
        match choose_cell(&corners) {
            Some(c) => {
                proof {
                    let k = choose|k: int| 0 <= k < corners@.len() && corners@[k] == c;
                    assert(cell_flips(bs.grid(), bs.n(), c.0 as int, c.1 as int, bs.turn) > 0);
                    assert(has_legal_move(bs.grid(), bs.n(), bs.turn));
                }
                Ok(c)
            },
            None => Err(BoardError::NoLegalMove),
        }
    } else if options.len() > 0 {
        match choose_cell(&options) {
            Some(c) => {
                proof {
                    let k = choose|k: int| 0 <= k < options@.len() && options@[k] == c;
                    assert(cell_flips(bs.grid(), bs.n(), c.0 as int, c.1 as int, bs.turn) > 0);
                    assert(has_legal_move(bs.grid(), bs.n(), bs.turn));
                    assert(forall|a: int, b: int|
                        0 <= a < bs.n() && 0 <= b < bs.n() && is_corner(bs.n(), a, b)
                            ==> #[trigger] cell_flips(bs.grid(), bs.n(), a, b, bs.turn) == 0);
                    assert(!has_legal_corner(bs.grid(), bs.n(), bs.turn));
                }
                Ok(c)
            },
            None => Err(BoardError::NoLegalMove),
        }
    } else {
        proof {
            assert(forall|a: int, b: int|
                0 <= a < bs.n() && 0 <= b < bs.n() ==> #[trigger] cell_flips(
                    bs.grid(),
                    bs.n(),
                    a,
                    b,
                    bs.turn,
                ) == 0);
            assert(!has_legal_move(bs.grid(), bs.n(), bs.turn));
        }
        Err(BoardError::NoLegalMove)
    }
}

} // verus!
