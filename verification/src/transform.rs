//! The enumerated grid transformations: eight square symmetries composed
//! with one of six symmetric row/column slot orderings and an optional
//! transposition of the two outer middle lines.
//!
//! A transformation is applied as a cell-index remapping: destination
//! cell (i, j) receives the source cell at the mapped coordinates, which
//! keeps the 3x3 block partition intact.

use vstd::prelude::*;
use crate::grid::valid_grid;

verus! {

/// The six permutations of {0, 1, 2} in lexicographic order, applied to
/// one slot index: `sigma3(p, r)` is where slot `r` is read from under
/// the `p`-th ordering.
pub open spec fn sigma3(p: int, r: int) -> int {
    if p == 0 {
        r
    } else if p == 1 {
        if r == 0 {
            0
        } else if r == 1 {
            2
        } else {
            1
        }
    } else if p == 2 {
        if r == 0 {
            1
        } else if r == 1 {
            0
        } else {
            2
        }
    } else if p == 3 {
        if r == 0 {
            1
        } else if r == 1 {
            2
        } else {
            0
        }
    } else if p == 4 {
        if r == 0 {
            2
        } else if r == 1 {
            0
        } else {
            1
        }
    } else {
        if r == 0 {
            2
        } else if r == 1 {
            1
        } else {
            0
        }
    }
}

/// Row (and column) index remapping of the slot machinery: the slot
/// ordering acts on lines 0..3, mirrored on lines 6..9, and the middle
/// choice `m` swaps lines 3 and 5.
pub open spec fn tau(p: int, m: int, r: int) -> int {
    if 0 <= r < 3 {
        sigma3(p, r)
    } else if 6 <= r < 9 {
        8 - sigma3(p, 8 - r)
    } else if m == 1 && r == 3 {
        5
    } else if m == 1 && r == 5 {
        3
    } else {
        r
    }
}

/// Source row of destination (i, j) under square symmetry `rot`.
pub open spec fn geo_row(rot: int, i: int, j: int) -> int {
    let x = if rot >= 4 {
        j
    } else {
        i
    };
    if (rot % 4) / 2 == 1 {
        8 - x
    } else {
        x
    }
}

/// Source column of destination (i, j) under square symmetry `rot`.
pub open spec fn geo_col(rot: int, i: int, j: int) -> int {
    let y = if rot >= 4 {
        i
    } else {
        j
    };
    if rot % 2 == 1 {
        8 - y
    } else {
        y
    }
}

/// Flattened source cell index of destination cell `k` under the
/// transformation (rot, p, m).
pub open spec fn src_of(rot: int, p: int, m: int, k: int) -> int {
    let ti = tau(p, m, k / 9);
    let tj = tau(p, m, k % 9);
    geo_row(rot, ti, tj) * 9 + geo_col(rot, ti, tj)
}

/// The grid produced by one enumerated transformation.
pub open spec fn transform(g: Seq<u8>, rot: int, p: int, m: int) -> Seq<u8> {
    Seq::new(81, |k: int| g[src_of(rot, p, m, k)])
}

pub proof fn lemma_sigma3_range(p: int, r: int)
    requires
        0 <= p < 6,
        0 <= r < 3,
    ensures
        0 <= sigma3(p, r) < 3,
{
}

pub proof fn lemma_tau_range(p: int, m: int, r: int)
    requires
        0 <= p < 6,
        0 <= m < 2,
        0 <= r < 9,
    ensures
        0 <= tau(p, m, r) < 9,
{
}

pub proof fn lemma_src_range(rot: int, p: int, m: int, k: int)
    requires
        0 <= rot < 8,
        0 <= p < 6,
        0 <= m < 2,
        0 <= k < 81,
    ensures
        0 <= src_of(rot, p, m, k) < 81,
{
    lemma_tau_range(p, m, k / 9);
    lemma_tau_range(p, m, k % 9);
}

pub proof fn lemma_transform_valid(g: Seq<u8>, rot: int, p: int, m: int)
    requires
        valid_grid(g),
        0 <= rot < 8,
        0 <= p < 6,
        0 <= m < 2,
    ensures
        valid_grid(transform(g, rot, p, m)),
{
    assert forall|k: int| 0 <= k < 81 implies transform(g, rot, p, m)[k] <= 9 by {
        lemma_src_range(rot, p, m, k);
    }
}

/// Composition table of the six slot orderings:
/// applying ordering `p2` and then `p1` is the ordering `perm_comp(p1, p2)`.
pub open spec fn perm_comp(p1: int, p2: int) -> int {
    if p1 == 0 {
        p2
    } else if p2 == 0 {
        p1
    } else if p1 == 1 {
        if p2 == 1 {
            0
        } else if p2 == 2 {
            4
        } else if p2 == 3 {
            5
        } else if p2 == 4 {
            2
        } else {
            3
        }
    } else if p1 == 2 {
        if p2 == 1 {
            3
        } else if p2 == 2 {
            0
        } else if p2 == 3 {
            1
        } else if p2 == 4 {
            5
        } else {
            4
        }
    } else if p1 == 3 {
        if p2 == 1 {
            2
        } else if p2 == 2 {
            5
        } else if p2 == 3 {
            4
        } else if p2 == 4 {
            0
        } else {
            1
        }
    } else if p1 == 4 {
        if p2 == 1 {
            5
        } else if p2 == 2 {
            1
        } else if p2 == 3 {
            0
        } else if p2 == 4 {
            3
        } else {
            2
        }
    } else {
        if p2 == 1 {
            4
        } else if p2 == 2 {
            3
        } else if p2 == 3 {
            2
        } else if p2 == 4 {
            1
        } else {
            0
        }
    }
}

/// Inverse slot ordering: the two 3-cycles swap, the rest are their own
/// inverses.
pub open spec fn perm_inv(p: int) -> int {
    if p == 3 {
        4
    } else if p == 4 {
        3
    } else {
        p
    }
}

/// Composition of two square symmetries: applying `r2` and then `r1`
/// is the symmetry `geo_comp(r1, r2)`.
pub open spec fn geo_comp(r1: int, r2: int) -> int {
    let s1 = r1 / 4;
    let a1 = (r1 % 4) / 2;
    let b1 = r1 % 2;
    let s2 = r2 / 4;
    let a2 = (r2 % 4) / 2;
    let b2 = r2 % 2;
    if s1 == 0 {
        4 * s2 + 2 * ((a1 + a2) % 2) + ((b1 + b2) % 2)
    } else {
        4 * (1 - s2) + 2 * ((a1 + b2) % 2) + ((b1 + a2) % 2)
    }
}

/// Inverse square symmetry.
pub open spec fn geo_inv(r: int) -> int {
    if r >= 4 {
        4 + 2 * (r % 2) + ((r % 4) / 2)
    } else {
        r
    }
}

pub proof fn lemma_perm_comp_range(p1: int, p2: int)
    requires
        0 <= p1 < 6,
        0 <= p2 < 6,
    ensures
        0 <= perm_comp(p1, p2) < 6,
        0 <= perm_inv(p1) < 6,
{
}

pub proof fn lemma_geo_comp_range(r1: int, r2: int)
    requires
        0 <= r1 < 8,
        0 <= r2 < 8,
    ensures
        0 <= geo_comp(r1, r2) < 8,
        0 <= geo_inv(r1) < 8,
{
}

pub proof fn lemma_sigma_comp(p1: int, p2: int, r: int)
    requires
        0 <= p1 < 6,
        0 <= p2 < 6,
        0 <= r < 3,
    ensures
        sigma3(perm_comp(p1, p2), r) == sigma3(p1, sigma3(p2, r)),
{
}

pub proof fn lemma_perm_cancel(p: int)
    requires
        0 <= p < 6,
    ensures
        perm_comp(p, perm_inv(p)) == 0,
{
}

pub proof fn lemma_geo_cancel(r: int)
    requires
        0 <= r < 8,
    ensures
        geo_comp(r, geo_inv(r)) == 0,
{
}

/// The slot machinery commutes with mirroring a line index.
pub proof fn lemma_tau_mirror(p: int, m: int, r: int)
    requires
        0 <= p < 6,
        0 <= m < 2,
        0 <= r < 9,
    ensures
        tau(p, m, 8 - r) == 8 - tau(p, m, r),
{
    if 0 <= r < 3 {
        lemma_sigma3_range(p, r);
    } else if 6 <= r < 9 {
        lemma_sigma3_range(p, 8 - r);
    }
}

/// Two slot remappings compose to the slot remapping of the composed
/// ordering, with the middle choices adding up modulo 2.
pub proof fn lemma_tau_comp(p1: int, m1: int, p2: int, m2: int, r: int)
    requires
        0 <= p1 < 6,
        0 <= m1 < 2,
        0 <= p2 < 6,
        0 <= m2 < 2,
        0 <= r < 9,
    ensures
        tau(p1, m1, tau(p2, m2, r)) == tau(perm_comp(p1, p2), (m1 + m2) % 2, r),
{
    lemma_perm_comp_range(p1, p2);
    if 0 <= r < 3 {
        lemma_sigma3_range(p2, r);
        lemma_sigma_comp(p1, p2, r);
    } else if 6 <= r < 9 {
        lemma_sigma3_range(p2, 8 - r);
        lemma_sigma_comp(p1, p2, 8 - r);
    }
}

/// A square symmetry commutes with the slot remapping applied to both
/// coordinates.
pub proof fn lemma_geo_tau_commute(rot: int, p: int, m: int, i: int, j: int)
    requires
        0 <= rot < 8,
        0 <= p < 6,
        0 <= m < 2,
        0 <= i < 9,
        0 <= j < 9,
    ensures
        geo_row(rot, tau(p, m, i), tau(p, m, j)) == tau(p, m, geo_row(rot, i, j)),
        geo_col(rot, tau(p, m, i), tau(p, m, j)) == tau(p, m, geo_col(rot, i, j)),
{
    lemma_tau_range(p, m, i);
    lemma_tau_range(p, m, j);
    lemma_tau_mirror(p, m, i);
    lemma_tau_mirror(p, m, j);
}

/// Two square symmetries compose by the table.
#[verifier::rlimit(60)]
pub proof fn lemma_geo_comp(r1: int, r2: int, i: int, j: int)
    requires
        0 <= r1 < 8,
        0 <= r2 < 8,
        0 <= i < 9,
        0 <= j < 9,
    ensures
        geo_row(geo_comp(r1, r2), i, j) == geo_row(r1, geo_row(r2, i, j), geo_col(r2, i, j)),
        geo_col(geo_comp(r1, r2), i, j) == geo_col(r1, geo_row(r2, i, j), geo_col(r2, i, j)),
{
}

/// Cell-map composition: remapping under transformation (r2, p2, m2)
/// and then looking up the source under (r1, p1, m1) is the cell map of
/// the composed transformation.
pub proof fn lemma_src_comp(r1: int, p1: int, m1: int, r2: int, p2: int, m2: int, k: int)
    requires
        0 <= r1 < 8,
        0 <= p1 < 6,
        0 <= m1 < 2,
        0 <= r2 < 8,
        0 <= p2 < 6,
        0 <= m2 < 2,
        0 <= k < 81,
    ensures
        src_of(r1, p1, m1, src_of(r2, p2, m2, k)) == src_of(
            geo_comp(r1, r2),
            perm_comp(p1, p2),
            (m1 + m2) % 2,
            k,
        ),
{
    let i = k / 9;
    let j = k % 9;
    lemma_tau_range(p2, m2, i);
    lemma_tau_range(p2, m2, j);
    let ti = tau(p2, m2, i);
    let tj = tau(p2, m2, j);
    let gr = geo_row(r2, ti, tj);
    let gc = geo_col(r2, ti, tj);
    assert(0 <= gr < 9 && 0 <= gc < 9);
    let k2 = src_of(r2, p2, m2, k);
    assert(k2 == gr * 9 + gc);
    assert(k2 / 9 == gr && k2 % 9 == gc);
    lemma_geo_tau_commute(r2, p1, m1, ti, tj);
    lemma_tau_comp(p1, m1, p2, m2, i);
    lemma_tau_comp(p1, m1, p2, m2, j);
    let a = tau(perm_comp(p1, p2), (m1 + m2) % 2, i);
    let b = tau(perm_comp(p1, p2), (m1 + m2) % 2, j);
    lemma_perm_comp_range(p1, p2);
    lemma_tau_range(perm_comp(p1, p2), (m1 + m2) % 2, i);
    lemma_tau_range(perm_comp(p1, p2), (m1 + m2) % 2, j);
    lemma_geo_comp(r1, r2, a, b);
}

/// The identity transformation maps every cell to itself.
pub proof fn lemma_src_identity(k: int)
    requires
        0 <= k < 81,
    ensures
        src_of(0, 0, 0, k) == k,
{
    assert(k == (k / 9) * 9 + k % 9);
}

/// Transforming twice is transforming once by the composition.
pub proof fn lemma_transform_comp(
    g: Seq<u8>,
    r1: int,
    p1: int,
    m1: int,
    r2: int,
    p2: int,
    m2: int,
)
    requires
        valid_grid(g),
        0 <= r1 < 8,
        0 <= p1 < 6,
        0 <= m1 < 2,
        0 <= r2 < 8,
        0 <= p2 < 6,
        0 <= m2 < 2,
    ensures
        transform(transform(g, r1, p1, m1), r2, p2, m2) == transform(
            g,
            geo_comp(r1, r2),
            perm_comp(p1, p2),
            (m1 + m2) % 2,
        ),
{
    let lhs = transform(transform(g, r1, p1, m1), r2, p2, m2);
    let rhs = transform(g, geo_comp(r1, r2), perm_comp(p1, p2), (m1 + m2) % 2);
    assert forall|k: int| 0 <= k < 81 implies lhs[k] == rhs[k] by {
        lemma_src_range(r2, p2, m2, k);
        lemma_src_comp(r1, p1, m1, r2, p2, m2, k);
    }
    assert(lhs =~= rhs);
}

/// Undoing a transformation: its cell map composed with the cell map of
/// its inverse is the identity on cells.
#[verifier::rlimit(60)]
pub proof fn lemma_src_cancel(rot: int, p: int, m: int, x: int)
    requires
        0 <= rot < 8,
        0 <= p < 6,
        0 <= m < 2,
        0 <= x < 81,
    ensures
        src_of(rot, p, m, src_of(geo_inv(rot), perm_inv(p), m, x)) == x,
{
    lemma_geo_comp_range(rot, rot);
    lemma_perm_comp_range(p, p);
    lemma_src_comp(rot, p, m, geo_inv(rot), perm_inv(p), m, x);
    lemma_geo_cancel(rot);
    lemma_perm_cancel(p);
    lemma_src_identity(x);
}

fn tau_at(p: usize, sigma: &Vec<usize>, mid: usize, r: usize) -> (t: usize)
    requires
        p < 6,
        mid < 2,
        r < 9,
        sigma@.len() == 3,
        forall|q: int| 0 <= q < 3 ==> sigma@[q] == sigma3(p as int, q) as usize,
    ensures
        t == tau(p as int, mid as int, r as int),
        t < 9,
{
    proof {
        lemma_tau_range(p as int, mid as int, r as int);
    }
    if r < 3 {
        proof {
            lemma_sigma3_range(p as int, r as int);
        }
        sigma[r]
    } else if r >= 6 {
        proof {
            lemma_sigma3_range(p as int, 8 - r as int);
        }
        8 - sigma[8 - r]
    } else if mid == 1 && r == 3 {
        5
    } else if mid == 1 && r == 5 {
        3
    } else {
        r
    }
}

/// Builds the grid that the transformation (rot, p, mid) makes of `g`,
/// reading the slot ordering from `sigma` (the `p`-th of the six).
pub fn apply_transform(g: &Vec<u8>, rot: usize, p: usize, sigma: &Vec<usize>, mid: usize) -> (r:
    Vec<u8>)
    requires
        valid_grid(g@),
        rot < 8,
        p < 6,
        mid < 2,
        sigma@.len() == 3,
        forall|q: int| 0 <= q < 3 ==> sigma@[q] == sigma3(p as int, q) as usize,
    ensures
        r@ == transform(g@, rot as int, p as int, mid as int),
        valid_grid(r@),
{
    let mut out: Vec<u8> = Vec::new();
    for k in 0..81usize
        invariant
            valid_grid(g@),
            rot < 8,
            p < 6,
            mid < 2,
            sigma@.len() == 3,
            forall|q: int| 0 <= q < 3 ==> sigma@[q] == sigma3(p as int, q) as usize,
            out@.len() == k,
            forall|x: int|
                0 <= x < k ==> out@[x] == transform(g@, rot as int, p as int, mid as int)[x],
    {
        let i = k / 9;
        let j = k % 9;
        let ti = tau_at(p, sigma, mid, i);
        let tj = tau_at(p, sigma, mid, j);
        let gr = if rot >= 4 {
            if (rot % 4) / 2 == 1 {
                8 - tj
            } else {
                tj
            }
        } else {
            if (rot % 4) / 2 == 1 {
                8 - ti
            } else {
                ti
            }
        };
        let gc = if rot >= 4 {
            if rot % 2 == 1 {
                8 - ti
            } else {
                ti
            }
        } else {
            if rot % 2 == 1 {
                8 - tj
            } else {
                tj
            }
        };
        proof {
            lemma_src_range(rot as int, p as int, mid as int, k as int);
            assert(gr == geo_row(rot as int, ti as int, tj as int));
            assert(gc == geo_col(rot as int, ti as int, tj as int));
        }
        out.push(g[gr * 9 + gc]);
    }
    proof {
        lemma_transform_valid(g@, rot as int, p as int, mid as int);
        assert(out@ =~= transform(g@, rot as int, p as int, mid as int));
    }
    out
}

} // verus!
