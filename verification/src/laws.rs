//! The stated laws of canonicalization: the selected form is one of the
//! 96 candidates and minimal among them, canonicalization is invariant
//! under the enumerated transformations and under digit relabeling, and
//! the canonical form is a fixed point.

use vstd::prelude::*;
use crate::grid::{valid_grid, lex_lt, lex_le, digits, dotted, digit_of, digit_char, dot_char, parse_grid};
use crate::transform::{
    transform, src_of, perm_comp, perm_inv, geo_comp, geo_inv, lemma_src_range,
    lemma_transform_valid, lemma_transform_comp, lemma_src_comp, lemma_src_cancel,
    lemma_geo_comp_range, lemma_perm_comp_range,
};
use crate::renumber::{rstate, renum, lemma_rstate_props, lemma_rstate_mono, lemma_renum_valid};
use crate::canon::{cand, best_upto, canonical_form, is_min_candidate};

verus! {

/// Tails of equal sequences with equal heads make the sequences equal.
proof fn lemma_eq_head_tail(a: Seq<u8>, c: Seq<u8>)
    requires
        a.len() > 0,
        c.len() > 0,
        a[0] == c[0],
        a.drop_first() == c.drop_first(),
    ensures
        a == c,
{
    assert(a.drop_first().len() == a.len() - 1);
    assert(c.drop_first().len() == c.len() - 1);
    assert(a.drop_first().len() == c.drop_first().len());
    assert(a.len() == c.len());
    assert forall|k: int| 0 <= k < a.len() implies a[k] == c[k] by {
        if k > 0 {
            assert(a[k] == a.drop_first()[k - 1]);
            assert(c[k] == c.drop_first()[k - 1]);
        }
    }
    assert(a =~= c);
}

/// The lexicographic order is transitive.
pub proof fn lemma_lex_trans(a: Seq<u8>, b: Seq<u8>, c: Seq<u8>)
    requires
        lex_le(a, b),
        lex_le(b, c),
    ensures
        lex_le(a, c),
    decreases a.len(),
{
    if a != b && b != c {
        if b.len() == 0 {
        } else if c.len() == 0 {
        } else if a.len() == 0 {
        } else {
            if a[0] < b[0] {
                assert(b[0] <= c[0]);
            } else if a[0] == b[0] {
                if b[0] == c[0] {
                    lemma_lex_trans(a.drop_first(), b.drop_first(), c.drop_first());
                    if a.drop_first() == c.drop_first() {
                        lemma_eq_head_tail(a, c);
                    }
                }
            }
        }
    }
}

/// Every candidate is an 81-cell grid.
pub proof fn lemma_cand_len(g: Seq<u8>, t: int)
    ensures
        cand(g, t).len() == 81,
{
}

/// Candidates of a valid grid are valid grids.
pub proof fn lemma_cand_valid(g: Seq<u8>, t: int)
    requires
        valid_grid(g),
        0 <= t < 96,
    ensures
        valid_grid(cand(g, t)),
{
    lemma_transform_valid(g, t / 12, (t / 2) % 6, t % 2);
    lemma_renum_valid(transform(g, t / 12, (t / 2) % 6, t % 2));
}

proof fn lemma_best_upto_min(g: Seq<u8>, n: int)
    requires
        1 <= n <= 96,
    ensures
        exists|t: int| 0 <= t < n && best_upto(g, n) == cand(g, t),
        forall|t: int| 0 <= t < n ==> lex_le(best_upto(g, n), #[trigger] cand(g, t)),
    decreases n,
{
    if n == 1 {
        assert(best_upto(g, 1) == cand(g, 0));
        assert(0 <= 0 < n && best_upto(g, n) == cand(g, 0));
    } else {
        lemma_best_upto_min(g, n - 1);
        let prev = best_upto(g, n - 1);
        let newc = cand(g, n - 1);
        lemma_cand_len(g, n - 1);
        let tw = choose|t: int| 0 <= t < n - 1 && prev == cand(g, t);
        lemma_cand_len(g, tw);
        if lex_lt(newc, prev) {
            assert(best_upto(g, n) == newc);
            assert forall|t: int| 0 <= t < n implies lex_le(best_upto(g, n), #[trigger] cand(
                g,
                t,
            )) by {
                if t < n - 1 {
                    lemma_lex_trans(newc, prev, cand(g, t));
                }
            }
            assert(0 <= n - 1 < n && best_upto(g, n) == cand(g, n - 1));
        } else {
            assert(best_upto(g, n) == prev);
            crate::grid::lemma_lex_total(newc, prev);
            assert(lex_le(prev, newc));
            assert(0 <= tw < n && best_upto(g, n) == cand(g, tw));
        }
    }
}

/// The canonical form is one of the 96 candidates, and no candidate is
/// smaller: the minimality law, stated over the raw value grids.
pub proof fn lemma_canonical_is_min(g: Seq<u8>)
    ensures
        is_min_candidate(g, canonical_form(g)),
{
    lemma_best_upto_min(g, 96);
}

/// Only one value is minimal among the candidates.
pub proof fn lemma_min_unique(g: Seq<u8>, b1: Seq<u8>, b2: Seq<u8>)
    requires
        is_min_candidate(g, b1),
        is_min_candidate(g, b2),
    ensures
        b1 == b2,
{
    let t1 = choose|t: int| 0 <= t < 96 && b1 == cand(g, t);
    let t2 = choose|t: int| 0 <= t < 96 && b2 == cand(g, t);
    lemma_cand_len(g, t1);
    lemma_cand_len(g, t2);
    assert(lex_le(b1, cand(g, t2)));
    assert(lex_le(b2, cand(g, t1)));
    crate::grid::lemma_lex_total(b1, b2);
}

/// Character-code lexicographic order on texts.
pub open spec fn char_lex_lt(a: Seq<char>, b: Seq<char>) -> bool
    decreases a.len(),
{
    if b.len() == 0 {
        false
    } else if a.len() == 0 {
        true
    } else if (a[0] as u32) < (b[0] as u32) {
        true
    } else if (a[0] as u32) > (b[0] as u32) {
        false
    } else {
        char_lex_lt(a.drop_first(), b.drop_first())
    }
}

pub open spec fn char_lex_le(a: Seq<char>, b: Seq<char>) -> bool {
    char_lex_lt(a, b) || a == b
}

/// Comparing two grids cell by cell and comparing their digit strings
/// by character code agree.
pub proof fn lemma_digits_order(a: Seq<u8>, b: Seq<u8>)
    requires
        a.len() == b.len(),
        forall|k: int| 0 <= k < a.len() ==> a[k] <= 9,
        forall|k: int| 0 <= k < b.len() ==> b[k] <= 9,
    ensures
        char_lex_lt(digits(a), digits(b)) == lex_lt(a, b),
        digits(a) == digits(b) <==> a == b,
    decreases a.len(),
{
    if a.len() == 0 {
        assert(digits(a) =~= digits(b));
        assert(a =~= b);
    } else {
        assert(digits(a)[0] == digit_char(a[0]));
        assert(digits(b)[0] == digit_char(b[0]));
        lemma_digits_order(a.drop_first(), b.drop_first());
        assert(digits(a).drop_first() =~= digits(a.drop_first()));
        assert(digits(b).drop_first() =~= digits(b.drop_first()));
        if a == b {
            assert(digits(a) =~= digits(b));
        }
        if digits(a) == digits(b) {
            assert forall|k: int| 0 <= k < a.len() implies a[k] == b[k] by {
                assert(digits(a)[k] == digit_char(a[k]));
                assert(digits(b)[k] == digit_char(b[k]));
            }
            assert(a =~= b);
        }
        if a[0] == b[0] {
            if a.drop_first() == b.drop_first() {
                lemma_eq_head_tail(a, b);
            }
            if digits(a).drop_first() == digits(b).drop_first() {
                assert(digits(a) =~= digits(b));
            }
        }
    }
}

/// Minimality, stated as the design gives it: the pre-substitution
/// digit string of the canonical form is, by character-code
/// lexicographic order, at most the digit string of every one of the
/// 96 raw candidates.
pub proof fn canonical_minimality(g: Seq<u8>)
    requires
        valid_grid(g),
    ensures
        forall|t: int|
            0 <= t < 96 ==> char_lex_le(digits(canonical_form(g)), digits(#[trigger] cand(g, t))),
{
    lemma_canonical_is_min(g);
    let b = canonical_form(g);
    let tb = choose|t: int| 0 <= t < 96 && b == cand(g, t);
    lemma_cand_valid(g, tb);
    assert forall|t: int| 0 <= t < 96 implies char_lex_le(digits(b), digits(#[trigger] cand(g, t)))
        by {
        lemma_cand_valid(g, t);
        lemma_cand_len(g, t);
        lemma_cand_len(g, tb);
        lemma_digits_order(b, cand(g, t));
    }
}

/// Blank mapping: the final output replaces exactly the '0' characters
/// of the pre-substitution digit string by the blank marker and leaves
/// every other character unchanged.
pub proof fn blank_mapping(b: Seq<u8>)
    requires
        forall|k: int| 0 <= k < b.len() ==> b[k] <= 9,
    ensures
        dotted(b).len() == digits(b).len(),
        forall|k: int|
            0 <= k < b.len() ==> (digits(b)[k] == '0' <==> #[trigger] dotted(b)[k] == '.'),
        forall|k: int|
            0 <= k < b.len() && digits(b)[k] != '0' ==> #[trigger] dotted(b)[k] == digits(b)[k],
{
    assert forall|k: int| 0 <= k < b.len() implies (digits(b)[k] == '0' <==> #[trigger] dotted(
        b,
    )[k] == '.') by {
        assert(digits(b)[k] == digit_char(b[k]));
        assert(dotted(b)[k] == dot_char(b[k]));
    }
    assert forall|k: int| 0 <= k < b.len() && digits(b)[k] != '0' implies #[trigger] dotted(b)[k]
        == digits(b)[k] by {
        assert(digits(b)[k] == digit_char(b[k]));
        assert(dotted(b)[k] == dot_char(b[k]));
    }
}


/// A value occurs among a grid's cells.
pub open spec fn appears(g: Seq<u8>, v: u8) -> bool {
    exists|i: int| 0 <= i < g.len() && g[i] == v
}

/// Relabeled grid: each cell value replaced by its image.
pub open spec fn relabel(pi: Seq<u8>, g: Seq<u8>) -> Seq<u8> {
    Seq::new(g.len(), |k: int| pi[g[k] as int])
}

/// What renumbering needs of a relabeling: the empty value stays 0 and
/// the digits that occur in the grid keep distinct nonzero images.
pub open spec fn relabel_ok(pi: Seq<u8>, g: Seq<u8>) -> bool {
    &&& pi.len() == 10
    &&& pi[0] == 0
    &&& forall|v: int| 0 < v < 10 && appears(g, v as u8) ==> 1 <= #[trigger] pi[v] <= 9
    &&& forall|v: int, w: int|
        #![trigger pi[v], pi[w]]
        0 < v < 10 && 0 < w < 10 && v != w && appears(g, v as u8) && appears(g, w as u8) ==> pi[v]
            != pi[w]
}

/// A permutation of the nonzero digit labels 1..=9, fixing 0.
pub open spec fn digit_perm(pi: Seq<u8>) -> bool {
    &&& pi.len() == 10
    &&& pi[0] == 0
    &&& forall|v: int| 0 < v < 10 ==> 1 <= #[trigger] pi[v] <= 9
    &&& forall|v: int, w: int|
        #![trigger pi[v], pi[w]]
        0 < v < 10 && 0 < w < 10 && v != w ==> pi[v] != pi[w]
}

pub proof fn lemma_digit_perm_ok(pi: Seq<u8>, g: Seq<u8>)
    requires
        digit_perm(pi),
    ensures
        relabel_ok(pi, g),
{
}

/// The scan state of a relabeled grid mirrors the scan state of the
/// grid itself: same next digit, and the map is carried over through
/// the relabeling of its keys.
proof fn lemma_rstate_relabel(pi: Seq<u8>, g: Seq<u8>, k: int)
    requires
        0 <= k <= g.len(),
        forall|i: int| 0 <= i < g.len() ==> g[i] <= 9,
        relabel_ok(pi, g),
    ensures
        rstate(relabel(pi, g), k).1 == rstate(g, k).1,
        forall|v: u8| #[trigger]
            rstate(g, k).0.contains_key(v) ==> rstate(relabel(pi, g), k).0.contains_key(
                pi[v as int],
            ) && rstate(relabel(pi, g), k).0[pi[v as int]] == rstate(g, k).0[v],
        forall|u: u8| #[trigger]
            rstate(relabel(pi, g), k).0.contains_key(u) ==> exists|v: u8|
                rstate(g, k).0.contains_key(v) && u == pi[v as int],
    decreases k,
{
    let h = relabel(pi, g);
    assert forall|i: int| 0 <= i < h.len() implies h[i] <= 9 by {
        if g[i] != 0 {
            assert(appears(g, g[i])) by {
                assert(0 <= i < g.len() && g[i] == g[i]);
            }
        }
    }
    if k > 0 {
        lemma_rstate_relabel(pi, g, k - 1);
        lemma_rstate_props(g, k - 1);
        lemma_rstate_props(g, k);
        lemma_rstate_props(h, k - 1);
        let v0 = g[k - 1];
        let u0 = h[k - 1];
        assert(u0 == pi[v0 as int]);
        if v0 == 0 {
            assert(u0 == 0);
            assert(rstate(g, k) == rstate(g, k - 1));
            assert(rstate(h, k) == rstate(h, k - 1));
        } else {
            assert(appears(g, v0)) by {
                assert(0 <= k - 1 < g.len() && g[k - 1] == v0);
            }
            assert(1 <= u0 <= 9);
            if rstate(g, k - 1).0.contains_key(v0) {
                assert(rstate(h, k - 1).0.contains_key(u0));
                assert(rstate(g, k) == rstate(g, k - 1));
                assert(rstate(h, k) == rstate(h, k - 1));
            } else {
                assert(!rstate(h, k - 1).0.contains_key(u0)) by {
                    if rstate(h, k - 1).0.contains_key(u0) {
                        let w = choose|w: u8|
                            rstate(g, k - 1).0.contains_key(w) && u0 == pi[w as int];
                        assert(rstate(g, k - 1).0.contains_key(w));
                        let iw = choose|i: int| 0 <= i < k - 1 && g[i] == w;
                        assert(appears(g, w)) by {
                            assert(0 <= iw < g.len() && g[iw] == w);
                        }
                        assert(w != v0);
                        assert(pi[w as int] != pi[v0 as int]);
                    }
                }
                assert(rstate(g, k).0 == rstate(g, k - 1).0.insert(v0, rstate(g, k - 1).1));
                assert(rstate(h, k).0 == rstate(h, k - 1).0.insert(u0, rstate(h, k - 1).1));
                assert(rstate(g, k).1 == rstate(h, k).1);
                assert forall|v: u8| #[trigger] rstate(g, k).0.contains_key(v) implies rstate(
                    h,
                    k,
                ).0.contains_key(pi[v as int]) && rstate(h, k).0[pi[v as int]] == rstate(
                    g,
                    k,
                ).0[v] by {
                    if v != v0 {
                        assert(rstate(g, k - 1).0.contains_key(v));
                        let iv = choose|i: int| 0 <= i < k - 1 && g[i] == v;
                        assert(appears(g, v)) by {
                            assert(0 <= iv < g.len() && g[iv] == v);
                        }
                        assert(pi[v as int] != u0);
                    }
                }
                assert forall|u: u8| #[trigger] rstate(h, k).0.contains_key(u) implies exists|
                    v: u8,
                |
                    rstate(g, k).0.contains_key(v) && u == pi[v as int] by {
                    if u == u0 {
                        assert(rstate(g, k).0.contains_key(v0) && u == pi[v0 as int]);
                    } else {
                        assert(rstate(h, k - 1).0.contains_key(u));
                        let v = choose|v: u8|
                            rstate(g, k - 1).0.contains_key(v) && u == pi[v as int];
                        assert(rstate(g, k).0.contains_key(v) && u == pi[v as int]);
                    }
                }
            }
        }
    }
}

/// Renumbering a relabeled grid gives the renumbering of the grid
/// itself: the canonical digits depend only on where digits first
/// appear, not on their labels.
pub proof fn lemma_renum_relabel(pi: Seq<u8>, g: Seq<u8>)
    requires
        forall|i: int| 0 <= i < g.len() ==> g[i] <= 9,
        relabel_ok(pi, g),
    ensures
        renum(relabel(pi, g)) == renum(g),
{
    let h = relabel(pi, g);
    assert forall|k: int| 0 <= k < g.len() implies renum(h)[k] == renum(g)[k] by {
        lemma_rstate_relabel(pi, g, k + 1);
        lemma_rstate_props(g, k + 1);
        if g[k] != 0 {
            assert(exists|i: int| 0 <= i < k + 1 && g[i] == g[k]) by {
                assert(0 <= k < k + 1 && g[k] == g[k]);
            }
            assert(rstate(g, k + 1).0.contains_key(g[k]));
            assert(h[k] == pi[g[k] as int]);
        } else {
            assert(h[k] == 0);
        }
    }
    assert(renum(h) =~= renum(g));
}

/// The relabeling that renumbering itself applies to the digits that
/// occur (and 0 elsewhere).
pub open spec fn renum_map(g: Seq<u8>) -> Seq<u8> {
    Seq::new(
        10,
        |v: int|
            if v == 0 {
                0u8
            } else {
                crate::renumber::slot_of(g, g.len() as int, v as u8)
            },
    )
}

/// A renumbered grid is a relabeling of the grid it came from.
pub proof fn lemma_renum_is_relabel(g: Seq<u8>)
    requires
        forall|i: int| 0 <= i < g.len() ==> g[i] <= 9,
    ensures
        relabel_ok(renum_map(g), g),
        relabel(renum_map(g), g) == renum(g),
{
    let pi = renum_map(g);
    let n = g.len() as int;
    lemma_rstate_props(g, n);
    assert forall|v: int| 0 < v < 10 && appears(g, v as u8) implies 1 <= #[trigger] pi[v] <= 9 by {
        let i = choose|i: int| 0 <= i < g.len() && g[i] == v as u8;
        assert(rstate(g, n).0.contains_key(v as u8));
    }
    assert forall|v: int, w: int|
        #![trigger pi[v], pi[w]]
        0 < v < 10 && 0 < w < 10 && v != w && appears(g, v as u8) && appears(g, w as u8) implies pi[v]
        != pi[w] by {
        let iv = choose|i: int| 0 <= i < g.len() && g[i] == v as u8;
        let iw = choose|i: int| 0 <= i < g.len() && g[i] == w as u8;
        assert(rstate(g, n).0.contains_key(v as u8));
        assert(rstate(g, n).0.contains_key(w as u8));
    }
    assert forall|k: int| 0 <= k < g.len() implies relabel(pi, g)[k] == renum(g)[k] by {
        if g[k] != 0 {
            lemma_rstate_props(g, k + 1);
            assert(exists|i: int| 0 <= i < k + 1 && g[i] == g[k]) by {
                assert(0 <= k < k + 1 && g[k] == g[k]);
            }
            assert(rstate(g, k + 1).0.contains_key(g[k]));
            lemma_rstate_mono(g, k + 1, n);
        }
    }
    assert(relabel(pi, g) =~= renum(g));
}

/// Cell transformations act on positions and relabelings on values, so
/// the two commute.
pub proof fn lemma_transform_relabel(pi: Seq<u8>, g: Seq<u8>, rot: int, p: int, m: int)
    requires
        valid_grid(g),
        pi.len() == 10,
        0 <= rot < 8,
        0 <= p < 6,
        0 <= m < 2,
    ensures
        transform(relabel(pi, g), rot, p, m) == relabel(pi, transform(g, rot, p, m)),
{
    let lhs = transform(relabel(pi, g), rot, p, m);
    let rhs = relabel(pi, transform(g, rot, p, m));
    assert forall|k: int| 0 <= k < 81 implies lhs[k] == rhs[k] by {
        lemma_src_range(rot, p, m, k);
    }
    assert(lhs =~= rhs);
}

/// Every value of a transformed grid occurs in the grid it came from.
pub proof fn lemma_appears_transform(g: Seq<u8>, rot: int, p: int, m: int, v: u8)
    requires
        valid_grid(g),
        0 <= rot < 8,
        0 <= p < 6,
        0 <= m < 2,
        appears(transform(g, rot, p, m), v),
    ensures
        appears(g, v),
{
    let k = choose|i: int| 0 <= i < 81 && transform(g, rot, p, m)[i] == v;
    lemma_src_range(rot, p, m, k);
    assert(0 <= src_of(rot, p, m, k) < g.len() && g[src_of(rot, p, m, k)] == v);
}

proof fn lemma_best_upto_congruent(g1: Seq<u8>, g2: Seq<u8>, n: int)
    requires
        1 <= n <= 96,
        forall|t: int| 0 <= t < n ==> #[trigger] cand(g1, t) == cand(g2, t),
    ensures
        best_upto(g1, n) == best_upto(g2, n),
    decreases n,
{
    if n > 1 {
        lemma_best_upto_congruent(g1, g2, n - 1);
    }
}

/// Digit-relabeling invariance: permuting the nonzero digit labels of a
/// grid does not change its canonical form.
pub proof fn canonical_relabel_invariant(g: Seq<u8>, pi: Seq<u8>)
    requires
        valid_grid(g),
        digit_perm(pi),
    ensures
        canonical_form(relabel(pi, g)) == canonical_form(g),
{
    assert forall|t: int| 0 <= t < 96 implies #[trigger] cand(relabel(pi, g), t) == cand(g, t) by {
        let rot = t / 12;
        let p = (t / 2) % 6;
        let m = t % 2;
        lemma_transform_relabel(pi, g, rot, p, m);
        lemma_transform_valid(g, rot, p, m);
        lemma_digit_perm_ok(pi, transform(g, rot, p, m));
        lemma_renum_relabel(pi, transform(g, rot, p, m));
    }
    lemma_best_upto_congruent(relabel(pi, g), g, 96);
}

/// Scalar candidate index of a transformation triple.
pub open spec fn tidx(rot: int, p: int, m: int) -> int {
    rot * 12 + p * 2 + m
}

proof fn lemma_tidx(rot: int, p: int, m: int)
    requires
        0 <= rot < 8,
        0 <= p < 6,
        0 <= m < 2,
    ensures
        0 <= tidx(rot, p, m) < 96,
        tidx(rot, p, m) / 12 == rot,
        (tidx(rot, p, m) / 2) % 6 == p,
        tidx(rot, p, m) % 2 == m,
{
    let t = tidx(rot, p, m);
    assert(t / 12 == rot && (t / 2) % 6 == p && t % 2 == m) by (nonlinear_arith)
        requires
            0 <= rot < 8 && 0 <= p < 6 && 0 <= m < 2 && t == rot * 12 + p * 2 + m,
    ;
}

/// A transformation of a grid, undone by the inverse transformation
/// composed back in, gives the grid's own transform.
proof fn lemma_transform_inv_comp(
    g: Seq<u8>,
    rot: int,
    p: int,
    m: int,
    rb: int,
    pb: int,
    mb: int,
)
    requires
        valid_grid(g),
        0 <= rot < 8,
        0 <= p < 6,
        0 <= m < 2,
        0 <= rb < 8,
        0 <= pb < 6,
        0 <= mb < 2,
    ensures
        transform(
            transform(g, rot, p, m),
            geo_comp(geo_inv(rot), rb),
            perm_comp(perm_inv(p), pb),
            (m + mb) % 2,
        ) == transform(g, rb, pb, mb),
{
    let ri = geo_inv(rot);
    let pinv = perm_inv(p);
    lemma_geo_comp_range(rot, rot);
    lemma_perm_comp_range(p, p);
    let r2 = geo_comp(ri, rb);
    let p2 = perm_comp(pinv, pb);
    let m2 = (m + mb) % 2;
    lemma_geo_comp_range(ri, rb);
    lemma_perm_comp_range(pinv, pb);
    lemma_transform_comp(g, rot, p, m, r2, p2, m2);
    let r3 = geo_comp(rot, r2);
    let p3 = perm_comp(p, p2);
    let m3 = (m + m2) % 2;
    lemma_geo_comp_range(rot, r2);
    lemma_perm_comp_range(p, p2);
    assert forall|k: int| 0 <= k < 81 implies src_of(r3, p3, m3, k) == src_of(rb, pb, mb, k) by {
        lemma_src_range(rb, pb, mb, k);
        let x = src_of(rb, pb, mb, k);
        lemma_src_comp(ri, pinv, m, rb, pb, mb, k);
        lemma_src_range(r2, p2, m2, k);
        lemma_src_comp(rot, p, m, r2, p2, m2, k);
        lemma_src_cancel(rot, p, m, x);
    }
    assert(transform(g, r3, p3, m3) =~= transform(g, rb, pb, mb));
}

/// Symmetry invariance: applying any one of the 96 enumerated
/// transformations to a grid does not change its canonical form, so a
/// whole orbit of grids canonicalizes to one string.
pub proof fn canonical_symmetry_invariant(g: Seq<u8>, rot: int, p: int, m: int)
    requires
        valid_grid(g),
        0 <= rot < 8,
        0 <= p < 6,
        0 <= m < 2,
    ensures
        canonical_form(transform(g, rot, p, m)) == canonical_form(g),
{
    let h = transform(g, rot, p, m);
    lemma_transform_valid(g, rot, p, m);
    let b = canonical_form(g);
    lemma_canonical_is_min(g);
    lemma_canonical_is_min(h);
    assert forall|t: int| 0 <= t < 96 implies lex_le(b, #[trigger] cand(h, t)) by {
        let r2 = t / 12;
        let p2 = (t / 2) % 6;
        let m2 = t % 2;
        lemma_transform_comp(g, rot, p, m, r2, p2, m2);
        let r3 = geo_comp(rot, r2);
        let p3 = perm_comp(p, p2);
        let m3 = (m + m2) % 2;
        lemma_geo_comp_range(rot, r2);
        lemma_perm_comp_range(p, p2);
        lemma_tidx(r3, p3, m3);
        assert(cand(h, t) == cand(g, tidx(r3, p3, m3)));
    }
    let tb = choose|t: int| 0 <= t < 96 && b == cand(g, t);
    let rb = tb / 12;
    let pb = (tb / 2) % 6;
    let mb = tb % 2;
    lemma_transform_inv_comp(g, rot, p, m, rb, pb, mb);
    lemma_geo_comp_range(rot, rot);
    lemma_perm_comp_range(p, p);
    let r2 = geo_comp(geo_inv(rot), rb);
    let p2 = perm_comp(perm_inv(p), pb);
    let m2 = (m + mb) % 2;
    lemma_geo_comp_range(geo_inv(rot), rb);
    lemma_perm_comp_range(perm_inv(p), pb);
    lemma_tidx(r2, p2, m2);
    assert(cand(h, tidx(r2, p2, m2)) == b);
    assert(is_min_candidate(h, b));
    lemma_min_unique(h, b, canonical_form(h));
}

/// A relabeling fit for a grid fits every transform of that grid.
proof fn lemma_relabel_ok_transform(pi: Seq<u8>, x: Seq<u8>, rot: int, p: int, m: int)
    requires
        valid_grid(x),
        relabel_ok(pi, x),
        0 <= rot < 8,
        0 <= p < 6,
        0 <= m < 2,
    ensures
        relabel_ok(pi, transform(x, rot, p, m)),
{
    let y = transform(x, rot, p, m);
    assert forall|v: int| 0 < v < 10 && appears(y, v as u8) implies 1 <= #[trigger] pi[v] <= 9 by {
        lemma_appears_transform(x, rot, p, m, v as u8);
    }
    assert forall|v: int, w: int|
        #![trigger pi[v], pi[w]]
        0 < v < 10 && 0 < w < 10 && v != w && appears(y, v as u8) && appears(y, w as u8) implies pi[v]
        != pi[w] by {
        lemma_appears_transform(x, rot, p, m, v as u8);
        lemma_appears_transform(x, rot, p, m, w as u8);
    }
}

/// Idempotence: the canonical form is a fixed point, so
/// canonicalizing a canonical grid returns it unchanged.
pub proof fn canonical_idempotent(g: Seq<u8>)
    requires
        valid_grid(g),
    ensures
        canonical_form(canonical_form(g)) == canonical_form(g),
{
    let b = canonical_form(g);
    lemma_canonical_is_min(g);
    let tb = choose|t: int| 0 <= t < 96 && b == cand(g, t);
    let rb = tb / 12;
    let pb = (tb / 2) % 6;
    let mb = tb % 2;
    let x = transform(g, rb, pb, mb);
    lemma_transform_valid(g, rb, pb, mb);
    assert(b == renum(x));
    lemma_renum_is_relabel(x);
    let pi = renum_map(x);
    assert forall|t: int| 0 <= t < 96 implies lex_le(b, #[trigger] cand(b, t)) by {
        let r2 = t / 12;
        let p2 = (t / 2) % 6;
        let m2 = t % 2;
        lemma_transform_relabel(pi, x, r2, p2, m2);
        lemma_transform_valid(x, r2, p2, m2);
        lemma_relabel_ok_transform(pi, x, r2, p2, m2);
        lemma_renum_relabel(pi, transform(x, r2, p2, m2));
        assert(cand(b, t) == renum(transform(x, r2, p2, m2)));
        lemma_transform_comp(g, rb, pb, mb, r2, p2, m2);
        let r3 = geo_comp(rb, r2);
        let p3 = perm_comp(pb, p2);
        let m3 = (mb + m2) % 2;
        lemma_geo_comp_range(rb, r2);
        lemma_perm_comp_range(pb, p2);
        lemma_tidx(r3, p3, m3);
        assert(cand(b, t) == cand(g, tidx(r3, p3, m3)));
    }
    lemma_geo_comp_range(rb, rb);
    lemma_perm_comp_range(pb, pb);
    let r2 = geo_comp(geo_inv(rb), rb);
    let p2 = perm_comp(perm_inv(pb), pb);
    let m2 = (mb + mb) % 2;
    lemma_geo_comp_range(geo_inv(rb), rb);
    lemma_perm_comp_range(perm_inv(pb), pb);
    lemma_transform_inv_comp(g, rb, pb, mb, rb, pb, mb);
    assert(transform(b, r2, p2, m2) == relabel(pi, transform(x, r2, p2, m2))) by {
        lemma_transform_relabel(pi, x, r2, p2, m2);
    }
    lemma_transform_valid(x, r2, p2, m2);
    lemma_relabel_ok_transform(pi, x, r2, p2, m2);
    lemma_renum_relabel(pi, transform(x, r2, p2, m2));
    lemma_tidx(r2, p2, m2);
    assert(cand(b, tidx(r2, p2, m2)) == renum(transform(x, r2, p2, m2)));
    assert(transform(x, r2, p2, m2) == x);
    assert(cand(b, tidx(r2, p2, m2)) == b);
    assert(is_min_candidate(b, b));
    lemma_canonical_is_min(b);
    lemma_min_unique(b, b, canonical_form(b));
}

/// Parsing the blank-marked text of a grid gives back its cells.
pub proof fn lemma_parse_dotted(b: Seq<u8>)
    requires
        forall|k: int| 0 <= k < b.len() ==> b[k] <= 9,
    ensures
        parse_grid(dotted(b)) == b,
{
    assert forall|k: int| 0 <= k < b.len() implies parse_grid(dotted(b))[k] == b[k] by {
        assert(dotted(b)[k] == dot_char(b[k]));
        assert(digit_of(dot_char(b[k])) == b[k]);
    }
    assert(parse_grid(dotted(b)) =~= b);
}

/// Idempotence at the text level: canonicalizing the canonical text of
/// a valid input changes nothing.
pub proof fn minlex_idempotent(s: Seq<char>)
    requires
        s.len() == 81,
    ensures
        canonical_form(parse_grid(dotted(canonical_form(parse_grid(s))))) == canonical_form(
            parse_grid(s),
        ),
{
    let g = parse_grid(s);
    assert(valid_grid(g));
    let b = canonical_form(g);
    lemma_canonical_is_min(g);
    let tb = choose|t: int| 0 <= t < 96 && b == cand(g, t);
    lemma_cand_valid(g, tb);
    lemma_parse_dotted(b);
    canonical_idempotent(g);
}

} // verus!
