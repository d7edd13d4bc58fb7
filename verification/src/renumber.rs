//! Canonical digit renumbering: in one row-major scan the first distinct
//! nonzero value becomes 1, the next new value 2, and so on; empty cells
//! stay 0.

use vstd::prelude::*;
use vstd::set_lib::lemma_len_subset;
use crate::grid::valid_grid;

verus! {

broadcast use vstd::set::group_set_axioms;

/// State of the scan after the first `k` cells: the partial injective
/// digit map built so far, and the next canonical digit to hand out.
pub open spec fn rstate(g: Seq<u8>, k: int) -> (Map<u8, u8>, u8)
    decreases k,
{
    if k <= 0 {
        (Map::<u8, u8>::empty(), 1u8)
    } else {
        let s = rstate(g, k - 1);
        let v = g[k - 1];
        if v != 0 && !s.0.contains_key(v) {
            (s.0.insert(v, s.1), (s.1 + 1) as u8)
        } else {
            s
        }
    }
}

/// Renumbered value of cell `k`: 0 stays 0, a digit gets the canonical
/// value the scan assigned to it by then.
pub open spec fn renum_at(g: Seq<u8>, k: int) -> u8 {
    if g[k] == 0 {
        0u8
    } else {
        rstate(g, k + 1).0[g[k]]
    }
}

/// The canonically renumbered grid.
pub open spec fn renum(g: Seq<u8>) -> Seq<u8> {
    Seq::new(g.len(), |k: int| renum_at(g, k))
}

/// The nonzero digit alphabet.
pub open spec fn nine_digits() -> Set<u8> {
    Set::new(|v: u8| 1 <= v <= 9)
}

pub proof fn lemma_nine_digits_len()
    ensures
        nine_digits().finite(),
        nine_digits().len() == 9,
{
    let s = set![1u8, 2u8, 3u8, 4u8, 5u8, 6u8, 7u8, 8u8, 9u8];
    assert(nine_digits() =~= s);
    assert(s.len() == 9);
}

/// Everything one scan step preserves: the map's domain is exactly the
/// set of nonzero values seen so far, its values are the canonical
/// digits 1..next handed out injectively, and next stays at most 10.
pub proof fn lemma_rstate_props(g: Seq<u8>, k: int)
    requires
        0 <= k,
        forall|i: int| 0 <= i < k ==> g[i] <= 9,
    ensures
        rstate(g, k).0.dom().finite(),
        rstate(g, k).1 == rstate(g, k).0.dom().len() + 1,
        1 <= rstate(g, k).1 <= 10,
        forall|v: u8| #[trigger]
            rstate(g, k).0.contains_key(v) <==> (v != 0 && exists|i: int|
                0 <= i < k && g[i] == v),
        forall|v: u8| #[trigger]
            rstate(g, k).0.contains_key(v) ==> 1 <= rstate(g, k).0[v] < rstate(g, k).1,
        forall|v: u8, w: u8|
            rstate(g, k).0.contains_key(v) && rstate(g, k).0.contains_key(w) && v != w
                ==> rstate(g, k).0[v] != rstate(g, k).0[w],
    decreases k,
{
    if k > 0 {
        lemma_rstate_props(g, k - 1);
        let s = rstate(g, k - 1);
        let v = g[k - 1];
        if v != 0 && !s.0.contains_key(v) {
            lemma_nine_digits_len();
            let rest = nine_digits().remove(v);
            assert(s.0.dom() <= rest);
            assert(rest.len() == 8);
            lemma_len_subset(s.0.dom(), rest);
            assert(s.0.dom().len() <= 8);
            assert(rstate(g, k).0.dom() =~= s.0.dom().insert(v));
        }
        assert forall|u: u8| #[trigger]
            rstate(g, k).0.contains_key(u) implies (u != 0 && exists|i: int|
            0 <= i < k && g[i] == u) by {
            if s.0.contains_key(u) {
                let i = choose|i: int| 0 <= i < k - 1 && g[i] == u;
                assert(0 <= i < k && g[i] == u);
            } else {
                assert(g[k - 1] == u);
            }
        }
    }
}

/// The scan's map only grows, and never remaps an assigned digit.
pub proof fn lemma_rstate_mono(g: Seq<u8>, j: int, k: int)
    requires
        0 <= j <= k,
    ensures
        forall|v: u8| #[trigger]
            rstate(g, j).0.contains_key(v) ==> rstate(g, k).0.contains_key(v) && rstate(g, k).0[v]
                == rstate(g, j).0[v],
    decreases k - j,
{
    if j < k {
        lemma_rstate_mono(g, j, k - 1);
    }
}

/// Renumbering keeps the grid valid.
pub proof fn lemma_renum_valid(g: Seq<u8>)
    requires
        valid_grid(g),
    ensures
        valid_grid(renum(g)),
{
    assert forall|k: int| 0 <= k < 81 implies renum(g)[k] <= 9 by {
        if g[k] != 0 {
            lemma_rstate_props(g, k + 1);
            assert(exists|i: int| 0 <= i < k + 1 && g[i] == g[k]) by {
                assert(0 <= k < k + 1 && g[k] == g[k]);
            }
            assert(rstate(g, k + 1).0.contains_key(g[k]));
        }
    }
}

/// What the scan's working table holds for digit `v` after `k` cells:
/// its canonical value, or 0 while it has not been seen.
pub open spec fn slot_of(g: Seq<u8>, k: int, v: u8) -> u8 {
    if rstate(g, k).0.contains_key(v) {
        rstate(g, k).0[v]
    } else {
        0u8
    }
}

pub fn renumber(g: &mut Vec<u8>)
    requires
        valid_grid(old(g)@),
    ensures
        final(g)@ == renum(old(g)@),
        valid_grid(final(g)@),
{
    let ghost g0 = old(g)@;
    let mut number_map: Vec<u8> = vec![0u8, 0u8, 0u8, 0u8, 0u8, 0u8, 0u8, 0u8, 0u8];
    let mut next_number: u8 = 1;
    for i in 0..81usize
        invariant
            g@.len() == 81,
            valid_grid(g0),
            number_map@.len() == 9,
            forall|x: int| i <= x < 81 ==> g@[x] == g0[x],
            forall|x: int| 0 <= x < i ==> g@[x] == renum(g0)[x],
            next_number == rstate(g0, i as int).1,
            forall|u: int| 1 <= u <= 9 ==> #[trigger] number_map@[u - 1] == slot_of(g0, i as int, u as u8),
    {
        proof {
            lemma_rstate_props(g0, i as int);
            lemma_rstate_props(g0, i as int + 1);
        }
        let ghost st0 = rstate(g0, i as int);
        let ghost st1 = rstate(g0, i as int + 1);
        let v = g[i];
        assert(v == g0[i as int]);
        if v != 0 {
            let idx = (v - 1) as usize;
            assert(number_map@[idx as int] == slot_of(g0, i as int, v));
            if number_map[idx] == 0 {
                assert(!st0.0.contains_key(v));
                assert(st1.0 == st0.0.insert(v, st0.1));
                number_map[idx] = next_number;
                next_number = next_number + 1;
            } else {
                assert(st0.0.contains_key(v));
                assert(st1 == st0);
            }
            let nv = number_map[idx];
            assert(nv == st1.0[v]);
            g[i] = nv;
            assert(g@[i as int] == renum(g0)[i as int]);
            assert forall|u: int| 1 <= u <= 9 implies #[trigger] number_map@[u - 1] == slot_of(
                g0,
                i as int + 1,
                u as u8,
            ) by {
                if u as u8 != v {
                    assert(number_map@[u - 1] == slot_of(g0, i as int, u as u8));
                }
            }
        } else {
            assert(st1 == st0);
            assert(g@[i as int] == renum(g0)[i as int]);
            assert forall|u: int| 1 <= u <= 9 implies #[trigger] number_map@[u - 1] == slot_of(
                g0,
                i as int + 1,
                u as u8,
            ) by {
                assert(number_map@[u - 1] == slot_of(g0, i as int, u as u8));
            }
        }
    }
    proof {
        assert(g@ =~= renum(g0));
        lemma_renum_valid(g0);
    }
}

} // verus!
