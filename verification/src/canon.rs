//! The minlex search: all 96 enumerated transformations of the parsed
//! grid are renumbered and the lexicographically smallest result is
//! returned, with empty cells shown as the blank marker.

use vstd::prelude::*;
use vstd::string::StrSliceExecFns;
use itertools::Itertools;
use crate::grid::{
    valid_grid, digit_of, parse_grid, dot_char, dotted, lex_lt, lex_le, parse_digit,
    value_to_output_char, push_char, lex_less,
};
use crate::transform::{transform, sigma3, apply_transform};
use crate::renumber::{renum, renumber};

verus! {

/// The single failure of canonicalization: the input is not exactly 81
/// characters long.
#[derive(Clone, Copy, PartialEq, Eq, Debug, Structural)]
pub enum MinlexError {
    InvalidLength,
}

/// Candidate number `t` (0..96) of a grid: transformation
/// (t / 12, (t / 2) % 6, t % 2) applied and canonically renumbered.
pub open spec fn cand(g: Seq<u8>, t: int) -> Seq<u8> {
    renum(transform(g, t / 12, (t / 2) % 6, t % 2))
}

/// The smallest of the first `n` candidates, earliest first on ties.
pub open spec fn best_upto(g: Seq<u8>, n: int) -> Seq<u8>
    decreases n,
{
    if n <= 1 {
        cand(g, 0)
    } else {
        let prev = best_upto(g, n - 1);
        if lex_lt(cand(g, n - 1), prev) {
            cand(g, n - 1)
        } else {
            prev
        }
    }
}

/// The canonical (pre-substitution) form of a grid: the smallest of all
/// 96 candidates.
pub open spec fn canonical_form(g: Seq<u8>) -> Seq<u8> {
    best_upto(g, 96)
}

/// A value is the canonical form exactly when it is one of the 96
/// candidates and no candidate is smaller.
pub open spec fn is_min_candidate(g: Seq<u8>, b: Seq<u8>) -> bool {
    &&& exists|t: int| 0 <= t < 96 && b == cand(g, t)
    &&& forall|t: int| 0 <= t < 96 ==> lex_le(b, #[trigger] cand(g, t))
}

/// Relies on `itertools::Itertools::permutations`: over `0..3` with
/// length 3 it yields exactly the six permutations of {0, 1, 2}, in
/// lexicographic order.
#[verifier::external_body]
fn slot_orderings() -> (r: Vec<Vec<usize>>)
    ensures
        r@.len() == 6,
        forall|p: int| 0 <= p < 6 ==> (#[trigger] r@[p])@.len() == 3,
        forall|p: int, q: int| 0 <= p < 6 && 0 <= q < 3 ==> (r@[p])@[q] == sigma3(p, q) as usize,
{
    (0usize..3).permutations(3).collect()
}

fn candidate(g: &Vec<u8>, perms: &Vec<Vec<usize>>, t: usize) -> (r: Vec<u8>)
    requires
        valid_grid(g@),
        t < 96,
        perms@.len() == 6,
        forall|p: int| 0 <= p < 6 ==> (#[trigger] perms@[p])@.len() == 3,
        forall|p: int, q: int|
            0 <= p < 6 && 0 <= q < 3 ==> (perms@[p])@[q] == sigma3(p, q) as usize,
    ensures
        r@ == cand(g@, t as int),
        valid_grid(r@),
{
    let rot = t / 12;
    let p = (t / 2) % 6;
    let m = t % 2;
    let mut c = apply_transform(g, rot, p, &perms[p], m);
    renumber(&mut c);
    c
}

/// Canonicalizes an 81-character grid text: among the 96 transformed,
/// renumbered forms the lexicographically smallest digit string is
/// selected, and its '0' cells are replaced by the blank marker '.'.
/// A text of any other length is rejected.
pub fn minlex(sudoku_str: &str) -> (r: Result<String, MinlexError>)
    ensures
        sudoku_str@.len() != 81 ==> r == Err::<String, MinlexError>(MinlexError::InvalidLength),
        sudoku_str@.len() == 81 ==> (r matches Ok(out) && out@ == dotted(
            canonical_form(parse_grid(sudoku_str@)),
        )),
{
    let n = sudoku_str.unicode_len();
    if n != 81 {
        return Err(MinlexError::InvalidLength);
    }
    let mut g: Vec<u8> = Vec::new();
    for k in 0..81usize
        invariant
            sudoku_str@.len() == 81,
            g@.len() == k,
            forall|x: int| 0 <= x < k ==> g@[x] == digit_of(sudoku_str@[x]),
    {
        let c = sudoku_str.get_char(k);
        g.push(parse_digit(c));
    }
    proof {
        assert(g@ =~= parse_grid(sudoku_str@));
        assert(valid_grid(g@));
    }
    let perms = slot_orderings();
    let mut best = candidate(&g, &perms, 0);
    for t in 1..96usize
        invariant
            valid_grid(g@),
            g@ == parse_grid(sudoku_str@),
            perms@.len() == 6,
            forall|p: int| 0 <= p < 6 ==> (#[trigger] perms@[p])@.len() == 3,
            forall|p: int, q: int|
                0 <= p < 6 && 0 <= q < 3 ==> (perms@[p])@[q] == sigma3(p, q) as usize,
            best@ == best_upto(g@, t as int),
            valid_grid(best@),
    {
        let c = candidate(&g, &perms, t);
        if lex_less(&c, &best) {
            best = c;
        }
    }
    assert(best@ == canonical_form(g@));
    let mut out = String::new();
    for k in 0..81usize
        invariant
            valid_grid(best@),
            best@ == canonical_form(parse_grid(sudoku_str@)),
            out@.len() == k,
            forall|x: int| 0 <= x < k ==> out@[x] == dot_char(best@[x]),
    {
        let ch = value_to_output_char(best[k]);
        push_char(&mut out, ch);
    }
    proof {
        assert(out@ =~= dotted(best@));
    }
    Ok(out)
}

} // verus!
