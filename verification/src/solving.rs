//! Support for the solving operations: the parse gate that turns an
//! 81-character givens text into cell values, and the rendering of a
//! completed grid. Counting and finding completions is the work of an
//! external solving engine; these functions pin down the parts of those
//! operations that are functions of the text alone.

use vstd::prelude::*;
use vstd::string::StrSliceExecFns;
use crate::grid::{valid_grid, digit_of, parse_grid, digits, digit_char, parse_digit, push_char};

verus! {

/// A completed grid: a digit in every cell, no empty cell left.
pub open spec fn complete_grid(g: Seq<u8>) -> bool {
    &&& g.len() == 81
    &&& forall|k: int| 0 <= k < 81 ==> 1 <= #[trigger] g[k] <= 9
}

/// Decodes a givens text into 81 cell values. A text of any other
/// length never parses into a board, so for such a text the solving
/// operations report zero solutions and an empty solution string.
pub fn parse_givens(text: &str) -> (r: Option<Vec<u8>>)
    ensures
        (r is Some) <==> text@.len() == 81,
        text@.len() == 81 ==> (r matches Some(g) && g@ == parse_grid(text@) && valid_grid(g@)),
{
    let n = text.unicode_len();
    if n != 81 {
        return None;
    }
    let mut g: Vec<u8> = Vec::new();
    for k in 0..81usize
        invariant
            text@.len() == 81,
            g@.len() == k,
            forall|x: int| 0 <= x < k ==> g@[x] == digit_of(text@[x]),
    {
        let c = text.get_char(k);
        g.push(parse_digit(c));
    }
    proof {
        assert(g@ =~= parse_grid(text@));
        assert(valid_grid(g@));
    }
    Some(g)
}

/// Text of a completed grid: 81 digit characters, '1'..'9' only, never
/// the blank marker.
pub fn render_solution(cells: &Vec<u8>) -> (r: String)
    requires
        complete_grid(cells@),
    ensures
        r@ == digits(cells@),
        r@.len() == 81,
        forall|k: int| 0 <= k < 81 ==> #[trigger] digit_of(r@[k]) == cells@[k] && r@[k] != '0'
            && r@[k] != '.',
{
    let mut out = String::new();
    for k in 0..81usize
        invariant
            complete_grid(cells@),
            out@.len() == k,
            forall|x: int| 0 <= x < k ==> out@[x] == digit_char(cells@[x]),
    {
        let v = cells[k];
        let c = crate::grid::digit_to_char(v);
        push_char(&mut out, c);
    }
    proof {
        assert(out@ =~= digits(cells@));
    }
    out
}

} // verus!
