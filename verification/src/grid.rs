//! Grid model: the 81-cell value sequence, the textual codec, and the
//! lexicographic order used to select the minimal candidate.

use vstd::prelude::*;

verus! {

/// A grid is a sequence of exactly 81 cell values, each in 0..=9
/// (0 marks an empty cell, 1..=9 a given digit).
pub open spec fn valid_grid(g: Seq<u8>) -> bool {
    &&& g.len() == 81
    &&& forall|k: int| 0 <= k < 81 ==> g[k] <= 9
}

/// Value of one input character: '0'..'9' map to their numeric value,
/// every other character (the blank marker included) maps to 0.
pub open spec fn digit_of(c: char) -> u8 {
    if c == '0' {
        0
    } else if c == '1' {
        1
    } else if c == '2' {
        2
    } else if c == '3' {
        3
    } else if c == '4' {
        4
    } else if c == '5' {
        5
    } else if c == '6' {
        6
    } else if c == '7' {
        7
    } else if c == '8' {
        8
    } else if c == '9' {
        9
    } else {
        0
    }
}

/// Cell values of a text, character by character.
pub open spec fn parse_grid(s: Seq<char>) -> Seq<u8> {
    Seq::new(s.len(), |k: int| digit_of(s[k]))
}

/// ASCII digit character of a cell value in 0..=9.
pub open spec fn digit_char(v: u8) -> char {
    if v == 0 {
        '0'
    } else if v == 1 {
        '1'
    } else if v == 2 {
        '2'
    } else if v == 3 {
        '3'
    } else if v == 4 {
        '4'
    } else if v == 5 {
        '5'
    } else if v == 6 {
        '6'
    } else if v == 7 {
        '7'
    } else if v == 8 {
        '8'
    } else {
        '9'
    }
}

/// Output character of a cell value: the blank marker for an empty
/// cell, the digit character otherwise.
pub open spec fn dot_char(v: u8) -> char {
    if v == 0 {
        '.'
    } else {
        digit_char(v)
    }
}

/// External form of a grid: digits for givens, '.' for empty cells.
pub open spec fn dotted(b: Seq<u8>) -> Seq<char> {
    Seq::new(b.len(), |k: int| dot_char(b[k]))
}

/// Internal (pre-substitution) digit string of a grid, where an empty
/// cell is the character '0'.
pub open spec fn digits(b: Seq<u8>) -> Seq<char> {
    Seq::new(b.len(), |k: int| digit_char(b[k]))
}

/// Strict lexicographic order on value sequences.
pub open spec fn lex_lt(a: Seq<u8>, b: Seq<u8>) -> bool
    decreases a.len(),
{
    if b.len() == 0 {
        false
    } else if a.len() == 0 {
        true
    } else if a[0] < b[0] {
        true
    } else if a[0] > b[0] {
        false
    } else {
        lex_lt(a.drop_first(), b.drop_first())
    }
}

/// Reflexive lexicographic order.
pub open spec fn lex_le(a: Seq<u8>, b: Seq<u8>) -> bool {
    lex_lt(a, b) || a == b
}

pub fn parse_digit(c: char) -> (v: u8)
    ensures
        v == digit_of(c),
        v <= 9,
{
    match c {
        '0' => 0,
        '1' => 1,
        '2' => 2,
        '3' => 3,
        '4' => 4,
        '5' => 5,
        '6' => 6,
        '7' => 7,
        '8' => 8,
        '9' => 9,
        _ => 0,
    }
}

pub fn digit_to_char(v: u8) -> (c: char)
    requires
        v <= 9,
    ensures
        c == digit_char(v),
{
    match v {
        0 => '0',
        1 => '1',
        2 => '2',
        3 => '3',
        4 => '4',
        5 => '5',
        6 => '6',
        7 => '7',
        8 => '8',
        _ => '9',
    }
}

pub fn value_to_output_char(v: u8) -> (c: char)
    requires
        v <= 9,
    ensures
        c == dot_char(v),
{
    if v == 0 {
        '.'
    } else {
        digit_to_char(v)
    }
}

/// Relies on `String::push`: appends exactly the given character.
#[verifier::external_body]
pub(crate) fn push_char(s: &mut String, c: char)
    ensures
        final(s)@ == old(s)@.push(c),
{
    s.push(c)
}

/// If two sequences agree on a prefix, their order is decided past it.
pub proof fn lemma_lex_skip(a: Seq<u8>, b: Seq<u8>, i: int)
    requires
        0 <= i <= a.len(),
        0 <= i <= b.len(),
        forall|j: int| 0 <= j < i ==> a[j] == b[j],
    ensures
        lex_lt(a, b) == lex_lt(a.skip(i), b.skip(i)),
    decreases i,
{
    if i > 0 {
        assert(a.len() > 0 && b.len() > 0);
        assert(a[0] == b[0]);
        lemma_lex_skip(a.drop_first(), b.drop_first(), i - 1);
        assert(a.drop_first().skip(i - 1) =~= a.skip(i));
        assert(b.drop_first().skip(i - 1) =~= b.skip(i));
    } else {
        assert(a.skip(0) =~= a);
        assert(b.skip(0) =~= b);
    }
}

/// The order is total on sequences of one length: antisymmetry comes
/// with it, so the minimal candidate is a unique value.
pub proof fn lemma_lex_total(a: Seq<u8>, b: Seq<u8>)
    requires
        a.len() == b.len(),
    ensures
        lex_lt(a, b) || lex_lt(b, a) || a == b,
        !(lex_lt(a, b) && lex_lt(b, a)),
    decreases a.len(),
{
    if a.len() > 0 {
        if a[0] == b[0] {
            lemma_lex_total(a.drop_first(), b.drop_first());
            if a.drop_first() == b.drop_first() {
                assert forall|k: int| 0 <= k < a.len() implies a[k] == b[k] by {
                    if k > 0 {
                        assert(a[k] == a.drop_first()[k - 1]);
                        assert(b[k] == b.drop_first()[k - 1]);
                    }
                }
                assert(a =~= b);
            }
        }
    }
}

pub fn lex_less(a: &Vec<u8>, b: &Vec<u8>) -> (r: bool)
    requires
        a@.len() == b@.len(),
    ensures
        r == lex_lt(a@, b@),
{
    let n = a.len();
    for i in 0..n
        invariant
            n == a@.len() == b@.len(),
            forall|j: int| 0 <= j < i ==> a@[j] == b@[j],
    {
        if a[i] < b[i] {
            proof {
                lemma_lex_skip(a@, b@, i as int);
            }
            return true;
        }
        if a[i] > b[i] {
            proof {
                lemma_lex_skip(a@, b@, i as int);
            }
            return false;
        }
    }
    proof {
        assert(a@ =~= b@);
        lemma_lex_total(a@, b@);
    }
    false
}

} // verus!
