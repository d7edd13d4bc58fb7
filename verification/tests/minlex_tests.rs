use sudoku_minlex::canon::MinlexError;
use sudoku_minlex::grid::{lex_less, parse_digit};
use sudoku_minlex::minlex;
use sudoku_minlex::renumber::renumber;
use sudoku_minlex::transform::apply_transform;

const SAMPLE: &str =
    "..3.2.6..9..3.5..1..18.64....81.29..7.......8..67.82....26.95..8..2.3..9..5.1.3..";
const SAMPLE_CANON: &str =
    "..........123.456.3...7...845.8.9.72..8...4..23.4.7.517...9...3.417.528..........";

fn dots(n: usize) -> String {
    std::iter::repeat('.').take(n).collect()
}

#[test]
fn minlex_rejects_wrong_length() {
    assert_eq!(minlex(""), Err(MinlexError::InvalidLength));
    assert_eq!(minlex("short"), Err(MinlexError::InvalidLength));
    let too_long: String = dots(82);
    assert_eq!(minlex(&too_long), Err(MinlexError::InvalidLength));
    let too_short: String = dots(80);
    assert_eq!(minlex(&too_short), Err(MinlexError::InvalidLength));
}

#[test]
fn minlex_empty_grid_is_fixed_point() {
    let empty = dots(81);
    assert_eq!(minlex(&empty).unwrap(), empty);
}

#[test]
fn minlex_single_given_becomes_one_in_canonical_corner() {
    let input = format!("5{}", dots(80));
    let expected = format!("{}1", dots(80));
    assert_eq!(minlex(&input).unwrap(), expected);
}

#[test]
fn minlex_sample_grid() {
    assert_eq!(minlex(SAMPLE).unwrap(), SAMPLE_CANON);
}

#[test]
fn minlex_full_band_moves_to_last_row() {
    let input = format!("123456789{}", dots(72));
    let expected = format!("{}123456789", dots(72));
    assert_eq!(minlex(&input).unwrap(), expected);
}

#[test]
fn minlex_striped_columns() {
    let row = ".2.4.6.8.";
    let input: String = std::iter::repeat(row).take(9).collect();
    let expected = format!(
        "{}111111111222222222{}333333333444444444{}",
        dots(18),
        dots(9),
        dots(18)
    );
    assert_eq!(minlex(&input).unwrap(), expected);
}

#[test]
fn minlex_is_idempotent_on_sample() {
    let once = minlex(SAMPLE).unwrap();
    let twice = minlex(&once).unwrap();
    assert_eq!(twice, once);
}

#[test]
fn minlex_invariant_under_enumerated_transformation() {
    // SAMPLE transformed by square symmetry 5, slot ordering [2, 0, 1]
    // and the middle transposition; its canonical form must not change.
    let transformed =
        "46.2.9.35..1.8.9...........8.37.12.6.2.....1.6.58.23.9...........9.7.8..13.6.8.52";
    assert_eq!(minlex(transformed).unwrap(), minlex(SAMPLE).unwrap());
}

#[test]
fn minlex_invariant_under_digit_relabeling() {
    // Relabel every given digit v of SAMPLE as 10 - v.
    let relabeled: String = SAMPLE
        .chars()
        .map(|c| {
            if c.is_ascii_digit() && c != '0' {
                char::from_digit(10 - c.to_digit(10).unwrap(), 10).unwrap()
            } else {
                c
            }
        })
        .collect();
    assert_ne!(relabeled, SAMPLE);
    assert_eq!(minlex(&relabeled).unwrap(), minlex(SAMPLE).unwrap());
}

#[test]
fn minlex_output_at_most_renumbered_input() {
    // The identity transformation is among the 96 candidates, so the
    // pre-substitution digit string of the output is at most the
    // renumbered input's digit string.
    let mut cells = sudoku_minlex::parse_givens(SAMPLE).unwrap();
    renumber(&mut cells);
    let renumbered: String = cells
        .iter()
        .map(|v| char::from_digit(*v as u32, 10).unwrap())
        .collect();
    let canonical_pre: String = minlex(SAMPLE)
        .unwrap()
        .chars()
        .map(|c| if c == '.' { '0' } else { c })
        .collect();
    assert!(canonical_pre <= renumbered);
}

#[test]
fn minlex_blank_mapping_only_zeros_become_dots() {
    let out = minlex(SAMPLE).unwrap();
    assert_eq!(out.chars().count(), 81);
    assert!(out.chars().all(|c| c == '.' || ('1'..='9').contains(&c)));
    let givens_in = SAMPLE.chars().filter(|c| c.is_ascii_digit() && *c != '0').count();
    let givens_out = out.chars().filter(|c| c.is_ascii_digit()).count();
    assert_eq!(givens_out, givens_in);
}

#[test]
fn minlex_treats_unknown_characters_as_blanks() {
    let with_marks = format!("5xy?zabcd{}", dots(72));
    let with_dots = format!("5........{}", dots(72));
    assert_eq!(minlex(&with_marks).unwrap(), minlex(&with_dots).unwrap());
}

#[test]
fn minlex_uniform_grid_renumbers_to_ones() {
    let nines: String = std::iter::repeat('9').take(81).collect();
    let ones: String = std::iter::repeat('1').take(81).collect();
    assert_eq!(minlex(&nines).unwrap(), ones);
}

#[test]
fn minlex_zero_character_is_a_blank() {
    let with_zero = format!("50{}", dots(79));
    let with_dot = format!("5.{}", dots(79));
    assert_eq!(minlex(&with_zero).unwrap(), minlex(&with_dot).unwrap());
}

#[test]
fn parse_digit_maps_digits_and_blanks() {
    assert_eq!(parse_digit('0'), 0);
    assert_eq!(parse_digit('5'), 5);
    assert_eq!(parse_digit('9'), 9);
    assert_eq!(parse_digit('.'), 0);
    assert_eq!(parse_digit('x'), 0);
}

#[test]
fn renumber_assigns_by_first_appearance() {
    let mut cells: Vec<u8> = vec![0u8; 81];
    cells[0] = 7;
    cells[1] = 7;
    cells[2] = 3;
    cells[10] = 7;
    cells[11] = 9;
    renumber(&mut cells);
    assert_eq!(cells[0], 1);
    assert_eq!(cells[1], 1);
    assert_eq!(cells[2], 2);
    assert_eq!(cells[10], 1);
    assert_eq!(cells[11], 3);
    assert!(cells[12..].iter().all(|v| *v == 0));
}

#[test]
fn apply_transform_identity_keeps_grid() {
    let cells = sudoku_minlex::parse_givens(SAMPLE).unwrap();
    let sigma: Vec<usize> = vec![0, 1, 2];
    let out = apply_transform(&cells, 0, 0, &sigma, 0);
    assert_eq!(out, cells);
}

#[test]
fn apply_transform_half_turn_reverses_cells() {
    let cells = sudoku_minlex::parse_givens(SAMPLE).unwrap();
    let sigma: Vec<usize> = vec![0, 1, 2];
    let out = apply_transform(&cells, 3, 0, &sigma, 0);
    let reversed: Vec<u8> = cells.iter().rev().cloned().collect();
    assert_eq!(out, reversed);
}

#[test]
fn lex_less_compares_value_sequences() {
    assert!(lex_less(&vec![0u8, 1, 2], &vec![0u8, 2, 0]));
    assert!(!lex_less(&vec![0u8, 2, 0], &vec![0u8, 1, 2]));
    assert!(!lex_less(&vec![1u8, 2, 3], &vec![1u8, 2, 3]));
}
