use sudoku_minlex::{parse_givens, render_solution};

fn full_grid() -> Vec<u8> {
    // A complete valid Sudoku: row i, column j holds
    // (i * 3 + i / 3 + j) % 9 + 1.
    let mut cells: Vec<u8> = Vec::with_capacity(81);
    for i in 0..9usize {
        for j in 0..9usize {
            cells.push(((i * 3 + i / 3 + j) % 9 + 1) as u8);
        }
    }
    cells
}

#[test]
fn parse_givens_rejects_invalid_length() {
    assert!(parse_givens("").is_none());
    assert!(parse_givens("short").is_none());
    let eighty: String = std::iter::repeat('.').take(80).collect();
    assert!(parse_givens(&eighty).is_none());
}

#[test]
fn parse_givens_decodes_81_characters() {
    let text = format!("5.3x21{}", ".".repeat(75));
    let cells = parse_givens(&text).unwrap();
    assert_eq!(cells.len(), 81);
    assert_eq!(cells[0], 5);
    assert_eq!(cells[1], 0);
    assert_eq!(cells[2], 3);
    assert_eq!(cells[3], 0);
    assert_eq!(cells[4], 2);
    assert_eq!(cells[5], 1);
    assert!(cells[6..].iter().all(|v| *v == 0));
}

#[test]
fn render_solution_is_81_digits_without_blanks() {
    let cells = full_grid();
    let text = render_solution(&cells);
    assert_eq!(text.chars().count(), 81);
    assert!(text.chars().all(|c| ('1'..='9').contains(&c)));
    assert!(!text.contains('.'));
    assert!(!text.contains('0'));
}

#[test]
fn render_solution_round_trips_through_parse() {
    let cells = full_grid();
    let text = render_solution(&cells);
    let back = parse_givens(&text).unwrap();
    assert_eq!(back, cells);
}
