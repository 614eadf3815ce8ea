use minesweeper::{Field, FieldError};

/// Reads a layout drawn row by row, `*` for a bomb and `.` for a safe cell.
fn field_from(rows: &[&str]) -> Field {
    let height = rows.len();
    let width = rows[0].len();
    let mut bombs = Vec::new();
    for row in rows {
        assert_eq!(row.len(), width);
        for ch in row.chars() {
            bombs.push(ch == '*');
        }
    }
    Field::with_bombs(width, height, bombs).unwrap()
}

fn uncovered(field: &Field) -> Vec<(usize, usize)> {
    let size = field.size();
    let mut cells = Vec::new();
    for y in 0..size.1 {
        for x in 0..size.0 {
            if field.clicked_at(x, y).unwrap() {
                cells.push((x, y));
            }
        }
    }
    cells
}

fn two_corner_bombs() -> Field {
    field_from(&["..*", "...", "*.."])
}

#[test]
fn centre_between_two_bombs_counts_two() {
    let field = two_corner_bombs();
    assert_eq!(field.bomb_at(2, 0), Ok(true));
    assert_eq!(field.bomb_at(0, 2), Ok(true));
    assert_eq!(field.num_surrounding_bombs(1, 1), Ok(2));
}

#[test]
fn counts_of_every_cell_between_two_bombs() {
    let field = two_corner_bombs();
    let expected = [[0, 1, 0], [1, 2, 1], [0, 1, 0]];
    for y in 0..3 {
        for x in 0..3 {
            assert_eq!(field.num_surrounding_bombs(x, y), Ok(expected[y][x]), "cell ({x}, {y})");
        }
    }
}

#[test]
fn click_on_numbered_centre_uncovers_only_the_centre() {
    let mut field = two_corner_bombs();
    assert_eq!(field.click(1, 1), Ok(()));
    assert_eq!(uncovered(&field), vec![(1, 1)]);
    assert_eq!(field.bomb_at(1, 1), Ok(false));
    assert!(!field.has_won());
}

#[test]
fn click_on_corner_of_safe_grid_uncovers_all_nine() {
    let mut field = field_from(&["...", "...", "..."]);
    assert_eq!(field.click(0, 0), Ok(()));
    assert_eq!(
        uncovered(&field),
        vec![(0, 0), (1, 0), (2, 0), (0, 1), (1, 1), (2, 1), (0, 2), (1, 2), (2, 2)]
    );
}

#[test]
fn click_on_bomb_uncovers_only_the_bomb() {
    let mut field = two_corner_bombs();
    assert_eq!(field.click(2, 0), Ok(()));
    assert_eq!(uncovered(&field), vec![(2, 0)]);
    assert_eq!(field.bomb_at(2, 0), Ok(true));
}

#[test]
fn safe_grid_is_won_after_one_click() {
    let mut field = field_from(&["...", "...", "..."]);
    assert!(!field.has_won());
    field.click(0, 0).unwrap();
    assert!(field.has_won());
}

#[test]
fn cascade_from_empty_corner_stops_at_the_numbers() {
    let mut field = two_corner_bombs();
    field.click(0, 0).unwrap();
    assert_eq!(uncovered(&field), vec![(0, 0), (1, 0), (0, 1), (1, 1)]);
    let mut field = two_corner_bombs();
    field.click(2, 2).unwrap();
    assert_eq!(uncovered(&field), vec![(1, 1), (2, 1), (1, 2), (2, 2)]);
}

#[test]
fn cascade_runs_through_a_corridor_and_shows_its_border() {
    let mut field = field_from(&[
        ".....*",
        "......",
        "**....",
        "......",
        "....*.",
    ]);
    field.click(3, 0).unwrap();
    // The cells without a bomb on or around them are (0,0) to (3,0), (3,1),
    // (3,2), (4,2) and (5,2); around them lie numbers.
    assert_eq!(
        uncovered(&field),
        vec![
            (0, 0), (1, 0), (2, 0), (3, 0), (4, 0),
            (0, 1), (1, 1), (2, 1), (3, 1), (4, 1), (5, 1),
            (2, 2), (3, 2), (4, 2), (5, 2),
            (2, 3), (3, 3), (4, 3), (5, 3),
        ]
    );
    assert_eq!(field.num_surrounding_bombs(0, 1), Ok(2));
    assert_eq!(field.num_surrounding_bombs(4, 0), Ok(1));
    assert_eq!(field.num_surrounding_bombs(5, 2), Ok(0));
    assert!(!field.has_won());
    assert_eq!(field.bomb_at(3, 0), Ok(false));
}

#[test]
fn bombs_are_laid_out_row_by_row() {
    // Four columns, two rows: the flag of (x, y) sits at index y * 4 + x.
    let mut bombs = vec![false; 8];
    bombs[1 * 4 + 2] = true;
    bombs[0 * 4 + 3] = true;
    let field = Field::with_bombs(4, 2, bombs).unwrap();
    for y in 0..2 {
        for x in 0..4 {
            let expected = (x, y) == (2, 1) || (x, y) == (3, 0);
            assert_eq!(field.bomb_at(x, y), Ok(expected), "cell ({x}, {y})");
        }
    }
    assert_eq!(field.bomb_at(1, 2), Err(FieldError::OutOfBounds));
    assert_eq!(field.bomb_at(4, 0), Err(FieldError::OutOfBounds));
}

#[test]
fn size_is_width_then_height() {
    let field = field_from(&["....", "....", "...."]);
    let size = field.size();
    assert_eq!(size.0, 4);
    assert_eq!(size.1, 3);
}

#[test]
fn fresh_field_has_nothing_uncovered() {
    let field = two_corner_bombs();
    assert_eq!(uncovered(&field), vec![]);
    assert!(!field.has_won());
}

#[test]
fn single_safe_cell_is_won_by_its_click() {
    let mut field = field_from(&["."]);
    assert_eq!(field.num_surrounding_bombs(0, 0), Ok(0));
    assert!(!field.has_won());
    field.click(0, 0).unwrap();
    assert!(field.has_won());
}

#[test]
fn cell_ringed_by_bombs_counts_eight() {
    let field = field_from(&["***", "*.*", "***"]);
    assert_eq!(field.num_surrounding_bombs(1, 1), Ok(8));
    assert_eq!(field.num_surrounding_bombs(0, 0), Ok(2));
    assert_eq!(field.num_surrounding_bombs(1, 0), Ok(4));
}

#[test]
fn bomb_does_not_count_itself() {
    let field = field_from(&["...", ".*.", "..."]);
    assert_eq!(field.num_surrounding_bombs(1, 1), Ok(0));
    assert_eq!(field.num_surrounding_bombs(0, 0), Ok(1));
}

#[test]
fn uncovering_everything_wins_even_over_a_bomb() {
    let mut field = field_from(&["*."]);
    field.click(1, 0).unwrap();
    assert!(!field.has_won());
    field.click(0, 0).unwrap();
    assert!(field.has_won());
    assert_eq!(field.bomb_at(0, 0), Ok(true));
}

#[test]
fn field_needs_one_flag_for_each_cell() {
    assert!(Field::with_bombs(3, 2, vec![false; 6]).is_some());
    assert!(Field::with_bombs(3, 2, vec![false; 5]).is_none());
    assert!(Field::with_bombs(3, 2, vec![false; 7]).is_none());
    assert!(Field::with_bombs(3, 2, vec![]).is_none());
    assert!(Field::with_bombs(1, 1, vec![true]).is_some());
}

#[test]
fn field_needs_both_sides_above_zero() {
    assert!(Field::with_bombs(0, 4, vec![]).is_none());
    assert!(Field::with_bombs(4, 0, vec![]).is_none());
    assert!(Field::with_bombs(0, 0, vec![]).is_none());
}

#[test]
fn field_too_large_to_index_is_turned_down() {
    assert!(Field::with_bombs(usize::MAX, 2, vec![]).is_none());
    assert!(Field::with_bombs(usize::MAX, 2, vec![false; 2]).is_none());
    assert!(Field::with_bombs(usize::MAX / 2 + 1, 2, vec![]).is_none());
}
