use minesweeper::{Field, FieldError};

fn safe_field(width: usize, height: usize) -> Field {
    Field::with_bombs(width, height, vec![false; width * height]).unwrap()
}

#[test]
fn interior_cell_has_eight_neighbours_in_column_order() {
    let field = safe_field(5, 4);
    assert_eq!(
        field.surrounding_positions(2, 1),
        Ok(vec![(1, 0), (1, 1), (1, 2), (2, 0), (2, 2), (3, 0), (3, 1), (3, 2)])
    );
}

#[test]
fn corner_cells_have_three_neighbours() {
    let field = safe_field(5, 4);
    assert_eq!(field.surrounding_positions(0, 0), Ok(vec![(0, 1), (1, 0), (1, 1)]));
    assert_eq!(field.surrounding_positions(4, 0), Ok(vec![(3, 0), (3, 1), (4, 1)]));
    assert_eq!(field.surrounding_positions(0, 3), Ok(vec![(0, 2), (1, 2), (1, 3)]));
    assert_eq!(field.surrounding_positions(4, 3), Ok(vec![(3, 2), (3, 3), (4, 2)]));
}

#[test]
fn edge_cells_have_five_neighbours() {
    let field = safe_field(5, 4);
    assert_eq!(
        field.surrounding_positions(2, 0),
        Ok(vec![(1, 0), (1, 1), (2, 1), (3, 0), (3, 1)])
    );
    assert_eq!(
        field.surrounding_positions(0, 2),
        Ok(vec![(0, 1), (0, 3), (1, 1), (1, 2), (1, 3)])
    );
    assert_eq!(
        field.surrounding_positions(4, 1),
        Ok(vec![(3, 0), (3, 1), (3, 2), (4, 0), (4, 2)])
    );
    assert_eq!(
        field.surrounding_positions(3, 3),
        Ok(vec![(2, 2), (2, 3), (3, 2), (4, 2), (4, 3)])
    );
}

#[test]
fn single_cell_has_no_neighbour() {
    let field = safe_field(1, 1);
    assert_eq!(field.surrounding_positions(0, 0), Ok(vec![]));
}

#[test]
fn strip_cells_have_neighbours_along_the_strip_only() {
    let row = safe_field(4, 1);
    assert_eq!(row.surrounding_positions(0, 0), Ok(vec![(1, 0)]));
    assert_eq!(row.surrounding_positions(2, 0), Ok(vec![(1, 0), (3, 0)]));
    let column = safe_field(1, 4);
    assert_eq!(column.surrounding_positions(0, 3), Ok(vec![(0, 2)]));
    assert_eq!(column.surrounding_positions(0, 1), Ok(vec![(0, 0), (0, 2)]));
}

#[test]
fn neighbours_never_hold_the_cell_itself_nor_a_cell_twice() {
    let field = safe_field(4, 3);
    for y in 0..3 {
        for x in 0..4 {
            let around = field.surrounding_positions(x, y).unwrap();
            assert!(around.len() <= 8);
            for (k, &(nx, ny)) in around.iter().enumerate() {
                assert!(nx < 4 && ny < 3);
                assert!((nx, ny) != (x, y));
                assert!(nx.abs_diff(x) <= 1 && ny.abs_diff(y) <= 1);
                assert!(!around[..k].contains(&(nx, ny)));
            }
            let expected = (0..4usize)
                .flat_map(|nx| (0..3usize).map(move |ny| (nx, ny)))
                .filter(|&(nx, ny)| {
                    (nx, ny) != (x, y) && nx.abs_diff(x) <= 1 && ny.abs_diff(y) <= 1
                })
                .count();
            assert_eq!(around.len(), expected, "cell ({x}, {y})");
        }
    }
}

#[test]
fn count_agrees_with_the_bombs_among_the_neighbours() {
    let bombs = vec![
        true, false, false, true, false,
        false, false, true, false, false,
        false, true, false, false, true,
        true, false, false, false, false,
    ];
    let field = Field::with_bombs(5, 4, bombs).unwrap();
    for y in 0..4 {
        for x in 0..5 {
            let around = field.surrounding_positions(x, y).unwrap();
            let mut count = 0;
            for (nx, ny) in around {
                if field.bomb_at(nx, ny).unwrap() {
                    count += 1;
                }
            }
            assert_eq!(field.num_surrounding_bombs(x, y), Ok(count), "cell ({x}, {y})");
        }
    }
}

#[test]
fn queries_outside_the_field_are_turned_down() {
    let field = safe_field(3, 2);
    for (x, y) in [(3, 0), (0, 2), (3, 2), (7, 1), (1, 9), (usize::MAX, 0), (0, usize::MAX)] {
        assert_eq!(field.bomb_at(x, y), Err(FieldError::OutOfBounds), "({x}, {y})");
        assert_eq!(field.clicked_at(x, y), Err(FieldError::OutOfBounds), "({x}, {y})");
        assert_eq!(field.num_surrounding_bombs(x, y), Err(FieldError::OutOfBounds), "({x}, {y})");
        assert_eq!(field.surrounding_positions(x, y), Err(FieldError::OutOfBounds), "({x}, {y})");
    }
}

#[test]
fn queries_on_the_last_cell_are_answered() {
    let field = safe_field(3, 2);
    assert_eq!(field.bomb_at(2, 1), Ok(false));
    assert_eq!(field.clicked_at(2, 1), Ok(false));
    assert_eq!(field.num_surrounding_bombs(2, 1), Ok(0));
    assert_eq!(field.surrounding_positions(2, 1), Ok(vec![(1, 0), (1, 1), (2, 0)]));
}

#[test]
fn click_outside_the_field_is_turned_down_and_changes_nothing() {
    let mut field = safe_field(3, 2);
    for (x, y) in [(3, 0), (0, 2), (3, 2), (usize::MAX, usize::MAX)] {
        assert_eq!(field.click(x, y), Err(FieldError::OutOfBounds), "({x}, {y})");
    }
    for y in 0..2 {
        for x in 0..3 {
            assert_eq!(field.clicked_at(x, y), Ok(false));
            assert_eq!(field.bomb_at(x, y), Ok(false));
        }
    }
    assert!(!field.has_won());
}
