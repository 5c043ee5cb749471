use game_of_life::conway::{CellLocation, Game};

/// Builds a `width` by `height` grid whose live cells are exactly `live`.
fn live_cells(width: usize, height: usize, live: &[(usize, usize)]) -> Game {
    let mut game = Game::new(width, height);
    for &(x, y) in live {
        game.set_state(CellLocation::new(x, y), true);
    }
    game
}

#[test]
fn game_should_be_resized_down() {
    let game = live_cells(
        4,
        4,
        &[(3, 0), (3, 1), (3, 2), (0, 3), (1, 3), (2, 3), (3, 3)],
    );

    let game = game.resize(3, 3);

    assert_eq!(3, game.height());
    assert_eq!(3, game.width());
    for i in 0..3 {
        assert!(!game.is_alive(CellLocation::new(i, 2)));
    }
    for i in 0..3 {
        assert!(!game.is_alive(CellLocation::new(2, i)));
    }
}

#[test]
fn game_should_be_resized_up() {
    let game = live_cells(
        4,
        4,
        &[(3, 0), (3, 1), (3, 2), (0, 3), (1, 3), (2, 3), (3, 3)],
    );

    let game = game.resize(5, 5);

    assert_eq!(5, game.height());
    assert_eq!(5, game.width());
    for i in 0..5 {
        assert!(!game.is_alive(CellLocation::new(i, 4)));
    }
    for i in 0..5 {
        assert!(!game.is_alive(CellLocation::new(4, i)));
    }
}

#[test]
fn adjacent_cells_should_be_returned_in_a_vec() {
    let game = live_cells(4, 4, &[(0, 0), (0, 1), (0, 2), (0, 3)]);
    let adj_cells: Vec<CellLocation> = game.adjacent_cells(CellLocation::new(3, 3));

    assert_eq!(9, adj_cells.len());

    let expected_cells = vec![
        (2, 2),
        (3, 2),
        (0, 2),
        (2, 3),
        (3, 3),
        (0, 3),
        (2, 0),
        (3, 0),
        (0, 0),
    ]
    .iter()
    .map(|&(x, y)| CellLocation::new(x, y))
    .collect::<Vec<CellLocation>>();

    assert_eq!(expected_cells, adj_cells);
}

#[test]
fn new_game_should_create_game_of_given_size() {
    let game: Game = Game::new(8, 12);

    assert_eq!(12, game.height());
    assert_eq!(8, game.width());
}

#[test]
fn should_be_able_to_get_and_set_cell_state() {
    let mut game = Game::new(10, 10);

    let cell = CellLocation::new(0, 0);
    assert_eq!(false, game.is_alive(cell));

    game.set_state(cell, true);
    assert_eq!(true, game.is_alive(cell));
}

#[test]
fn game_should_kill_a_cell_with_fewer_than_2_adjacent_live_neighbors() {
    let game = live_cells(3, 3, &[(1, 1), (1, 2)]);
    let game = game.update();

    // All cells should now be dead
    for cell in game.locations() {
        assert!(!game.is_alive(cell));
    }
}

#[test]
fn game_should_wrap_around_at_edges() {
    let game = live_cells(4, 4, &[(0, 0), (0, 1), (0, 3)]);
    let game = game.update();
    assert!(game.is_alive(CellLocation::new(0, 0)));
    assert!(game.is_alive(CellLocation::new(1, 0)));
    assert!(game.is_alive(CellLocation::new(3, 0)));
    assert!(!game.is_alive(CellLocation::new(0, 1)));
    assert!(!game.is_alive(CellLocation::new(0, 3)));
}

#[test]
fn game_should_keep_cells_with_two_or_three_live_neighbors() {
    let game = live_cells(4, 4, &[(0, 0), (0, 1), (1, 1), (1, 2)]);
    let game = game.update();
    assert!(game.is_alive(CellLocation::new(0, 0)));
    assert!(game.is_alive(CellLocation::new(0, 1)));
    assert!(game.is_alive(CellLocation::new(1, 1)));
    assert!(game.is_alive(CellLocation::new(1, 2)));
}

#[test]
fn game_should_kill_cells_with_more_than_three_live_neighbors() {
    let game = live_cells(3, 3, &[(0, 0), (1, 0), (0, 1), (1, 1), (1, 2)]);
    let game = game.update();

    for cell in game.locations() {
        assert!(!game.is_alive(cell));
    }
}

#[test]
fn game_should_create_life_at_dead_cells_with_three_live_neighbors() {
    let game = live_cells(3, 3, &[(1, 0), (0, 1), (1, 2)]);
    let game = game.update();
    assert!(game.is_alive(CellLocation::new(1, 1)));
}

#[test]
fn neighbor_count_is_eight_on_fully_alive_grid() {
    let mut game = Game::new(3, 3);
    for cell in game.locations() {
        game.set_state(cell, true);
    }
    // Center cell: eight distinct live neighbors.
    assert_eq!(8, game.count_adjacent_live(CellLocation::new(1, 1)));
    // Corner cell: with wrap-around the count is the same.
    assert_eq!(8, game.count_adjacent_live(CellLocation::new(0, 0)));
}

#[test]
fn neighbor_positions_count_per_offset_on_tiny_grid() {
    // On a 1-by-1 grid all eight neighbor offsets wrap back to the one
    // cell; each offset position counts, so a live lone cell sees eight
    // live neighbors and dies of overpopulation.
    let game = live_cells(1, 1, &[(0, 0)]);
    assert_eq!(8, game.count_adjacent_live(CellLocation::new(0, 0)));
    let game = game.update();
    assert!(!game.is_alive(CellLocation::new(0, 0)));
}

#[test]
fn update_does_not_mutate_source() {
    let game = live_cells(4, 4, &[(0, 0), (0, 1), (1, 1), (1, 2)]);
    let before: Vec<bool> = game.locations().iter().map(|&c| game.is_alive(c)).collect();
    let _next = game.update();
    let after: Vec<bool> = game.locations().iter().map(|&c| game.is_alive(c)).collect();
    assert_eq!(before, after);
}

#[test]
fn resize_does_not_mutate_source() {
    let game = live_cells(3, 3, &[(1, 0), (2, 2)]);
    let _bigger = game.resize(5, 5);
    assert_eq!(3, game.width());
    assert_eq!(3, game.height());
    assert!(game.is_alive(CellLocation::new(1, 0)));
    assert!(game.is_alive(CellLocation::new(2, 2)));
}

#[test]
fn resize_preserves_overlapping_live_cells() {
    let game = live_cells(4, 3, &[(0, 0), (2, 1), (3, 2), (1, 2)]);

    let shrunk = game.resize(3, 2);
    for y in 0..2 {
        for x in 0..3 {
            let cell = CellLocation::new(x, y);
            assert_eq!(game.is_alive(cell), shrunk.is_alive(cell));
        }
    }

    let grown = game.resize(6, 5);
    for y in 0..3 {
        for x in 0..4 {
            let cell = CellLocation::new(x, y);
            assert_eq!(game.is_alive(cell), grown.is_alive(cell));
        }
    }
    for cell in grown.locations() {
        if cell.x >= 4 || cell.y >= 3 {
            assert!(!grown.is_alive(cell));
        }
    }
}

#[test]
fn locations_are_row_major() {
    let game = Game::new(2, 3);
    let locations = game.locations();
    let expected = vec![(0, 0), (1, 0), (0, 1), (1, 1), (0, 2), (1, 2)]
        .iter()
        .map(|&(x, y)| CellLocation::new(x, y))
        .collect::<Vec<CellLocation>>();
    assert_eq!(expected, locations);
}

#[test]
fn degenerate_grids_have_no_locations() {
    let empty = Game::new(0, 0);
    assert_eq!(0, empty.width());
    assert_eq!(0, empty.height());
    assert!(empty.locations().is_empty());

    let no_rows = Game::new(7, 0);
    assert_eq!(7, no_rows.width());
    assert_eq!(0, no_rows.height());
    assert!(no_rows.locations().is_empty());
    assert!(!no_rows.contains(CellLocation::new(0, 0)));

    let no_columns = Game::new(0, 7);
    assert_eq!(0, no_columns.width());
    assert_eq!(7, no_columns.height());
    assert!(no_columns.locations().is_empty());

    // Updating or resizing a degenerate grid is harmless.
    let updated = no_rows.update();
    assert_eq!(7, updated.width());
    assert_eq!(0, updated.height());
    let resized = empty.resize(2, 2);
    assert_eq!(2, resized.width());
    assert_eq!(2, resized.height());
    assert!(!resized.is_alive(CellLocation::new(1, 1)));
}

#[test]
fn contains_matches_dimensions() {
    let game = Game::new(3, 2);
    assert!(game.contains(CellLocation::new(0, 0)));
    assert!(game.contains(CellLocation::new(2, 1)));
    assert!(!game.contains(CellLocation::new(3, 1)));
    assert!(!game.contains(CellLocation::new(2, 2)));
}

#[test]
fn still_life_survives_updates() {
    // A 2-by-2 block on a large enough grid is a still life: every live
    // cell has three live neighbors, every dead cell at most two.
    let game = live_cells(5, 5, &[(1, 1), (2, 1), (1, 2), (2, 2)]);
    let game = game.update();
    assert!(game.is_alive(CellLocation::new(1, 1)));
    assert!(game.is_alive(CellLocation::new(2, 1)));
    assert!(game.is_alive(CellLocation::new(1, 2)));
    assert!(game.is_alive(CellLocation::new(2, 2)));
    for cell in game.locations() {
        if !(1..=2).contains(&cell.x) || !(1..=2).contains(&cell.y) {
            assert!(!game.is_alive(cell));
        }
    }
}
