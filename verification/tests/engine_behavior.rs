use congalife::grid::{count_neighbors, count_neighbors_toroidally, next_board};
use congalife::rule::calculate_next_state;
use congalife::Game;

#[test]
fn test_transition_table_exhaustive() {
    for count in 0u8..=8 {
        let from_dead = calculate_next_state(false, count);
        assert_eq!(from_dead, count == 3, "dead cell with {} neighbors", count);
        let from_alive = calculate_next_state(true, count);
        assert_eq!(from_alive, count == 2 || count == 3, "live cell with {} neighbors", count);
    }
}

#[test]
fn test_neighbor_position_counts() {
    let all_alive_3 = vec![true; 9];
    // Clipped: a corner reaches 3 real positions, a non-corner edge 5.
    assert_eq!(count_neighbors(&all_alive_3, 3, 0, 0), 3);
    assert_eq!(count_neighbors(&all_alive_3, 3, 2, 2), 3);
    assert_eq!(count_neighbors(&all_alive_3, 3, 1, 0), 5);
    assert_eq!(count_neighbors(&all_alive_3, 3, 0, 1), 5);
    // Clipped: an interior cell reaches all 8.
    let all_alive_5 = vec![true; 25];
    assert_eq!(count_neighbors(&all_alive_5, 5, 2, 2), 8);
    // Toroidal: every cell, corners included, reaches 8 real positions.
    assert_eq!(count_neighbors_toroidally(&all_alive_3, 3, 0, 0), 8);
    assert_eq!(count_neighbors_toroidally(&all_alive_3, 3, 2, 0), 8);
    assert_eq!(count_neighbors_toroidally(&all_alive_3, 3, 1, 1), 8);
    assert_eq!(count_neighbors_toroidally(&all_alive_5, 5, 4, 4), 8);
}

#[test]
fn test_block_still_life_clipped() {
    let start = vec![
        true, true, false,
        true, true, false,
        false, false, false,
    ];
    let game = Game::from(start.clone());
    game.advance();
    assert_eq!(game.snapshot(), start);
}

#[test]
fn test_blinker_full_cycle() {
    let horizontal = vec![
        false, false, false, false, false,
        false, false, false, false, false,
        false, true, true, true, false,
        false, false, false, false, false,
        false, false, false, false, false,
    ];
    let vertical = vec![
        false, false, false, false, false,
        false, false, true, false, false,
        false, false, true, false, false,
        false, false, true, false, false,
        false, false, false, false, false,
    ];
    let game = Game::from(horizontal.clone());
    game.advance_toroidally();
    assert_eq!(game.snapshot(), vertical);
    game.advance_toroidally();
    assert_eq!(game.snapshot(), horizontal);
}

#[test]
fn test_two_advances_match_direct_two_generations_toroidal() {
    let start = vec![
        false, false, false, false, false,
        false, false, true, false, false,
        false, false, false, true, false,
        false, true, true, true, false,
        false, false, false, false, false,
    ];
    let expected = next_board(&next_board(&start, 5, true), 5, true);
    let game = Game::from(start);
    game.advance_toroidally();
    game.advance_toroidally();
    assert_eq!(game.snapshot(), expected);
}

#[test]
fn test_two_advances_match_direct_two_generations_clipped() {
    let start = vec![
        true, false, true, false,
        false, true, true, false,
        true, false, false, true,
        false, true, false, true,
    ];
    let expected = next_board(&next_board(&start, 4, false), 4, false);
    let game = Game::from(start);
    game.advance();
    game.advance();
    assert_eq!(game.snapshot(), expected);
}

#[test]
fn test_size_invariant_across_advances() {
    let game = Game::new(7, 2_000_000_000);
    assert_eq!(game.size(), 7);
    for _ in 0..5 {
        game.advance();
        assert_eq!(game.size(), 7);
    }
    for _ in 0..5 {
        game.advance_toroidally();
        assert_eq!(game.size(), 7);
    }

    let preset_game = Game::from(vec![false; 9]);
    assert_eq!(preset_game.size(), 3);
    preset_game.advance_toroidally();
    assert_eq!(preset_game.size(), 3);
}

#[test]
fn test_new_with_zero_probability_is_all_dead() {
    let game = Game::new(4, 0);
    assert_eq!(game.size(), 4);
    assert_eq!(game.snapshot(), vec![false; 16]);
    game.advance();
    assert_eq!(game.snapshot(), vec![false; 16]);
}

#[test]
fn test_snapshot_returns_preset() {
    let start = vec![
        true, false, true,
        false, true, false,
        true, false, true,
    ];
    let game = Game::from(start.clone());
    assert_eq!(game.snapshot(), start);
    assert_eq!(game.size(), 3);
}

#[test]
fn test_clone_shares_one_board() {
    let start = vec![
        false, false, false, false, false,
        false, false, false, false, false,
        false, true, true, true, false,
        false, false, false, false, false,
        false, false, false, false, false,
    ];
    let expected = next_board(&start, 5, true);
    let game = Game::from(start);
    let other = game.clone();
    other.advance_toroidally();
    // The clone advanced the same board that the first handle reads.
    assert_eq!(game.snapshot(), expected);
    assert_eq!(other.snapshot(), game.snapshot());
}

#[test]
fn test_toroidal_step_commutes_with_translation() {
    let glider = vec![
        false, false, false, false, false,
        false, false, true, false, false,
        false, false, false, true, false,
        false, true, true, true, false,
        false, false, false, false, false,
    ];
    let shift = |b: &Vec<bool>, dx: usize, dy: usize| -> Vec<bool> {
        let mut out = vec![false; 25];
        for y in 0..5 {
            for x in 0..5 {
                out[((y + dy) % 5) * 5 + (x + dx) % 5] = b[y * 5 + x];
            }
        }
        out
    };
    for (dx, dy) in [(1, 0), (0, 3), (2, 4), (4, 4)] {
        let stepped_then_shifted = shift(&next_board(&glider, 5, true), dx, dy);
        let shifted_then_stepped = next_board(&shift(&glider, dx, dy), 5, true);
        assert_eq!(shifted_then_stepped, stepped_then_shifted);
    }
}
