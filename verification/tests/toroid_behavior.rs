use congalife::Game;

#[test]
fn test_preserves_square_on_corner() {
    let start = vec![
        true, true, false,
        true, true, false,
        false, false, false,
    ];
    let game: Game = Game::from(start.clone());
    game.advance_toroidally();

    let new_game = game.get_current_read_lock();
    assert_eq!(*new_game.borrow(), start);
    new_game.release_read();
}

#[test]
fn test_x_pattern_around_edges() {
    let start = vec![
        true, false, true,
        false, true, false,
        true, false, true,
    ];
    let game: Game = Game::from(start.clone());
    game.advance_toroidally();

    let new_game = game.get_current_read_lock();
    assert_eq!(*new_game.borrow(), vec![
        false, false, false,
        false, false, false,
        false, false, false,
    ]);
    new_game.release_read();
}

#[test]
fn test_blinker() {
    let start = vec![
        false, false, false, false, false,
        false, false, false, false, false,
        false, true, true, true, false,
        false, false, false, false, false,
        false, false, false, false, false,
    ];
    let game: Game = Game::from(start);
    game.advance_toroidally();

    let new_game = game.get_current_read_lock();
    assert_eq!(*new_game.borrow(), vec![
        false, false, false, false, false,
        false, false, true, false, false,
        false, false, true, false, false,
        false, false, true, false, false,
        false, false, false, false, false,
    ]);
    new_game.release_read();
}

#[test]
fn test_glider() {
    let start = vec![
        false, false, false, false, false,
        false, false, true, false, false,
        false, false, false, true, false,
        false, true, true, true, false,
        false, false, false, false, false,
    ];
    let game: Game = Game::from(start);
    game.advance_toroidally();

    let new_game = game.get_current_read_lock();
    assert_eq!(*new_game.borrow(), vec![
        false, false, false, false, false,
        false, false, false, false, false,
        false, true, false, true, false,
        false, false, true, true, false,
        false, false, true, false, false,
    ]);
    new_game.release_read();
}

#[test]
fn test_glider_across_corner() {
    let start = vec![
        false, false, false, false, false,
        false, false, false, false, false,
        false, false, false, true, false,
        false, false, false, false, true,
        false, false, true, true, true,
    ];
    let game: Game = Game::from(start);

    game.advance_toroidally();
    let _next = {
        let new_game = game.get_current_read_lock();
        assert_eq!(*new_game.borrow(), vec![
            false, false, false, true, false,
            false, false, false, false, false,
            false, false, false, false, false,
            false, false, true, false, true,
            false, false, false, true, true,
        ]);
        new_game.release_read();
    };

    game.advance_toroidally();
    let _next = {
        let new_game = game.get_current_read_lock();
        assert_eq!(*new_game.borrow(), vec![
            false, false, false, true, true,
            false, false, false, false, false,
            false, false, false, false, false,
            false, false, false, false, true,
            false, false, true, false, true,
        ]);
        new_game.release_read();
    };

    game.advance_toroidally();
    let _next = {
        let new_game = game.get_current_read_lock();
        assert_eq!(*new_game.borrow(), vec![
            false, false, false, true, true,
            false, false, false, false, false,
            false, false, false, false, false,
            false, false, false, true, false,
            true, false, false, false, true,
        ]);
        new_game.release_read();
    };

    game.advance_toroidally();
    let _next = {
        let new_game = game.get_current_read_lock();
        assert_eq!(*new_game.borrow(), vec![
            true, false, false, true, true,
            false, false, false, false, false,
            false, false, false, false, false,
            false, false, false, false, true,
            true, false, false, false, false,
        ]);
        new_game.release_read();
    };
}
