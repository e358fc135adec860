use flip_solver::{constraints_from_board, random_board, random_game, Game, GCell, Grid};

#[test]
fn random_board_has_25_values_from_zero_to_three() {
    for _ in 0..50 {
        let board = random_board();
        assert_eq!(board.len(), 25);
        assert!(board.iter().all(|v| *v <= 3));
    }
}

#[test]
fn random_boards_differ() {
    let first = random_board();
    let mut differs = false;
    for _ in 0..20 {
        if random_board() != first {
            differs = true;
        }
    }
    assert!(differs);
}

#[test]
fn random_boards_use_every_value() {
    let mut seen = [false; 4];
    for _ in 0..40 {
        for v in random_board() {
            seen[v as usize] = true;
        }
    }
    assert_eq!(seen, [true; 4]);
}

#[test]
fn random_board_is_an_answer_to_its_own_puzzle() {
    for _ in 0..10 {
        let board = random_board();
        let game = Game::new(constraints_from_board(board.clone())).simplify_complete();
        for r in 0..5 {
            for c in 0..5 {
                assert!(game.grid().cell(r, c).has(board[5 * r + c]));
            }
        }
    }
}

#[test]
fn random_game_is_fresh_and_has_an_answer() {
    for _ in 0..10 {
        let game = random_game();
        assert_eq!(game.grid(), &Grid::new());
        assert_eq!(game.constraints().len(), 10);
        let rows: u32 = game.constraints()[..5].iter().map(|c| c.sum as u32).sum();
        let cols: u32 = game.constraints()[5..].iter().map(|c| c.sum as u32).sum();
        assert_eq!(rows, cols);
        assert!(game.constraints().iter().all(|c| c.sum <= 15 && c.zeros <= 5));
        let fixed = game.simplify_complete();
        for r in 0..5 {
            for c in 0..5 {
                assert_ne!(fixed.grid().cell(r, c), GCell::empty());
            }
        }
    }
}
