use flip_solver::{Advice, Constraint, GCell, Game, Grid, Turn};

fn sample() -> Game {
    let list: Vec<u8> = vec![7, 1, 5, 1, 4, 2, 7, 0, 7, 1, 8, 1, 6, 0, 8, 0, 6, 1, 2, 3];
    Game::new(Constraint::from_list(list).unwrap())
}

fn uniform(sum: u8, zeros: u8) -> Game {
    Game::new(vec![Constraint::new(sum, zeros); 10])
}

fn grid_text(grid: &Grid) -> String {
    let mut lines = Vec::new();
    let bar = String::from("----------------");
    for i in 0..5 {
        lines.push(bar.clone());
        let mut line1 = String::new();
        let mut line2 = String::new();
        for elem in grid.row(i) {
            line1.push('|');
            line2.push('|');
            line1.push(if elem.has(0) { '0' } else { ' ' });
            line1.push(if elem.has(1) { '1' } else { ' ' });
            line2.push(if elem.has(2) { '2' } else { ' ' });
            line2.push(if elem.has(3) { '3' } else { ' ' });
        }
        line1.push('|');
        line2.push('|');
        lines.push(line1);
        lines.push(line2);
    }
    lines.push(bar);
    lines.join("\n")
}

fn game_text(game: &Game) -> String {
    let constraints = game.constraints();
    let mut lines = Vec::new();
    let bar = String::from("------------------");
    for i in 0..5 {
        lines.push(bar.clone());
        let mut line1 = String::new();
        let mut line2 = String::new();
        for elem in game.grid().row(i) {
            line1.push('|');
            line2.push('|');
            line1.push(if elem.has(0) { '0' } else { ' ' });
            line1.push(if elem.has(1) { '1' } else { ' ' });
            line2.push(if elem.has(2) { '2' } else { ' ' });
            line2.push(if elem.has(3) { '3' } else { ' ' });
        }
        lines.push(format!("{}|{:2}", line1, constraints[i].sum));
        lines.push(format!("{}|{:2}", line2, constraints[i].zeros));
    }
    lines.push(bar);
    let mut line1 = String::new();
    let mut line2 = String::new();
    for i in 0..5 {
        line1 = format!("{}|{:2}", line1, constraints[i + 5].sum);
        line2 = format!("{}|{:2}", line2, constraints[i + 5].zeros);
    }
    line1.push('|');
    line2.push('|');
    lines.push(line1);
    lines.push(line2);
    lines.join("\n")
}

#[test]
fn fresh_grid_as_text() {
    let row = "----------------\n|01|01|01|01|01|\n|23|23|23|23|23|\n";
    let want = format!("{row}{row}{row}{row}{row}----------------");
    assert_eq!(Grid::new().render(), want);
}

#[test]
fn narrowed_grid_as_text() {
    let grid = Grid::new().set(0, 0, 0).set(0, 1, 1).set(0, 2, 2).set(0, 3, 3).set(4, 4, 2);
    let open = "----------------\n|01|01|01|01|01|\n|23|23|23|23|23|\n";
    let first = "----------------\n|0 | 1|  |  |01|\n|  |  |2 | 3|23|\n";
    let last = "----------------\n|01|01|01|01|  |\n|23|23|23|23|2 |\n";
    let want = format!("{first}{open}{open}{open}{last}----------------");
    assert_eq!(grid.render(), want);
    assert_eq!(grid.render(), grid_text(&grid));
}

#[test]
fn empty_grid_as_text() {
    let grid = Grid::from_cells(vec![GCell::empty(); 25]);
    let row = "----------------\n|  |  |  |  |  |\n|  |  |  |  |  |\n";
    assert_eq!(grid.render(), format!("{row}{row}{row}{row}{row}----------------"));
}

#[test]
fn fresh_game_as_text() {
    let want = "------------------\n\
                |01|01|01|01|01| 7\n\
                |23|23|23|23|23| 1\n\
                ------------------\n\
                |01|01|01|01|01| 5\n\
                |23|23|23|23|23| 1\n\
                ------------------\n\
                |01|01|01|01|01| 4\n\
                |23|23|23|23|23| 2\n\
                ------------------\n\
                |01|01|01|01|01| 7\n\
                |23|23|23|23|23| 0\n\
                ------------------\n\
                |01|01|01|01|01| 7\n\
                |23|23|23|23|23| 1\n\
                ------------------\n\
                | 8| 6| 8| 6| 2|\n\
                | 1| 0| 0| 1| 3|";
    assert_eq!(sample().render(), want);
}

#[test]
fn game_text_pads_numbers_to_two_places() {
    let list: Vec<u8> = vec![0, 9, 10, 99, 100, 255, 12, 5, 7, 200, 1, 2, 30, 40, 101, 110, 250, 0, 9, 19];
    let game = Game::new(Constraint::from_list(list).unwrap());
    let text = game.render();
    assert_eq!(text, game_text(&game));
    let lines: Vec<&str> = text.lines().collect();
    assert_eq!(lines.len(), 18);
    assert_eq!(lines[1], "|01|01|01|01|01| 0");
    assert_eq!(lines[2], "|23|23|23|23|23| 9");
    assert_eq!(lines[4], "|01|01|01|01|01|10");
    assert_eq!(lines[5], "|23|23|23|23|23|99");
    assert_eq!(lines[7], "|01|01|01|01|01|100");
    assert_eq!(lines[8], "|23|23|23|23|23|255");
    assert_eq!(lines[16], "| 1|30|101|250| 9|");
    assert_eq!(lines[17], "| 2|40|110| 0|19|");
}

#[test]
fn games_in_play_as_text() {
    let mut game = sample().simplify();
    for mv in [(0, 0, 0), (1, 1, 1), (2, 3, 0), (4, 4, 0), (3, 0, 3)] {
        assert_eq!(game.render(), game_text(&game));
        assert_eq!(game.grid().render(), grid_text(game.grid()));
        game = game.set(mv.0, mv.1, mv.2).simplify_complete();
    }
    assert_eq!(game.render(), game_text(&game));
}

#[test]
fn advice_for_a_won_game() {
    assert_eq!(uniform(0, 5).simplify().advise(), Advice::Completed);
    let mut cons = vec![Constraint::new(1, 4); 5];
    cons.extend(vec![Constraint::new(1, 4); 5]);
    assert_eq!(Game::new(cons).simplify().advise(), Advice::Completed);
}

#[test]
fn advice_names_the_safe_cells() {
    let game = uniform(7, 0).simplify();
    let all: Vec<(usize, usize)> = (0..25).map(|k| (k / 5, k % 5)).collect();
    assert_eq!(game.advise(), Advice::Safe(all.clone()));
    assert_eq!(game.advise(), Advice::Safe(game.safe()));
    let after = game.set(0, 0, 3).set(2, 2, 3);
    let want: Vec<(usize, usize)> =
        all.into_iter().filter(|p| *p != (0, 0) && *p != (2, 2)).collect();
    assert_eq!(after.advise(), Advice::Safe(want));
}

#[test]
fn advice_without_safe_cells_lists_the_open_cells() {
    let game = sample();
    assert_eq!(game.advise(), Advice::Choices(game.approximate_odds()));
    let fixed = uniform(2, 4).simplify_complete().set(0, 0, 2).simplify_complete();
    assert!(fixed.safe().is_empty());
    assert!(!fixed.grid().complete());
    let want: Vec<(usize, usize, [u128; 4])> = fixed
        .approximate_odds()
        .into_iter()
        .filter(|item| !fixed.grid().cell(item.0, item.1).is_known())
        .collect();
    assert_eq!(want.len(), 16);
    assert_eq!(want[0], (1, 1, [9, 0, 1, 0]));
    assert_eq!(fixed.advise(), Advice::Choices(want));
}

#[test]
fn advice_prefers_won_over_safe() {
    let game = uniform(0, 0).simplify();
    assert_eq!(game.safe().len(), 25);
    assert_eq!(game.advise(), Advice::Completed);
}

#[test]
fn reply_that_ends_the_game() {
    let game = sample();
    assert_eq!(game.play("q"), Turn::Exit);
    assert_eq!(game.play("quit"), Turn::Exit);
    assert_eq!(game.play("  quit \n"), Turn::Exit);
}

#[test]
fn reply_that_is_a_move() {
    let game = sample().simplify();
    assert_eq!(game.play("0, 0, 0"), Turn::Moved(game.set(0, 0, 0).simplify_complete()));
    assert_eq!(game.play("4,2,2\n"), Turn::Moved(game.set(4, 2, 2).simplify_complete()));
    match game.play("0,0,0") {
        Turn::Moved(next) => {
            assert_ne!(next, game);
            assert_eq!(next.simplify(), next);
            let mut first = GCell::new();
            first.set(0);
            assert_eq!(next.grid().cell(0, 0), first);
        }
        other => panic!("{:?}", other),
    }
}

#[test]
fn reply_with_a_move_that_changes_nothing() {
    let fixed = sample().simplify_complete();
    assert_eq!(fixed.play("9,9,9"), Turn::Moved(fixed.clone()));
    assert_eq!(fixed.play("0,5,1"), Turn::Moved(fixed.clone()));
    assert_eq!(fixed.play("0,0,7"), Turn::Moved(fixed.clone()));
}

#[test]
fn reply_that_is_neither() {
    let game = sample();
    assert_eq!(game.play(""), Turn::Invalid);
    assert_eq!(game.play("hello"), Turn::Invalid);
    assert_eq!(game.play("1,2"), Turn::Invalid);
    assert_eq!(game.play("1,2,3,4"), Turn::Invalid);
    assert_eq!(game.play("1,2,x"), Turn::Invalid);
    assert_eq!(game.play("Q"), Turn::Invalid);
    assert_eq!(game.play("1,2,256"), Turn::Invalid);
}
