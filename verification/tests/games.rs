use flip_solver::{solutions, Constraint, GCell, Game, Grid, Section};

const BOARD: [u8; 25] = [
    0, 1, 2, 3, 1, //
    1, 1, 2, 1, 0, //
    2, 1, 1, 0, 0, //
    3, 1, 1, 1, 1, //
    2, 2, 2, 1, 0,
];

fn cell_of(vals: &[u8]) -> GCell {
    let mut cell = GCell::empty();
    for &v in vals {
        let mut one = GCell::new();
        one.set(v);
        cell = cell.union(&one);
    }
    cell
}

fn sample() -> Game {
    let list: Vec<u8> = vec![7, 1, 5, 1, 4, 2, 7, 0, 7, 1, 8, 1, 6, 0, 8, 0, 6, 1, 2, 3];
    Game::new(Constraint::from_list(list).unwrap())
}

fn uniform(sum: u8, zeros: u8) -> Game {
    Game::new(vec![Constraint::new(sum, zeros); 10])
}

fn size(game: &Game) -> usize {
    let mut n = 0;
    for r in 0..5 {
        for c in 0..5 {
            n += game.grid().cell(r, c).values().len();
        }
    }
    n
}

fn within(inner: &Game, outer: &Game) -> bool {
    for r in 0..5 {
        for c in 0..5 {
            for v in 0..4u8 {
                if inner.grid().cell(r, c).has(v) && !outer.grid().cell(r, c).has(v) {
                    return false;
                }
            }
        }
    }
    true
}

#[test]
fn new_grid_is_fully_open() {
    let grid = Grid::new();
    for r in 0..5 {
        for c in 0..5 {
            assert_eq!(grid.cell(r, c), GCell::new());
        }
        assert_eq!(grid.row(r), vec![GCell::new(); 5]);
        assert_eq!(grid.col(r), vec![GCell::new(); 5]);
    }
    assert!(!grid.complete());
    assert!(grid.same_as(&Grid::new()));
}

#[test]
fn grid_rows_and_columns() {
    let cells: Vec<GCell> = (0..25u8).map(|k| cell_of(&[k % 4, k / 5 % 4])).collect();
    let grid = Grid::from_cells(cells.clone());
    for r in 0..5 {
        for c in 0..5 {
            assert_eq!(grid.cell(r, c), cells[5 * r + c]);
            assert_eq!(grid.row(r)[c], cells[5 * r + c]);
            assert_eq!(grid.col(c)[r], cells[5 * r + c]);
        }
        assert_eq!(grid.row(r).len(), 5);
        assert_eq!(grid.col(r).len(), 5);
    }
}

#[test]
fn grid_set_narrows_one_cell() {
    let grid = Grid::new().set(1, 3, 2);
    for r in 0..5 {
        for c in 0..5 {
            let want = if (r, c) == (1, 3) { cell_of(&[2]) } else { GCell::new() };
            assert_eq!(grid.cell(r, c), want);
        }
    }
    assert!(!grid.same_as(&Grid::new()));
}

#[test]
fn grid_set_outside_the_grid_changes_nothing() {
    let grid = Grid::new().set(0, 0, 1);
    assert_eq!(grid.set(5, 0, 1), grid);
    assert_eq!(grid.set(0, 5, 1), grid);
    assert_eq!(grid.set(0, 7, 1), grid);
    assert_eq!(grid.set(usize::MAX, usize::MAX, 1), grid);
    assert_eq!(grid.set(2, 2, 4), grid);
    assert_eq!(grid.set(0, 0, 2), grid);
}

#[test]
fn grid_complete_allows_open_cells_between_zero_and_one() {
    let mut cells = vec![cell_of(&[1]); 25];
    assert!(Grid::from_cells(cells.clone()).complete());
    cells[7] = cell_of(&[0, 1]);
    assert!(Grid::from_cells(cells.clone()).complete());
    cells[8] = cell_of(&[0, 2]);
    assert!(!Grid::from_cells(cells.clone()).complete());
    cells[8] = cell_of(&[1, 3]);
    assert!(!Grid::from_cells(cells.clone()).complete());
    cells[8] = cell_of(&[2, 3]);
    assert!(!Grid::from_cells(cells.clone()).complete());
    cells[8] = cell_of(&[3]);
    assert!(Grid::from_cells(cells).complete());
}

#[test]
fn new_game_is_open_under_its_constraints() {
    let game = sample();
    assert_eq!(game.grid(), &Grid::new());
    assert_eq!(game.constraints().len(), 10);
    assert_eq!(game.constraints()[0], Constraint::new(7, 1));
    assert_eq!(game.constraints()[9], Constraint::new(2, 3));
    assert_eq!(size(&game), 100);
}

#[test]
fn sections_pair_lines_with_their_constraints() {
    let game = sample().set(1, 3, 2).set(4, 0, 0);
    let (rows, cols) = game.sections();
    assert_eq!(rows.len(), 5);
    assert_eq!(cols.len(), 5);
    for i in 0..5 {
        assert_eq!(rows[i].constraint, game.constraints()[i]);
        assert_eq!(cols[i].constraint, game.constraints()[5 + i]);
        assert_eq!(rows[i].section, game.grid().row(i));
        assert_eq!(cols[i].section, game.grid().col(i));
    }
    assert_eq!(rows[1].section[3], cell_of(&[2]));
    assert_eq!(cols[3].section[1], cell_of(&[2]));
    assert_eq!(cols[0].section[4], cell_of(&[0]));
}

#[test]
fn from_sections_intersects_rows_with_columns() {
    let rows: Vec<Section> = (0..5u8)
        .map(|r| Section::new(vec![cell_of(&[0, 1, 2]); 5], Constraint::new(r, 0)))
        .collect();
    let cols: Vec<Section> = (0..5u8)
        .map(|c| {
            let cells = (0..5u8).map(|r| cell_of(&[1, 2, (r + c) % 4])).collect();
            Section::new(cells, Constraint::new(10 + c, 1))
        })
        .collect();
    let game = Game::from_sections(&rows, &cols);
    for r in 0..5u8 {
        for c in 0..5u8 {
            let want = cell_of(&[0, 1, 2]).intersect(&cell_of(&[1, 2, (r + c) % 4]));
            assert_eq!(game.grid().cell(r as usize, c as usize), want);
        }
        assert_eq!(game.constraints()[r as usize], Constraint::new(r, 0));
        assert_eq!(game.constraints()[5 + r as usize], Constraint::new(10 + r, 1));
    }
    assert_eq!(game.constraints().len(), 10);
}

#[test]
fn simplify_never_adds_a_value() {
    let mut game = sample();
    for _ in 0..6 {
        let next = game.simplify();
        assert!(within(&next, &game));
        assert!(size(&next) <= size(&game));
        assert_eq!(next.constraints(), game.constraints());
        game = next;
    }
}

#[test]
fn simplify_of_an_all_zero_puzzle() {
    let game = uniform(0, 5).simplify();
    assert_eq!(game.grid(), &Grid::from_cells(vec![cell_of(&[0]); 25]));
    assert!(game.grid().complete());
}

#[test]
fn simplify_crosses_rows_and_columns() {
    let mut cons = vec![Constraint::new(1, 4); 5];
    cons.extend(vec![Constraint::new(5, 0); 5]);
    let game = Game::new(cons).simplify();
    assert_eq!(game.grid(), &Grid::from_cells(vec![cell_of(&[1]); 25]));
    let again = game.simplify();
    assert_eq!(again.grid(), &Grid::from_cells(vec![GCell::empty(); 25]));
}

#[test]
fn fixpoint_is_left_alone_by_a_further_round() {
    let games = [sample(), uniform(0, 5), uniform(5, 0), uniform(6, 0), uniform(0, 0), uniform(9, 1)];
    for game in games.iter() {
        let fixed = game.simplify_complete();
        assert_eq!(fixed.simplify(), fixed);
        assert_eq!(fixed.simplify_complete(), fixed);
        assert!(within(&fixed, game));
        assert_eq!(fixed.constraints(), game.constraints());
    }
}

#[test]
fn fixpoint_is_reached_by_repeated_rounds() {
    let mut game = sample();
    let fixed = game.simplify_complete();
    let mut rounds = 0;
    loop {
        let next = game.simplify();
        if next == game {
            break;
        }
        game = next;
        rounds += 1;
        assert!(rounds <= 100);
    }
    assert_eq!(game, fixed);
}

#[test]
fn sample_puzzle_narrows_without_being_solved() {
    let start = sample();
    let fixed = start.simplify_complete();
    assert!(size(&fixed) < size(&start));
    let mut open = 0;
    for r in 0..5 {
        for c in 0..5 {
            let cell = fixed.grid().cell(r, c);
            if !cell.is_known() {
                open += 1;
            }
            assert!(cell.has(BOARD[5 * r + c]));
        }
    }
    assert!(open > 0);
    let (rows, cols) = fixed.sections();
    for line in rows.iter().chain(cols.iter()) {
        let sols = solutions(line.section.clone(), line.constraint);
        assert!(!sols.is_empty());
        for sol in sols {
            let vals: Vec<u8> = sol.iter().map(|cell| cell.value().unwrap()).collect();
            assert_eq!(vals.iter().sum::<u8>(), line.constraint.sum);
            assert_eq!(vals.iter().filter(|v| **v == 0).count(), line.constraint.zeros as usize);
            for (v, cell) in vals.iter().zip(&line.section) {
                assert!(cell.has(*v));
            }
        }
    }
}

#[test]
fn set_value_that_is_not_possible_changes_nothing() {
    let mut cons = vec![Constraint::new(1, 4); 5];
    cons.extend(vec![Constraint::new(1, 4); 5]);
    let game = Game::new(cons).simplify_complete();
    assert_eq!(game.grid().cell(2, 2), cell_of(&[0, 1]));
    let after = game.set(2, 2, 2);
    assert_eq!(after.grid().cell(2, 2), cell_of(&[0, 1]));
    assert_eq!(after, game);
}

#[test]
fn set_value_outside_the_grid_changes_nothing() {
    let game = sample().simplify_complete();
    assert_eq!(game.set(5, 0, 1), game);
    assert_eq!(game.set(0, 5, 1), game);
    assert_eq!(game.set(9, 9, 0), game);
    assert_eq!(game.set(usize::MAX, 0, 0), game);
}

#[test]
fn set_value_narrows_and_deduction_follows() {
    let mut cons = vec![Constraint::new(1, 4); 5];
    cons.extend(vec![Constraint::new(1, 4); 5]);
    let game = Game::new(cons).simplify_complete();
    let after = game.set(0, 0, 1);
    assert_eq!(after.grid().cell(0, 0), cell_of(&[1]));
    assert_eq!(after.constraints(), game.constraints());
    let fixed = after.simplify_complete();
    for k in 1..5 {
        assert_eq!(fixed.grid().cell(0, k), cell_of(&[0]));
        assert_eq!(fixed.grid().cell(k, 0), cell_of(&[0]));
    }
    assert_eq!(fixed.grid().cell(1, 1), cell_of(&[0, 1]));
    assert!(fixed.grid().complete());
}

#[test]
fn safe_cells_are_open_and_cannot_be_zero() {
    assert_eq!(sample().safe(), Vec::new());
    let game = uniform(6, 0).simplify();
    let all: Vec<(usize, usize)> = (0..25).map(|k| (k / 5, k % 5)).collect();
    assert_eq!(game.safe(), all);
    let narrowed = game.set(1, 2, 2).set(4, 4, 1);
    let want: Vec<(usize, usize)> =
        all.iter().copied().filter(|p| *p != (1, 2) && *p != (4, 4)).collect();
    assert_eq!(narrowed.safe(), want);
}

#[test]
fn safe_counts_empty_cells_as_open() {
    let game = uniform(0, 0).simplify();
    assert_eq!(game.grid(), &Grid::from_cells(vec![GCell::empty(); 25]));
    assert_eq!(game.safe().len(), 25);
    assert!(game.grid().complete());
}

#[test]
fn solved_board_is_a_fixpoint() {
    let mut game = sample();
    for r in 0..5 {
        for c in 0..5 {
            game = game.set(r, c, BOARD[5 * r + c]);
        }
    }
    assert!(game.grid().complete());
    assert_eq!(game.simplify(), game);
    assert_eq!(game.simplify_complete(), game);
    assert_eq!(game.safe(), Vec::new());
}

#[test]
fn wrong_guess_ends_in_contradiction() {
    let game = uniform(0, 5).set(0, 0, 3).simplify_complete();
    assert_eq!(game.grid(), &Grid::from_cells(vec![GCell::empty(); 25]));
}
