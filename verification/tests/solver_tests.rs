use sudoku_solver_and_generator::board::{Board, Position};
use sudoku_solver_and_generator::game::Game;
use sudoku_solver_and_generator::rules::{RelationRule, Rule, SumRule, Verdict};
use sudoku_solver_and_generator::carving::{carve, grid_positions};
use sudoku_solver_and_generator::solver::{remove_value, Solver};

fn pos(row: usize, col: usize) -> Position {
    Position::new(row, col).unwrap()
}

fn is_valid_completion(game: &Game, board: &Board) -> bool {
    board.is_filled() && game.rules().iter().all(|rule| rule.check(board).verdict() == Verdict::Satisfied)
}

fn filled_cells(board: &Board) -> usize {
    board.rows().iter().flatten().filter(|&&v| v != 0).count()
}

fn permutation_of_side(values: Vec<usize>, side: usize) -> bool {
    let mut sorted = values;
    sorted.sort();
    sorted == (1..=side).collect::<Vec<usize>>()
}

#[test]
fn deterministic_solver_fills_the_small_grid() {
    let game = Game::new(4, 2, 2);
    let mut solver = Solver::new(game.clone(), false);
    solver.solve();
    let solution = solver.get_solution().unwrap();
    let rows = solution.rows();
    for r in 0..4 {
        assert!(permutation_of_side(rows[r].clone(), 4));
        assert!(permutation_of_side((0..4).map(|i| rows[i][r]).collect(), 4));
    }
    for br in 0..2 {
        for bc in 0..2 {
            let block = vec![
                rows[2 * br][2 * bc],
                rows[2 * br][2 * bc + 1],
                rows[2 * br + 1][2 * bc],
                rows[2 * br + 1][2 * bc + 1],
            ];
            assert!(permutation_of_side(block, 4));
        }
    }
    assert!(is_valid_completion(&game, &solution));
    assert_eq!(
        rows,
        vec![vec![1, 3, 2, 4], vec![2, 4, 1, 3], vec![3, 1, 4, 2], vec![4, 2, 3, 1]]
    );
}

#[test]
fn deterministic_solver_repeats_itself() {
    let mut game = Game::new(9, 3, 3);
    game.set_value(Position::new(1, 1), 5);
    game.set_value(Position::new(2, 4), 7);
    game.set_value(Position::new(9, 9), 1);
    let mut first = Solver::new(game.clone(), false);
    first.solve();
    let mut second = Solver::new(game.clone(), false);
    second.solve();
    let a = first.get_solution().unwrap();
    let b = second.get_solution().unwrap();
    assert_eq!(a.rows(), b.rows());
    assert!(is_valid_completion(&game, &a));
    assert_eq!(a.get_value(pos(1, 1)), 5);
    assert_eq!(a.get_value(pos(2, 4)), 7);
    assert_eq!(a.get_value(pos(9, 9)), 1);
}

#[test]
fn randomized_solver_completes_the_empty_classic_board() {
    let game = Game::new(9, 3, 3);
    for _ in 0..3 {
        let mut solver = Solver::new(game.clone(), true);
        solver.solve();
        let solution = solver.get_solution().unwrap();
        assert!(is_valid_completion(&game, &solution));
    }
}

#[test]
fn solver_leaves_the_game_alone() {
    let game = Game::new(4, 2, 2);
    let mut solver = Solver::new(game.clone(), false);
    solver.solve();
    assert!(solver.get_solution().is_some());
    assert_eq!(filled_cells(&game.board()), 0);
}

#[test]
fn solver_has_no_solution_before_it_solves() {
    let solver = Solver::new(Game::new(4, 2, 2), false);
    assert!(solver.get_solution().is_none());
}

#[test]
fn conflicting_givens_make_the_solver_give_up() {
    let mut game = Game::new(4, 2, 2);
    game.set_value(Position::new(1, 1), 3);
    game.set_value(Position::new(1, 4), 3);
    let mut solver = Solver::new(game, false);
    solver.solve();
    assert!(solver.get_solution().is_none());
}

#[test]
fn givens_beyond_the_side_make_the_solver_give_up() {
    let mut game = Game::new(4, 2, 2);
    game.set_value(Position::new(2, 2), 9);
    let mut solver = Solver::new(game, false);
    solver.solve();
    assert!(solver.get_solution().is_none());
}

#[test]
fn unsolvable_board_has_no_solution() {
    let mut game = Game::new(4, 2, 2);
    game.set_value(Position::new(1, 1), 1);
    game.set_value(Position::new(1, 2), 2);
    game.set_value(Position::new(1, 3), 3);
    game.set_value(Position::new(2, 4), 4);
    let mut solver = Solver::new(game, false);
    solver.solve();
    assert!(solver.get_solution().is_none());
}

#[test]
fn custom_sum_rule_is_checked_at_the_end() {
    let mut game = Game::new(4, 2, 2);
    game.add_rule(Rule::Sum(SumRule::new(vec![pos(1, 1), pos(1, 2)], 7, 12)));
    let mut solver = Solver::new(game.clone(), false);
    solver.solve();
    let solution = solver.get_solution().unwrap();
    assert_eq!(solution.get_value(pos(1, 1)) + solution.get_value(pos(1, 2)), 7);
    assert!(is_valid_completion(&game, &solution));
}

#[test]
fn custom_relation_rule_is_respected() {
    let mut game = Game::new(4, 2, 2);
    let mut rule = RelationRule::new(12);
    rule.positions.push(pos(1, 2));
    rule.positions.push(pos(1, 1));
    game.add_rule(Rule::Relation(rule));
    let mut solver = Solver::new(game.clone(), false);
    solver.solve();
    let solution = solver.get_solution().unwrap();
    assert!(solution.get_value(pos(1, 2)) < solution.get_value(pos(1, 1)));
    assert!(is_valid_completion(&game, &solution));
}

#[test]
fn options_start_with_every_value() {
    let solver = Solver::new(Game::new(4, 2, 2), false);
    for r in 1..=4 {
        for c in 1..=4 {
            assert_eq!(solver.get_options(pos(r, c)), vec![1, 2, 3, 4]);
        }
    }
}

#[test]
fn relation_rules_tighten_the_options_once() {
    let mut game = Game::new(4, 2, 2);
    let mut rule = RelationRule::new(12);
    rule.positions.push(pos(1, 1));
    rule.positions.push(pos(3, 3));
    game.add_rule(Rule::Relation(rule));
    let mut partial = RelationRule::new(13);
    partial.positions.push(pos(2, 2));
    game.add_rule(Rule::Relation(partial));
    let solver = Solver::new(game, false);
    assert_eq!(solver.get_options(pos(1, 1)), vec![1, 2, 3]);
    assert_eq!(solver.get_options(pos(3, 3)), vec![2, 3, 4]);
    assert_eq!(solver.get_options(pos(2, 2)), vec![1, 2, 3, 4]);
}

#[test]
fn givens_prune_the_options_of_their_peers() {
    let mut game = Game::new(4, 2, 2);
    game.set_value(Position::new(1, 1), 3);
    let solver = Solver::new(game, false);
    assert_eq!(solver.get_options(pos(1, 1)), vec![1, 2, 3, 4]);
    assert_eq!(solver.get_options(pos(1, 4)), vec![1, 2, 4]);
    assert_eq!(solver.get_options(pos(4, 1)), vec![1, 2, 4]);
    assert_eq!(solver.get_options(pos(2, 2)), vec![1, 2, 4]);
    assert_eq!(solver.get_options(pos(3, 3)), vec![1, 2, 3, 4]);
}

#[test]
fn place_writes_and_prunes() {
    let mut solver = Solver::new(Game::new(4, 2, 2), false);
    assert!(solver.place(pos(2, 2), 4));
    assert_eq!(solver.get_options(pos(2, 3)), vec![1, 2, 3]);
    assert_eq!(solver.get_options(pos(4, 2)), vec![1, 2, 3]);
    assert_eq!(solver.get_options(pos(1, 1)), vec![1, 2, 3]);
    assert_eq!(solver.get_options(pos(3, 3)), vec![1, 2, 3, 4]);
    assert_eq!(solver.get_options(pos(2, 2)), vec![1, 2, 3, 4]);
}

#[test]
fn place_refuses_what_is_no_candidate() {
    let mut solver = Solver::new(Game::new(4, 2, 2), false);
    assert!(!solver.place(pos(1, 1), 0));
    assert!(!solver.place(pos(1, 1), 5));
    assert!(solver.place(pos(1, 1), 2));
    assert!(!solver.place(pos(1, 2), 2));
    assert_eq!(solver.get_options(pos(1, 2)), vec![1, 3, 4]);
    assert_eq!(solver.get_options(pos(3, 3)), vec![1, 2, 3, 4]);
}

#[test]
fn place_that_empties_a_peer_is_rolled_back() {
    let mut solver = Solver::new(Game::new(2, 1, 2), false);
    assert!(solver.place(pos(1, 1), 1));
    assert_eq!(solver.get_options(pos(1, 2)), vec![2]);
    assert_eq!(solver.get_options(pos(2, 1)), vec![2]);
    assert_eq!(solver.get_options(pos(2, 2)), vec![1, 2]);
    assert!(!solver.place(pos(2, 2), 2));
    assert_eq!(solver.get_options(pos(1, 2)), vec![2]);
    assert_eq!(solver.get_options(pos(2, 1)), vec![2]);
    assert_eq!(solver.get_options(pos(2, 2)), vec![1, 2]);
    assert_eq!(solver.get_next_position(), Some(pos(2, 1)));
    assert!(solver.place(pos(2, 2), 1));
}

#[test]
fn place_then_unplace_empties_the_cell() {
    let mut game = Game::new(4, 2, 2);
    game.set_value(Position::new(1, 1), 3);
    let mut solver = Solver::new(game, false);
    assert_eq!(solver.get_options(pos(1, 2)), vec![1, 2, 4]);
    assert!(solver.place(pos(1, 3), 1));
    assert_eq!(solver.get_options(pos(1, 2)), vec![2, 4]);
    solver.unplace(pos(1, 3));
    assert_eq!(solver.get_options(pos(1, 3)), vec![1, 2, 4]);
    assert_eq!(solver.get_options(pos(1, 2)), vec![2, 4, 1]);
    assert_eq!(solver.get_options(pos(1, 1)), vec![1, 2, 3, 4]);
    assert!(solver.place(pos(1, 3), 1));
    solver.unplace(pos(1, 3));
    solver.unplace(pos(1, 3));
    assert_eq!(solver.get_options(pos(1, 2)), vec![2, 4, 1]);
}

#[test]
fn unplace_restores_a_value_that_a_peer_still_excludes() {
    let mut solver = Solver::new(Game::new(4, 2, 2), false);
    assert!(solver.place(pos(1, 1), 3));
    assert!(solver.place(pos(4, 4), 3));
    assert_eq!(solver.get_options(pos(1, 4)), vec![1, 2, 4]);
    solver.unplace(pos(4, 4));
    assert_eq!(solver.get_options(pos(1, 4)), vec![1, 2, 4, 3]);
    assert!(!solver.place(pos(1, 4), 3));
}

#[test]
fn next_position_is_the_first_with_the_fewest_options() {
    let mut solver = Solver::new(Game::new(4, 2, 2), false);
    assert_eq!(solver.get_next_position(), Some(pos(1, 1)));
    assert!(solver.place(pos(3, 3), 1));
    assert_eq!(solver.get_next_position(), Some(pos(3, 1)));
    assert!(solver.place(pos(3, 1), 2));
    assert_eq!(solver.get_next_position(), Some(pos(3, 2)));
}

#[test]
fn next_position_is_none_on_a_full_board() {
    let mut solver = Solver::new(Game::new(4, 2, 2), false);
    solver.solve();
    assert_eq!(solver.get_next_position(), None);
    assert_eq!(solver.check_rules(), Verdict::Satisfied);
}

#[test]
fn check_rules_gives_the_worst_verdict() {
    let mut game = Game::new(2, 1, 2);
    assert_eq!(Solver::new(game.clone(), false).check_rules(), Verdict::Unfulfilled);
    game.set_value(Position::new(1, 1), 1);
    game.set_value(Position::new(1, 2), 1);
    assert_eq!(Solver::new(game.clone(), false).check_rules(), Verdict::Critical);
    game.set_value(Position::new(1, 2), 2);
    game.set_value(Position::new(2, 1), 2);
    game.set_value(Position::new(2, 2), 1);
    assert_eq!(Solver::new(game, false).check_rules(), Verdict::Satisfied);
}

#[test]
fn solve_recursive_reports_what_it_found() {
    let mut solver = Solver::new(Game::new(4, 2, 2), false);
    assert!(solver.solve_recursive());
    assert!(solver.get_solution().unwrap().is_filled());
    let mut game = Game::new(4, 2, 2);
    game.set_value(Position::new(1, 1), 1);
    game.set_value(Position::new(1, 2), 2);
    game.set_value(Position::new(1, 3), 3);
    game.set_value(Position::new(2, 4), 4);
    let mut stuck = Solver::new(game, false);
    assert!(!stuck.solve_recursive());
    assert!(stuck.get_solution().is_none());
}

#[test]
fn generated_puzzle_can_be_solved() {
    let game = Game::new(9, 3, 3);
    let puzzle = Solver::generate(game.clone()).unwrap();
    assert_eq!(puzzle.get_side(), 9);
    assert_eq!(puzzle.get_base_rule_count(), 27);
    assert_eq!(filled_cells(&puzzle.board()), 81 - 54);
    let mut solver = Solver::new(puzzle.clone(), false);
    solver.solve();
    let solution = solver.get_solution().unwrap();
    assert!(is_valid_completion(&puzzle, &solution));
    let given = puzzle.board();
    for r in 1..=9 {
        for c in 1..=9 {
            let v = given.get_value(pos(r, c));
            if v != 0 {
                assert_eq!(solution.get_value(pos(r, c)), v);
            }
        }
    }
}

#[test]
fn generated_puzzle_keeps_a_third_of_the_small_grid() {
    let puzzle = Solver::generate(Game::new(4, 2, 2)).unwrap();
    assert_eq!(filled_cells(&puzzle.board()), 16 - 10);
}

#[test]
fn generate_fails_on_an_unsolvable_game() {
    let mut game = Game::new(4, 2, 2);
    game.set_value(Position::new(1, 1), 2);
    game.set_value(Position::new(2, 2), 2);
    assert!(Solver::generate(game).is_none());
}

#[test]
fn generate_carves_at_random() {
    let mut seen_other_than_the_first_cells = false;
    for _ in 0..8 {
        let puzzle = Solver::generate(Game::new(9, 3, 3)).unwrap();
        let rows = puzzle.board().rows();
        let first_cells_emptied = rows.iter().flatten().take(54).all(|&v| v == 0);
        if !first_cells_emptied {
            seen_other_than_the_first_cells = true;
        }
    }
    assert!(seen_other_than_the_first_cells);
}

#[test]
fn carve_empties_the_first_positions() {
    let mut board = Board::from_rows(vec![vec![1, 2], vec![2, 1]]).unwrap();
    let order = vec![pos(2, 2), pos(1, 1), pos(1, 2), pos(2, 1)];
    carve(&mut board, &order, 2);
    assert_eq!(board.rows(), vec![vec![0, 2], vec![2, 0]]);
    carve(&mut board, &order, 0);
    assert_eq!(board.rows(), vec![vec![0, 2], vec![2, 0]]);
    carve(&mut board, &order, 4);
    assert_eq!(board.rows(), vec![vec![0, 0], vec![0, 0]]);
}

#[test]
fn grid_positions_go_row_by_row() {
    assert_eq!(grid_positions(2), vec![pos(1, 1), pos(1, 2), pos(2, 1), pos(2, 2)]);
    assert_eq!(grid_positions(9).len(), 81);
    assert!(grid_positions(0).is_empty());
}

#[test]
fn remove_value_keeps_the_order() {
    assert_eq!(remove_value(&vec![3, 1, 3, 2], 3), vec![1, 2]);
    assert_eq!(remove_value(&vec![1, 2], 3), vec![1, 2]);
    assert!(remove_value(&vec![], 3).is_empty());
}

#[test]
fn generated_puzzle_can_be_solved_at_random() {
    let puzzle = Solver::generate(Game::new(9, 3, 3)).unwrap();
    let mut solver = Solver::new(puzzle.clone(), true);
    solver.solve();
    let solution = solver.get_solution().unwrap();
    assert!(is_valid_completion(&puzzle, &solution));
}

#[test]
fn generate_completes_a_game_with_givens() {
    let mut game = Game::new(9, 3, 3);
    game.set_value(Position::new(1, 1), 9);
    game.set_value(Position::new(5, 5), 1);
    let puzzle = Solver::generate(game.clone()).unwrap();
    assert_eq!(filled_cells(&puzzle.board()), 27);
    let mut solver = Solver::new(puzzle, false);
    solver.solve();
    assert!(solver.get_solution().is_some());
}
