use sudokant::board::Board;
use sudokant::solve::{run, MAX_ROUNDS};
use sudokant::value::{Rule, Value};

const BLANK: &str =
    ".................................................................................";

const PUZZLE: &str =
    "53..7....6..195....98....6.8...6...34..8.3..17...2...6.6....28....419..5....8..79";

const SOLUTION: &str =
    "534678912672195348198342567859761423426853791713924856961537284287419635345286179";

const HARD: &str =
    "8..........36......7..9.2...5...7.......457.....1...3...1....68..85...1..9....4..";

const HIDDEN_SINGLE: &str =
    ".............1...........1..1...........................1........................";

const UNSETTLED: &str =
    "..................29....................9......6..7...2.................9........";

const LONG: &str =
    ".5....3....2436..8.38.92........4.2.....6.7.4.453...6...465...928.94....5....1.7.";

fn text(board: &Board) -> String {
    board.givens().iter().collect()
}

#[test]
fn blank_board_halts_after_one_round() {
    let mut board = Board::from_givens(BLANK);
    let log = board.solve();
    assert_eq!(log, vec![(0, 0)]);
    assert_eq!(board.values.len(), 81);
    for v in &board.values {
        assert_eq!(v.given(), None);
        assert_eq!(v.choices(), Some(vec!['1', '2', '3', '4', '5', '6', '7', '8', '9']));
    }
    assert_eq!(board, Board::new());
}

#[test]
fn solved_board_stays_as_it_is() {
    let mut board = Board::from_givens(SOLUTION);
    let before = board.clone();
    let log = board.solve();
    assert_eq!(log, vec![(0, 0)]);
    assert_eq!(board, before);
    assert_eq!(text(&board), SOLUTION);
    assert!(board.values.iter().all(|v| v.choices().is_none()));
    assert_eq!(board.count(&Rule::AtMostOne), 0);
    assert_eq!(board.count(&Rule::AtLeastOne), 0);
}

#[test]
fn solve_finishes_an_easy_puzzle() {
    let mut board = Board::from_givens(PUZZLE);
    let log = board.solve();
    assert_eq!(log, vec![(306, 47), (36, 17), (2, 0), (0, 0)]);
    assert_eq!(text(&board), SOLUTION);
    assert!(board.valid());
}

#[test]
fn solve_stops_where_the_rules_end() {
    let mut board = Board::from_givens(HARD);
    let log = board.solve();
    assert_eq!(log, vec![(286, 0), (0, 0)]);
    assert_eq!(text(&board), HARD);
    assert_eq!(board.count(&Rule::AtMostOne), 286);
    let mut again = board.clone();
    assert_eq!(again.solve(), vec![(0, 0)]);
    assert_eq!(again, board);
}

#[test]
fn solve_fixes_a_hidden_single_in_the_next_round() {
    let mut board = Board::from_givens(HIDDEN_SINGLE);
    let log = board.solve();
    assert_eq!(log, vec![(60, 8), (0, 0)]);
    let mut want = String::from("1");
    want.push_str(&HIDDEN_SINGLE[1..]);
    assert_eq!(text(&board), want);
    assert_eq!(board.values[0], Value::Given('1'));
}

#[test]
fn solve_counts_what_each_pass_excluded() {
    let mut board = Board::from_givens(UNSETTLED);
    let log = board.solve();
    assert_eq!(log, vec![(113, 7), (3, 6), (8, 0), (0, 0)]);
    assert_eq!(
        text(&board),
        "..................29.........9........2.9......6..7...2.................9........"
    );
}

#[test]
fn solve_never_changes_a_given() {
    for givens in [PUZZLE, HARD, HIDDEN_SINGLE, UNSETTLED, "11", "12345678.........9"] {
        let mut board = Board::from_givens(givens);
        let before = board.givens();
        board.solve();
        let after = board.givens();
        for i in 0..81 {
            if before[i] != '.' {
                assert_eq!(after[i], before[i]);
            }
        }
    }
}

#[test]
fn solve_halts_within_ten_rounds() {
    assert_eq!(MAX_ROUNDS, 10);
    for givens in [BLANK, PUZZLE, SOLUTION, HARD, HIDDEN_SINGLE, UNSETTLED, "11", "123456789"] {
        let mut board = Board::from_givens(givens);
        let log = board.solve();
        assert!(1 <= log.len() && log.len() <= MAX_ROUNDS);
        if log.len() < MAX_ROUNDS {
            assert_eq!(log.last(), Some(&(0, 0)));
        }
        for (k, entry) in log.iter().enumerate() {
            if k + 1 < log.len() {
                assert_ne!(*entry, (0, 0));
            }
        }
    }
}

#[test]
fn solve_ends_in_a_board_that_no_round_changes() {
    for givens in [PUZZLE, HARD, HIDDEN_SINGLE, UNSETTLED] {
        let mut board = Board::from_givens(givens);
        let log = board.solve();
        assert_eq!(log.last(), Some(&(0, 0)));
        let end = board.clone();
        board.resolve();
        assert_eq!(board, end);
        board.eval();
        assert_eq!(board, end);
    }
}

#[test]
fn solve_leaves_a_dead_end_open() {
    let mut board = Board::from_givens("12345678.........9");
    let log = board.solve();
    assert_eq!(log, vec![(120, 0), (0, 0)]);
    assert_eq!(board.values[8].given(), None);
    assert_eq!(board.values[8].choices(), Some(vec![]));
    assert_eq!(&text(&board)[0..18], "12345678.........9");
}

#[test]
fn resolve_fixes_cells_with_a_single_live_digit() {
    let mut board = Board::from_givens("12345678.");
    board.eval();
    board.values[40].keep('9', Rule::AtLeastOne);
    board.values[41].keep('0', Rule::AtLeastOne);
    let before = board.clone();
    board.resolve();
    assert_eq!(board.values[8], Value::Given('9'));
    assert_eq!(board.values[40], Value::Given('9'));
    assert_eq!(board.values[41], before.values[41]);
    for i in 0..81 {
        if i != 8 && i != 40 {
            assert_eq!(board.values[i], before.values[i]);
        }
    }
    let once = board.clone();
    board.resolve();
    assert_eq!(board, once);
}

#[test]
fn resolve_leaves_a_fresh_board_alone() {
    let mut board = Board::from_givens(PUZZLE);
    let before = board.clone();
    board.resolve();
    assert_eq!(board, before);
}

#[test]
fn solve_stops_at_the_cap() {
    let mut board = Board::from_givens(LONG);
    let log = board.solve();
    assert_eq!(
        log,
        vec![
            (284, 27),
            (20, 3),
            (10, 2),
            (2, 5),
            (4, 5),
            (8, 4),
            (2, 4),
            (1, 10),
            (4, 0),
            (1, 0)
        ]
    );
    assert_eq!(log.len(), MAX_ROUNDS);
    assert_eq!(
        text(&board),
        "659..8342172436598438592617863..4925921865734745329861314657289287943156596281473"
    );
    assert_eq!(board.count(&Rule::AtMostOne), 28);
    assert_eq!(board.count(&Rule::AtLeastOne), 0);
    let end = board.clone();
    assert_eq!(board.solve(), vec![(0, 0)]);
    assert_eq!(board, end);
}

#[test]
fn solve_is_rounds_of_resolve_and_pass() {
    for givens in [BLANK, PUZZLE, HARD, HIDDEN_SINGLE, UNSETTLED, LONG] {
        let mut by_hand = Board::from_givens(givens);
        let mut log = Vec::new();
        for _ in 0..MAX_ROUNDS {
            by_hand.resolve();
            let before = (by_hand.count(&Rule::AtMostOne), by_hand.count(&Rule::AtLeastOne));
            by_hand.eval();
            let after = (by_hand.count(&Rule::AtMostOne), by_hand.count(&Rule::AtLeastOne));
            let entry = (after.0 - before.0, after.1 - before.1);
            log.push(entry);
            if entry == (0, 0) {
                break;
            }
        }
        let mut board = Board::from_givens(givens);
        assert_eq!(board.solve(), log);
        assert_eq!(board, by_hand);
    }
}

#[test]
fn fixed_cells_only_grow_round_by_round() {
    for givens in [PUZZLE, HIDDEN_SINGLE, UNSETTLED, LONG] {
        let mut board = Board::from_givens(givens);
        let mut fixed = board.givens();
        for _ in 0..MAX_ROUNDS {
            board.resolve();
            let resolved = board.givens();
            board.eval();
            let passed = board.givens();
            assert_eq!(passed, resolved);
            for i in 0..81 {
                if fixed[i] != '.' {
                    assert_eq!(resolved[i], fixed[i]);
                }
            }
            fixed = passed;
        }
    }
}

#[test]
fn run_evaluates_once_or_solves() {
    let (evaluated, no_log) = run(PUZZLE, false);
    let mut by_hand = Board::from_givens(PUZZLE);
    by_hand.eval();
    assert_eq!(evaluated, by_hand);
    assert_eq!(no_log, vec![]);
    assert_eq!(text(&evaluated), PUZZLE);
    let (solved, log) = run(PUZZLE, true);
    assert_eq!(text(&solved), SOLUTION);
    assert_eq!(log, vec![(306, 47), (36, 17), (2, 0), (0, 0)]);
    let (blank, log) = run("", true);
    assert_eq!(blank, Board::new());
    assert_eq!(log, vec![(0, 0)]);
}
