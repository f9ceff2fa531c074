use sudokant::board::Board;
use sudokant::value::{Rule, Value};

const PUZZLE: &str =
    "53..7....6..195....98....6.8...6...34..8.3..17...2...6.6....28....419..5....8..79";

const HIDDEN_SINGLE: &str =
    ".............1...........1..1...........................1........................";

const UNSETTLED: &str =
    "..................29....................9......6..7...2.................9........";

/// A cell as text: its digit if fixed; for an open cell one character per
/// digit, the digit itself while live, `m` or `l` once a rule has excluded it.
fn cell_text(v: &Value) -> String {
    match v {
        Value::Given(g) => g.to_string(),
        Value::Choices(cs) => cs
            .iter()
            .map(|c| match c.reason {
                None => c.digit,
                Some(Rule::AtMostOne) => 'm',
                Some(Rule::AtLeastOne) => 'l',
            })
            .collect(),
    }
}

fn board_text(board: &Board) -> Vec<String> {
    board.values.iter().map(cell_text).collect()
}

#[test]
fn row_with_eight_givens_leaves_the_ninth() {
    let mut board = Board::from_givens("12345678.");
    board.eval();
    assert_eq!(board.values[8].choices(), Some(vec!['9']));
    assert_eq!(cell_text(&board.values[8]), "mmmmmmmm9");
    assert_eq!(board.values[8].count(&Rule::AtMostOne), 8);
    assert_eq!(board.values[8].count(&Rule::AtLeastOne), 0);
    assert_eq!(board.values[8].given(), None);
    assert_eq!(board.values[0], Value::Given('1'));
    assert_eq!(board.count(&Rule::AtMostOne), 104);
    assert_eq!(board.count(&Rule::AtLeastOne), 0);
}

#[test]
fn column_and_square_with_eight_givens_leave_the_ninth() {
    let mut column = Board::new();
    for (k, d) in "12345678".chars().enumerate() {
        column.fix(9 * k + 4, d);
    }
    column.eval();
    assert_eq!(column.values[76].choices(), Some(vec!['9']));
    let mut square = Board::new();
    let cells = square.squares()[4];
    for (k, d) in "98765432".chars().enumerate() {
        square.fix(cells[k], d);
    }
    square.eval();
    assert_eq!(square.values[cells[8]].choices(), Some(vec!['1']));
}

#[test]
fn at_most_one_excludes_a_given_from_its_peers() {
    let mut board = Board::from_givens("1");
    board.at_most_one();
    let text = board_text(&board);
    assert_eq!(text[0], "1");
    for i in 1..81 {
        let peer = i / 9 == 0 || i % 9 == 0 || (i / 27 == 0 && (i % 9) / 3 == 0);
        assert_eq!(text[i], if peer { "m23456789" } else { "123456789" });
    }
    assert_eq!(board.count(&Rule::AtMostOne), 20);
    assert_eq!(board.count(&Rule::AtLeastOne), 0);
}

#[test]
fn at_most_one_fixes_nothing() {
    let mut board = Board::from_givens(PUZZLE);
    board.at_most_one();
    let givens: String = board.givens().iter().collect();
    assert_eq!(givens, PUZZLE);
    assert_eq!(board.count(&Rule::AtLeastOne), 0);
}

#[test]
fn at_most_one_twice_is_at_most_one_once() {
    let mut board = Board::from_givens(PUZZLE);
    board.at_most_one();
    let once = board.clone();
    board.at_most_one();
    assert_eq!(board, once);
}

#[test]
fn at_least_one_restricts_a_hidden_single() {
    let mut board = Board::from_givens(HIDDEN_SINGLE);
    board.eval();
    assert_eq!(cell_text(&board.values[0]), "1llllllll");
    assert_eq!(cell_text(&board.values[1]), "m23456789");
    assert_eq!(cell_text(&board.values[2]), "m23456789");
    assert_eq!(board.values[0].given(), None);
    assert_eq!(board.values[0].choices(), Some(vec!['1']));
    assert_eq!(board.count(&Rule::AtMostOne), 60);
    assert_eq!(board.count(&Rule::AtLeastOne), 8);
}

#[test]
fn at_least_one_alone_does_nothing_on_a_blank_board() {
    let mut board = Board::new();
    board.at_least_one();
    assert_eq!(board, Board::new());
}

#[test]
fn at_least_one_sees_what_an_earlier_step_excluded() {
    let mut board = Board::new();
    for i in 2..9 {
        board.values[i].eliminate('1', Rule::AtMostOne);
    }
    board.values[1].eliminate('1', Rule::AtMostOne);
    for i in 2..9 {
        board.values[i].eliminate('2', Rule::AtMostOne);
    }
    board.at_least_one();
    assert_eq!(cell_text(&board.values[0]), "1llllllll");
    assert_eq!(cell_text(&board.values[1]), "m2lllllll");
}

#[test]
fn single_pass_on_a_puzzle() {
    let mut board = Board::from_givens(PUZZLE);
    board.eval();
    assert!(board.valid());
    assert_eq!(board.count(&Rule::AtMostOne), 306);
    assert_eq!(board.count(&Rule::AtLeastOne), 47);
    let want = [
        "5", "3", "12m4mmmmm", "mlmmm6mmm", "7", "mlmlmlm8m", "lmmlmmml9", "1lmlmmmml",
        "m2m4mmm8m", "6", "mlmlmm7mm", "m2m4mm7mm", "1", "9", "5", "mm34mm78m", "m234mmmmm",
        "m2m4mm78m", "12mmmmmmm", "9", "8", "ml3mmmmmm", "mml4mmmmm", "m2m4mmmmm", "lmll5mlmm",
        "6", "mlmlmm7mm", "8", "12mm5mmmm", "llmmlmmm9", "mmmm5m7m9", "6", "1mm4mm7mm",
        "mmm45m7m9", "m2mllmmml", "3", "4", "m2mm5mmmm", "mlmml6mml", "8", "mmmm5mmmm", "3",
        "mmmmlm7ml", "mlmmlmmm9", "1", "7", "1mmm5mmmm", "lm3mlmmml", "mmmm5mmm9", "2",
        "1mm4mmmmm", "mmmllmm8l", "mmm45mmm9", "6", "lmlmmmmm9", "6", "1m345m7m9", "mm3m5m7mm",
        "mm3m5mmmm", "mmmmmm7mm", "2", "8", "mmm4mmmmm", "m23mmmmmm", "mlmmmml8m", "m23mmm7mm",
        "4", "1", "9", "mmlmm6mmm", "mm3mmmmmm", "5", "123mmmmmm", "12m45mmmm", "12345mmmm",
        "m23m56mmm", "8", "m2mmm6mmm", "1mllmlmmm", "7", "9",
    ];
    assert_eq!(board_text(&board), want);
}

#[test]
fn single_pass_fixes_nothing() {
    let mut board = Board::from_givens(PUZZLE);
    board.eval();
    let givens: String = board.givens().iter().collect();
    assert_eq!(givens, PUZZLE);
}

#[test]
fn after_a_pass_no_given_is_live_in_a_peer() {
    for givens in [PUZZLE, HIDDEN_SINGLE, UNSETTLED, "11", "12345678.........9"] {
        let mut board = Board::from_givens(givens);
        board.eval();
        for group in board.subsets() {
            for i in group {
                if let Some(d) = board.values[i].given() {
                    for j in group {
                        if j != i {
                            let live = board.values[j].choices().unwrap_or_default();
                            assert!(!live.contains(&d));
                        }
                    }
                }
            }
        }
    }
}

#[test]
fn after_a_pass_a_restricted_cell_has_one_live_digit() {
    for givens in [PUZZLE, HIDDEN_SINGLE, UNSETTLED] {
        let mut board = Board::from_givens(givens);
        board.eval();
        let mut restricted = 0;
        for v in &board.values {
            if v.count(&Rule::AtLeastOne) > 0 {
                restricted += 1;
                assert_eq!(v.choices().map(|c| c.len()), Some(1));
                assert_eq!(v.count(&Rule::AtLeastOne) + v.count(&Rule::AtMostOne), 8);
            }
        }
        assert!(restricted > 0);
    }
}

#[test]
fn a_pass_only_narrows() {
    let mut board = Board::from_givens(PUZZLE);
    board.values[2].eliminate('1', Rule::AtLeastOne);
    board.values[2].eliminate('4', Rule::AtLeastOne);
    let before = board_text(&board);
    board.eval();
    let after = board_text(&board);
    for i in 0..81 {
        assert_eq!(before[i].len(), after[i].len());
        for (b, a) in before[i].chars().zip(after[i].chars()) {
            if !b.is_ascii_digit() || before[i].len() == 1 {
                assert_eq!(a, b);
            } else {
                assert!(a == b || a == 'm' || a == 'l');
            }
        }
    }
    assert_eq!(&after[2][0..4], "l2ml");
}

#[test]
fn second_pass_changes_nothing_on_a_settled_board() {
    for givens in ["12345678.", "1", HIDDEN_SINGLE, "12345678.........9"] {
        let mut board = Board::from_givens(givens);
        board.eval();
        let once = board.clone();
        board.eval();
        assert_eq!(board, once);
    }
}

#[test]
fn second_pass_goes_on_where_the_first_left_a_single() {
    let mut board = Board::from_givens(UNSETTLED);
    board.eval();
    assert_eq!(cell_text(&board.values[38]), "12345m78m");
    assert_eq!(board.count(&Rule::AtMostOne), 113);
    assert_eq!(board.count(&Rule::AtLeastOne), 7);
    assert_eq!(cell_text(&board.values[29]), "lllllmll9");
    let col = board.cols()[2];
    assert_eq!(board.indexes_of(&col, '2'), vec![38]);
    let once = board.clone();
    board.eval();
    assert_ne!(board, once);
    assert_eq!(cell_text(&board.values[38]), "l2lllmllm");
    assert_eq!(board.count(&Rule::AtMostOne), 113);
    assert_eq!(board.count(&Rule::AtLeastOne), 13);
    for i in 0..81 {
        if i != 38 {
            assert_eq!(board.values[i], once.values[i]);
        }
    }
}

#[test]
fn a_dead_end_is_left_as_it_is() {
    let mut board = Board::from_givens("12345678.........9");
    board.eval();
    assert_eq!(cell_text(&board.values[8]), "mmmmmmmmm");
    assert_eq!(board.values[8].choices(), Some(vec![]));
    assert_eq!(board.live_digits(8), Vec::<char>::new());
    assert_eq!(board.values[8].given(), None);
    assert_eq!(board.count(&Rule::AtMostOne), 120);
    assert_eq!(board.count(&Rule::AtLeastOne), 0);
}

#[test]
fn a_digit_given_twice_in_a_group_is_tolerated() {
    let mut board = Board::from_givens("11");
    board.eval();
    assert_eq!(board.values[0], Value::Given('1'));
    assert_eq!(board.values[1], Value::Given('1'));
    assert_eq!(cell_text(&board.values[2]), "m23456789");
    assert_eq!(cell_text(&board.values[9]), "m23456789");
}

#[test]
fn a_pass_on_a_blank_board_changes_nothing() {
    let mut board = Board::new();
    board.eval();
    assert_eq!(board, Board::new());
}

#[test]
fn a_pass_on_a_full_board_changes_nothing() {
    let full = "534678912672195348198342567859761423426853791713924856961537284287419635345286179";
    let mut board = Board::from_givens(full);
    let before = board.clone();
    board.eval();
    assert_eq!(board, before);
    assert_eq!(board.count(&Rule::AtMostOne), 0);
    assert_eq!(board.count(&Rule::AtLeastOne), 0);
}
