use sudokant::board::{contains_digit, Board};
use sudokant::value::{Rule, Value};

fn text(chars: &[char]) -> String {
    chars.iter().collect()
}

const BLANK: &str =
    ".................................................................................";

#[test]
fn new_board_has_81_open_cells() {
    let board = Board::new();
    assert!(board.valid());
    assert_eq!(board.values.len(), 81);
    for v in &board.values {
        assert_eq!(*v, Value::default());
    }
    assert_eq!(text(&board.givens()), BLANK);
    assert_eq!(board.count(&Rule::AtMostOne), 0);
    assert_eq!(board.count(&Rule::AtLeastOne), 0);
}

#[test]
fn fix_sets_one_cell() {
    let mut board = Board::new();
    board.fix(40, '5');
    assert_eq!(board.values[40], Value::Given('5'));
    assert_eq!(board.values[39], Value::default());
    assert_eq!(board.values[41], Value::default());
    board.fix(40, '6');
    assert_eq!(board.values[40], Value::Given('6'));
    assert_eq!(board.givens().iter().filter(|c| **c != '.').count(), 1);
}

#[test]
fn choose_all_reads_digits_and_dots() {
    let mut board = Board::new();
    let s = "53..7....6..195....98....6.8...6...34..8.3..17...2...6.6....28....419..5....8..79";
    board.choose_all(s);
    assert!(board.valid());
    assert_eq!(text(&board.givens()), s);
    assert_eq!(board.values[0], Value::Given('5'));
    assert_eq!(board.values[2], Value::default());
    assert_eq!(board.values[80], Value::Given('9'));
}

#[test]
fn choose_all_pads_a_short_string() {
    let mut board = Board::new();
    board.choose_all("12");
    let mut want = String::from("12");
    want.push_str(&BLANK[2..]);
    assert_eq!(text(&board.givens()), want);
    let mut empty = Board::new();
    empty.choose_all("");
    assert_eq!(empty, Board::new());
}

#[test]
fn choose_all_ignores_what_lies_beyond_81() {
    let mut board = Board::new();
    let mut s = String::from(BLANK);
    s.push_str("123456789");
    board.choose_all(&s);
    assert_eq!(board, Board::new());
    let mut full = String::new();
    for _ in 0..9 {
        full.push_str("123456789");
    }
    let mut long = full.clone();
    long.push_str("555");
    let mut a = Board::new();
    a.choose_all(&full);
    let mut b = Board::new();
    b.choose_all(&long);
    assert_eq!(a, b);
    assert_eq!(text(&b.givens()), full);
}

#[test]
fn choose_all_takes_other_characters_for_open() {
    let mut board = Board::new();
    board.choose_all("0x 5?-9é3");
    let mut want = String::from("...5..9.3");
    want.push_str(&BLANK[9..]);
    assert_eq!(text(&board.givens()), want);
    assert!(board.valid());
}

#[test]
fn choose_all_keeps_what_was_fixed() {
    let mut board = Board::new();
    board.fix(3, '7');
    board.choose_all("1..........");
    assert_eq!(board.values[0], Value::Given('1'));
    assert_eq!(board.values[3], Value::Given('7'));
}

#[test]
fn count_adds_up_the_cells() {
    let mut board = Board::new();
    board.values[0].eliminate('1', Rule::AtMostOne);
    board.values[0].eliminate('2', Rule::AtMostOne);
    board.values[80].eliminate('9', Rule::AtMostOne);
    board.values[17].keep('3', Rule::AtLeastOne);
    board.fix(5, '5');
    assert_eq!(board.count(&Rule::AtMostOne), 3);
    assert_eq!(board.count(&Rule::AtLeastOne), 8);
}

#[test]
fn live_digits_of_open_and_fixed_cells() {
    let mut board = Board::new();
    board.fix(5, '5');
    board.values[6].eliminate('1', Rule::AtMostOne);
    board.values[6].eliminate('9', Rule::AtLeastOne);
    assert_eq!(board.live_digits(5), vec!['5']);
    assert_eq!(board.live_digits(6), vec!['2', '3', '4', '5', '6', '7', '8']);
    assert_eq!(board.live_digits(7), vec!['1', '2', '3', '4', '5', '6', '7', '8', '9']);
    board.values[8].keep('0', Rule::AtLeastOne);
    assert_eq!(board.live_digits(8), Vec::<char>::new());
}

#[test]
fn indexes_of_lists_open_cells_with_the_digit_live() {
    let mut board = Board::new();
    let row = board.rows()[0];
    assert_eq!(board.indexes_of(&row, '4'), vec![0, 1, 2, 3, 4, 5, 6, 7, 8]);
    board.fix(2, '4');
    board.values[5].eliminate('4', Rule::AtMostOne);
    board.values[7].eliminate('3', Rule::AtMostOne);
    assert_eq!(board.indexes_of(&row, '4'), vec![0, 1, 3, 4, 6, 7, 8]);
    assert_eq!(board.indexes_of(&row, '3'), vec![0, 1, 3, 4, 5, 6, 8]);
    assert_eq!(board.indexes_of(&row, '0'), Vec::<usize>::new());
    let backwards = [8, 7, 6, 5, 4, 3, 2, 1, 0];
    assert_eq!(board.indexes_of(&backwards, '4'), vec![8, 7, 6, 4, 3, 1, 0]);
}

#[test]
fn eliminate_marks_the_listed_cells() {
    let mut board = Board::new();
    board.fix(1, '2');
    board.eliminate(vec![0, 1, 2, 2, 80], '6', Rule::AtMostOne);
    assert_eq!(board.values[0].count(&Rule::AtMostOne), 1);
    assert_eq!(board.values[1], Value::Given('2'));
    assert_eq!(board.values[2].count(&Rule::AtMostOne), 1);
    assert_eq!(board.values[80].choices(), Some(vec!['1', '2', '3', '4', '5', '7', '8', '9']));
    assert_eq!(board.values[3], Value::default());
    assert_eq!(board.count(&Rule::AtMostOne), 3);
    board.eliminate(Vec::new(), '1', Rule::AtMostOne);
    assert_eq!(board.count(&Rule::AtMostOne), 3);
}

#[test]
fn givens_shows_digits_and_dots() {
    let mut board = Board::new();
    board.fix(0, '9');
    board.fix(80, '1');
    board.values[1].keep('3', Rule::AtLeastOne);
    let g = board.givens();
    assert_eq!(g.len(), 81);
    assert_eq!(g[0], '9');
    assert_eq!(g[1], '.');
    assert_eq!(g[80], '1');
    assert_eq!(g.iter().filter(|c| **c == '.').count(), 79);
}

#[test]
fn next_givens_fixes_one_more_cell_and_leaves_the_board() {
    let mut board = Board::new();
    board.choose_all("12.");
    let before = board.clone();
    let next = board.next_givens(2, '3');
    let mut want = String::from("123");
    want.push_str(&BLANK[3..]);
    assert_eq!(text(&next), want);
    assert_eq!(board, before);
    let over = board.next_givens(0, '9');
    assert_eq!(over[0], '9');
    assert_eq!(over[1], '2');
    let mut same = board.clone();
    same.fix(2, '3');
    assert_eq!(same.givens(), next);
}

#[test]
fn contains_digit_searches_the_list() {
    assert!(contains_digit(&vec!['1', '4', '9'], '4'));
    assert!(contains_digit(&vec!['1', '4', '9'], '9'));
    assert!(!contains_digit(&vec!['1', '4', '9'], '5'));
    assert!(!contains_digit(&Vec::new(), '1'));
}

#[test]
fn valid_rejects_malformed_boards() {
    let mut board = Board::new();
    assert!(board.valid());
    board.values.pop();
    assert!(!board.valid());
    board.values.push(Value::Given('x'));
    assert!(!board.valid());
    board.values[80] = Value::Given('1');
    assert!(board.valid());
    board.values.push(Value::default());
    assert!(!board.valid());
}

#[test]
fn rows_hold_nine_cells_side_by_side() {
    let board = Board::new();
    let rows = board.rows();
    assert_eq!(rows[0], [0, 1, 2, 3, 4, 5, 6, 7, 8]);
    assert_eq!(rows[4], [36, 37, 38, 39, 40, 41, 42, 43, 44]);
    assert_eq!(rows[8], [72, 73, 74, 75, 76, 77, 78, 79, 80]);
    for r in 0..9 {
        for k in 0..9 {
            assert_eq!(rows[r][k], 9 * r + k);
        }
    }
}

#[test]
fn cols_hold_nine_cells_one_below_the_other() {
    let board = Board::new();
    let cols = board.cols();
    assert_eq!(cols[0], [0, 9, 18, 27, 36, 45, 54, 63, 72]);
    assert_eq!(cols[8], [8, 17, 26, 35, 44, 53, 62, 71, 80]);
    for c in 0..9 {
        for k in 0..9 {
            assert_eq!(cols[c][k], 9 * k + c);
        }
    }
}

#[test]
fn squares_hold_three_by_three_cells() {
    let board = Board::new();
    let squares = board.squares();
    assert_eq!(squares[0], [0, 1, 2, 9, 10, 11, 18, 19, 20]);
    assert_eq!(squares[4], [30, 31, 32, 39, 40, 41, 48, 49, 50]);
    assert_eq!(squares[8], [60, 61, 62, 69, 70, 71, 78, 79, 80]);
    for b in 0..9 {
        for k in 0..9 {
            let row = 3 * (b / 3) + k / 3;
            let col = 3 * (b % 3) + k % 3;
            assert_eq!(squares[b][k], 9 * row + col);
        }
    }
}

#[test]
fn subsets_are_rows_then_cols_then_squares() {
    let board = Board::new();
    let all = board.subsets();
    assert_eq!(all.len(), 27);
    assert_eq!(&all[0..9], &board.rows()[..]);
    assert_eq!(&all[9..18], &board.cols()[..]);
    assert_eq!(&all[18..27], &board.squares()[..]);
}

#[test]
fn each_family_partitions_the_cells() {
    let board = Board::new();
    for family in [board.rows(), board.cols(), board.squares()] {
        let mut seen = [0usize; 81];
        for group in family.iter() {
            for i in group.iter() {
                assert!(*i < 81);
                seen[*i] += 1;
            }
        }
        assert!(seen.iter().all(|n| *n == 1));
    }
}

#[test]
fn every_cell_lies_in_three_groups() {
    let board = Board::new();
    let all = board.subsets();
    for i in 0..81 {
        let n = all.iter().filter(|g| g.contains(&i)).count();
        assert_eq!(n, 3);
    }
}

#[test]
fn from_givens_seeds_a_fresh_board() {
    let s = "53..7....6..195....98....6.8...6...34..8.3..17...2...6.6....28....419..5....8..79";
    let board = Board::from_givens(s);
    assert!(board.valid());
    assert_eq!(text(&board.givens()), s);
    let mut by_hand = Board::new();
    by_hand.choose_all(s);
    assert_eq!(board, by_hand);
    assert_eq!(Board::from_givens(""), Board::new());
    assert_eq!(Board::from_givens("x9"), {
        let mut b = Board::new();
        b.fix(1, '9');
        b
    });
}
