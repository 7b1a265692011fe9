use sudoku_solver::sudoku::is_digit_token;
use sudoku_solver::{Choices, FormatError, Sudoku};

const PUZZLE: &str = "5 3 0 0 7 0 0 0 0
6 0 0 1 9 5 0 0 0
0 9 8 0 0 0 0 6 0
8 0 0 0 6 0 0 0 3
4 0 0 8 0 3 0 0 1
7 0 0 0 2 0 0 0 6
0 6 0 0 0 0 2 8 0
0 0 0 4 1 9 0 0 5
0 0 0 0 8 0 0 7 9";

const SOLUTION: &str = "5 3 4 6 7 8 9 1 2
6 7 2 1 9 5 3 4 8
1 9 8 3 4 2 5 6 7
8 5 9 7 6 1 4 2 3
4 2 6 8 5 3 7 9 1
7 1 3 9 2 4 8 5 6
9 6 1 5 3 7 2 8 4
2 8 7 4 1 9 6 3 5
3 4 5 2 8 6 1 7 9";

fn tokens(text: &str) -> Vec<Vec<u8>> {
    text.split_whitespace().map(|t| t.as_bytes().to_vec()).collect()
}

fn digits_of(text: &str) -> Vec<u8> {
    text.split_whitespace().map(|t| t.parse::<u8>().unwrap()).collect()
}

fn board(text: &str) -> Sudoku {
    Sudoku::from_tokens(&tokens(text)).unwrap()
}

fn board_of_digits(digits: &[u8]) -> Sudoku {
    let toks: Vec<Vec<u8>> = digits.iter().map(|d| vec![b'0' + d]).collect();
    Sudoku::from_tokens(&toks).unwrap()
}

fn is_valid_solution(d: &[u8]) -> bool {
    if d.len() != 81 {
        return false;
    }
    for unit in 0..9 {
        let mut row = [false; 10];
        let mut col = [false; 10];
        let mut bx = [false; 10];
        for k in 0..9 {
            let r = d[unit * 9 + k] as usize;
            let c = d[k * 9 + unit] as usize;
            let b = d[(unit / 3 * 3 + k / 3) * 9 + unit % 3 * 3 + k % 3] as usize;
            if r == 0 || c == 0 || b == 0 || r > 9 || c > 9 || b > 9 || row[r] || col[c] || bx[b] {
                return false;
            }
            row[r] = true;
            col[c] = true;
            bx[b] = true;
        }
    }
    true
}

#[test]
fn new_choices_hold_all_nine() {
    let c = Choices::new();
    assert_eq!(c.len(), 9);
    assert_eq!(c.values(), vec![1, 2, 3, 4, 5, 6, 7, 8, 9]);
}

#[test]
fn invalidate_removes_once_and_ignores_zero_and_out_of_range() {
    let mut c = Choices::new();
    c.invalidate(4);
    assert_eq!(c.len(), 8);
    c.invalidate(4);
    assert_eq!(c.len(), 8);
    c.invalidate(0);
    c.invalidate(10);
    c.invalidate(200);
    assert_eq!(c.len(), 8);
    assert_eq!(c.values(), vec![1, 2, 3, 5, 6, 7, 8, 9]);
}

#[test]
fn count_matches_listed_digits() {
    let mut c = Choices::new();
    for v in [9usize, 1, 5, 5, 0, 3] {
        c.invalidate(v);
        assert_eq!(c.len(), c.values().len());
    }
    assert_eq!(c.values(), vec![2, 4, 6, 7, 8]);
    for v in 1..=9usize {
        c.invalidate(v);
    }
    assert_eq!(c.len(), 0);
    assert!(c.values().is_empty());
}

#[test]
fn parse_counts_empty_cells() {
    let s = board(PUZZLE);
    assert_eq!(s.num_empty(), 51);
    assert!(!s.is_full());
    assert_eq!(s.get(0, 0), 5);
    assert_eq!(s.get(8, 8), 9);
    assert_eq!(s.get(0, 2), 0);
}

#[test]
fn parse_rejects_eighty_tokens_naming_the_count() {
    let mut toks = tokens(PUZZLE);
    toks.pop();
    assert_eq!(Sudoku::from_tokens(&toks).unwrap_err(), FormatError::WrongCount { count: 80 });
}

#[test]
fn parse_rejects_too_many_and_no_tokens() {
    let mut toks = tokens(PUZZLE);
    toks.push(b"0".to_vec());
    assert_eq!(Sudoku::from_tokens(&toks).unwrap_err(), FormatError::WrongCount { count: 82 });
    assert_eq!(Sudoku::from_tokens(&Vec::new()).unwrap_err(), FormatError::WrongCount { count: 0 });
}

#[test]
fn parse_rejects_first_bad_token() {
    let mut toks = tokens(PUZZLE);
    toks[7] = b"x".to_vec();
    toks[20] = b"10".to_vec();
    assert_eq!(Sudoku::from_tokens(&toks).unwrap_err(), FormatError::BadToken { index: 7 });
    toks[7] = b"07".to_vec();
    assert_eq!(Sudoku::from_tokens(&toks).unwrap_err(), FormatError::BadToken { index: 20 });
    toks[20] = b"".to_vec();
    assert_eq!(Sudoku::from_tokens(&toks).unwrap_err(), FormatError::BadToken { index: 20 });
    toks[20] = b"0".to_vec();
    let s = Sudoku::from_tokens(&toks).unwrap();
    assert_eq!(s.get(0, 7), 7);
}

#[test]
fn digit_tokens() {
    assert!(is_digit_token(&b"0".to_vec()));
    assert!(is_digit_token(&b"9".to_vec()));
    assert!(is_digit_token(&b"003".to_vec()));
    assert!(!is_digit_token(&b"".to_vec()));
    assert!(!is_digit_token(&b"10".to_vec()));
    assert!(!is_digit_token(&b"a".to_vec()));
    assert!(!is_digit_token(&b"-1".to_vec()));
}

#[test]
fn render_reproduces_parsed_digits() {
    let s = board(PUZZLE);
    let text = String::from_utf8(s.render()).unwrap();
    let expected: String = PUZZLE.lines().map(|l| format!("{}\n", l)).collect();
    assert_eq!(text, expected);
    assert_eq!(s.to_digits(), digits_of(PUZZLE));
}

#[test]
fn candidates_exclude_row_column_and_box() {
    let s = board(PUZZLE);
    assert_eq!(s.get_choices(0, 2).values(), vec![1, 2, 4]);
    assert_eq!(s.get_choices(4, 4).values(), vec![5]);
    assert_eq!(s.get_choices(4, 4).len(), 1);
}

#[test]
fn first_empty_is_row_major_first() {
    assert_eq!(board(PUZZLE).get_first_empty(), Some((0, 2)));
    assert_eq!(board(SOLUTION).get_first_empty(), None);
}

#[test]
fn assign_tracks_empty_count() {
    let mut s = board(PUZZLE);
    s.assign_inplace(0, 2, 4);
    assert_eq!(s.num_empty(), 50);
    assert_eq!(s.get(0, 2), 4);
    s.assign_inplace(0, 2, 1);
    assert_eq!(s.num_empty(), 50);
    assert_eq!(s.get_first_empty(), Some((0, 3)));
}

#[test]
fn first_obvious_fills_one_forced_cell() {
    let before = board(PUZZLE).to_digits();
    let mut s = board(PUZZLE);
    assert!(s.try_first_obvious_inplace());
    assert_eq!(s.num_empty(), 50);
    let after = s.to_digits();
    let solution = digits_of(SOLUTION);
    let changed: Vec<usize> = (0..81).filter(|&i| before[i] != after[i]).collect();
    assert_eq!(changed.len(), 1);
    let i = changed[0];
    assert_eq!(before[i], 0);
    assert_eq!(after[i], solution[i]);
    for j in 0..i {
        if before[j] == 0 {
            assert_ne!(board(PUZZLE).get_choices(j / 9, j % 9).len(), 1);
        }
    }
    let mut fresh = board(PUZZLE);
    let forced = fresh.get_choices(i / 9, i % 9);
    assert_eq!(forced.values(), vec![solution[i]]);
    fresh.assign_inplace(i / 9, i % 9, solution[i]);
    assert_eq!(fresh.to_digits(), after);
}

#[test]
fn solves_known_puzzle() {
    let solved = board(PUZZLE).solve().unwrap();
    assert!(solved.is_full());
    assert_eq!(solved.to_digits(), digits_of(SOLUTION));
    assert!(is_valid_solution(&solved.to_digits()));
}

#[test]
fn solving_twice_gives_the_same_board() {
    let s = board(PUZZLE);
    let a = s.solve().unwrap();
    let b = s.solve().unwrap();
    assert_eq!(a.to_digits(), b.to_digits());
    let empty = board_of_digits(&[0u8; 81]);
    assert_eq!(empty.solve().unwrap().to_digits(), empty.solve().unwrap().to_digits());
}

#[test]
fn solving_a_solved_board_changes_nothing() {
    let s = board(SOLUTION);
    let mut copy = s;
    assert!(copy.try_all_obvious_inplace());
    assert_eq!(copy.to_digits(), s.to_digits());
    assert!(!copy.try_first_obvious_inplace());
    let solved = s.solve().unwrap();
    assert_eq!(solved.to_digits(), digits_of(SOLUTION));
}

#[test]
fn empty_board_gets_some_valid_completion() {
    let mut s = board_of_digits(&[0u8; 81]);
    assert!(!s.is_full());
    assert_eq!(s.num_empty(), 81);
    assert_eq!(s.get_choices(0, 0).len(), 9);
    assert!(!s.try_all_obvious_inplace());
    assert_eq!(s.num_empty(), 81);
    let solved = s.solve().unwrap();
    assert!(solved.is_full());
    assert!(is_valid_solution(&solved.to_digits()));
    assert_eq!(solved.to_digits()[0..18].to_vec(), vec![1, 2, 3, 4, 5, 6, 7, 8, 9, 4, 5, 6, 7, 8, 9, 1, 2, 3]);
}

#[test]
fn single_empty_cell_is_filled_by_propagation() {
    let mut d = digits_of(SOLUTION);
    d[40] = 0;
    let mut s = board_of_digits(&d);
    assert_eq!(s.num_empty(), 1);
    assert_eq!(s.get_choices(4, 4).values(), vec![5]);
    assert!(s.try_all_obvious_inplace());
    assert_eq!(s.to_digits(), digits_of(SOLUTION));
}

#[test]
fn contradiction_has_no_solution() {
    let mut d = [0u8; 81];
    for c in 0..8 {
        d[c] = (c + 1) as u8;
    }
    d[9 * 5 + 8] = 9;
    let s = board_of_digits(&d);
    assert_eq!(s.get_choices(0, 8).len(), 0);
    assert!(s.solve().is_none());
}
