use sudoku::{check_uniqueness, create_base_board, dig_in_order, get_candidates, phase2_dig, shuffle_boards};

fn is_solved(s: &[u8]) -> bool {
    if s.len() != 81 || s.iter().any(|&d| d < 1 || d > 9) {
        return false;
    }
    for a in 0..81 {
        for b in 0..81 {
            let same_row = a / 9 == b / 9;
            let same_col = a % 9 == b % 9;
            let same_box = a / 27 == b / 27 && (a % 9) / 3 == (b % 9) / 3;
            if a != b && (same_row || same_col || same_box) && s[a] == s[b] {
                return false;
            }
        }
    }
    true
}

#[test]
fn base_board_pattern() {
    let base = create_base_board();
    assert_eq!(base.len(), 81);
    assert_eq!(&base[0..9], &[1, 2, 3, 4, 5, 6, 7, 8, 9]);
    assert_eq!(&base[9..18], &[4, 5, 6, 7, 8, 9, 1, 2, 3]);
    assert_eq!(&base[27..36], &[2, 3, 4, 5, 6, 7, 8, 9, 1]);
    assert!(is_solved(&base));
}

#[test]
fn digging_keeps_a_unique_fill() {
    let base = create_base_board();
    let mut puzzle = base.clone();
    let order: Vec<(usize, usize)> = vec![(0, 0), (4, 4), (8, 8), (0, 1), (1, 0)];
    dig_in_order(&mut puzzle, &order);
    // A single open cell can always be filled back in one way, so the first three open.
    assert_eq!(puzzle[0], 0);
    assert_eq!(puzzle[40], 0);
    assert_eq!(puzzle[80], 0);
    for k in 0..81 {
        assert!(puzzle[k] == 0 || puzzle[k] == base[k]);
    }
}

#[test]
fn candidates_of_an_open_cell() {
    let mut board = create_base_board();
    board[0] = 0;
    board[1] = 0;
    // Row 0 lacks 1 and 2; column 0 holds 2 and column 1 holds 1.
    assert_eq!(get_candidates(&board, 0, 0), vec![1]);
    assert_eq!(get_candidates(&board, 0, 1), vec![2]);
    let empty = vec![0u8; 81];
    assert_eq!(get_candidates(&empty, 4, 4), vec![1, 2, 3, 4, 5, 6, 7, 8, 9]);
}

#[test]
fn uniqueness_test_cases() {
    let base = create_base_board();
    assert!(check_uniqueness(&base));
    let mut one_hole = base.clone();
    one_hole[40] = 0;
    assert!(check_uniqueness(&one_hole));
    // With the first row open, the rest of the board still pins it down.
    let mut one_row = base.clone();
    for k in 0..9 {
        one_row[k] = 0;
    }
    assert!(check_uniqueness(&one_row));
    // With the first two rows open, their digits can trade places.
    let mut two_rows = base.clone();
    for k in 0..18 {
        two_rows[k] = 0;
    }
    assert!(!check_uniqueness(&two_rows));
}

#[test]
fn second_phase_opens_chosen_cells() {
    let base = create_base_board();
    let mut moved = false;
    for _ in 0..20 {
        let mut puzzle = base.clone();
        phase2_dig(&mut puzzle, &base, 5);
        let open: Vec<usize> = (0..81).filter(|&k| puzzle[k] == 0).collect();
        assert!(!open.is_empty() && open.len() <= 5);
        for k in 0..81 {
            assert!(puzzle[k] == 0 || puzzle[k] == base[k]);
        }
        if open != vec![0, 1, 2, 3, 4] {
            moved = true;
        }
    }
    assert!(moved);
}

#[test]
fn reshaping_keeps_boards_consistent() {
    let base = create_base_board();
    let mut hole_moved = false;
    let mut renamed = false;
    for _ in 0..30 {
        let mut puzzle = base.clone();
        puzzle[80] = 0;
        let mut solution = base.clone();
        shuffle_boards(&mut puzzle, &mut solution);
        assert!(is_solved(&solution));
        let open: Vec<usize> = (0..81).filter(|&k| puzzle[k] == 0).collect();
        assert_eq!(open.len(), 1);
        let hole = open[0];
        assert!(hole / 9 >= 6 && hole % 9 >= 6);
        for k in 0..81 {
            assert!(puzzle[k] == 0 || puzzle[k] == solution[k]);
        }
        if hole != 80 {
            hole_moved = true;
        }
        let mut first = solution[0..3].to_vec();
        first.sort();
        if first != vec![1, 2, 3] && first != vec![4, 5, 6] && first != vec![7, 8, 9] {
            renamed = true;
        }
    }
    assert!(hole_moved);
    assert!(renamed);
}

#[test]
fn uniqueness_test_counts_passing_branches() {
    // This board can be finished in three ways, yet exactly one candidate of its first
    // open cell leads to a board that passes, so it passes as well.
    let text = "534600902000005008198300000859000020000050790710024806901500200280000605005000179";
    let board: Vec<u8> = text.chars().map(|ch| ch.to_digit(10).unwrap() as u8).collect();
    assert!(check_uniqueness(&board));
}

#[test]
fn dig_limits_by_difficulty() {
    assert_eq!(sudoku::max_digs_for("easy"), 5);
    assert_eq!(sudoku::max_digs_for("medium"), 15);
    assert_eq!(sudoku::max_digs_for("hard"), 30);
    assert_eq!(sudoku::max_digs_for("expert"), 15);
    assert_eq!(sudoku::max_digs_for(""), 15);
}

#[test]
fn uniqueness_test_depends_on_column_order() {
    // Trading columns 0 and 2 changes which cell the test opens first, and so its answer.
    let before = "530000912000105000000302500850060403400803700000904006001000004080000035345080100";
    let after = "035000912000105000000302500058060403004803700000904006100000004080000035543080100";
    let parse = |t: &str| -> Vec<u8> { t.chars().map(|ch| ch.to_digit(10).unwrap() as u8).collect() };
    assert!(!check_uniqueness(&parse(before)));
    assert!(check_uniqueness(&parse(after)));
}
