use sudoku::inferences::{is_n_fish_pair, InferenceKind, InferenceResult, InferenceSet, TheCoordsAndTheValue};
use sudoku::types::{Coords, Difficulty, RCCoords, Sudoku};
use sudoku::utils::generate_combinations;

/// Runs the strategies on the board until it is solved, a conflict shows up, or no
/// strategy finds anything; returns the last board and how the run ended.
fn run_solver(field: &Sudoku) -> (Sudoku, &'static str) {
    let mut field = field.clone();
    let ifs = InferenceSet::new();
    loop {
        let old_field = field.clone();
        let result = ifs.analyze(&old_field);
        match result {
            Some(result) => {
                println!("{:?}", result.inference);
                InferenceSet::apply(&mut field, result);
                if let Some(conflict) = field.find_conflict() {
                    println!("conflict: {}", conflict.len());
                    return (field, "conflict");
                } else if field.check_if_finish() {
                    return (field, "finished");
                }
            }
            None => {
                return (field, "stuck");
            }
        }
    }
}

fn board(text: &str) -> Sudoku {
    Sudoku::initial_by_string(text.to_string()).unwrap()
}

#[test]
fn test1() {
    let field = board("070009800008002006906100000600000150030801020092000008000003701800600300001900060");
    run_solver(&field);
}

#[test]
fn test2() {
    let field = board("615800790290600015040000260000080000730512046000090000080000030900008071071060582");
    run_solver(&field);
}

#[test]
fn test3() {
    let field = board("010076000805000300000000000270000000000500100600000000003000002000900040000000076");
    run_solver(&field);
}

#[test]
fn test4() {
    let field = board("800000000003600000070090200050007000000045700000100030001000068008500010090000400");
    run_solver(&field);
}

#[test]
fn test5() {
    let field = board("000000100000500306000000500030600412060300958800000000000000000100000000000000000");
    run_solver(&field);
}

#[test]
fn test6() {
    let field = board("060000000100000054000000700003000001008010070051000000080900000007100000010000000");
    run_solver(&field);
}

#[test]
fn test7() {
    let field = board("586000020020465873437020516300710068008000100010082000073090045000000390090253080");
    run_solver(&field);
}

#[test]
fn test8() {
    let field = board("900400613320190700000000009000017008000000000700360000800000000009045086253001004");
    run_solver(&field);
}

#[test]
fn test9() {
    let field = board("400090708007810400080060050800130007000070000170028005068051024513249876042080501");
    run_solver(&field);
}

#[test]
fn test10() {
    let field = board("000000000000010000012304560000000000035000780081020350000000000057000630063807210");
    run_solver(&field);
}

#[test]
fn test11() {
    let field = board("807530429935427681240900375483652917672193854009874236020340708308710542704200103");
    run_solver(&field);
}

#[test]
fn test12() {
    let field = board("000000000000010000012304560000000000035000780081020350000000000057000630063807210");
    run_solver(&field);
}

#[test]
fn generate_combinations_test() {
    let mut all_combinations = Vec::new();
    for size in 2..=4 {
        let mut paths = Vec::new();
        generate_combinations(9, size, 0, &mut paths, &mut all_combinations);
    }
    println!("{:?}", all_combinations);
}

#[test]
fn is_n_fish_pair_test() {
    let v1 = vec![(0, 1), (0, 5)];
    let v2 = vec![(7, 1), (7, 5)];
    assert!(is_n_fish_pair(&v1, &v2) == true);
}

#[test]
fn test_initial_by_random() {
    Sudoku::new(Difficulty::EASY);
}

#[test]
fn solver_finishes_solvable_puzzles() {
    for text in [
        "615800790290600015040000260000080000730512046000090000080000030900008071071060582",
        "586000020020465873437020516300710068008000100010082000073090045000000390090253080",
        "807530429935427681240900375483652917672193854009874236020340708308710542704200103",
    ] {
        let (field, end) = run_solver(&board(text));
        assert_eq!(end, "finished");
        assert!(field.find_conflict().is_none());
        assert!(field.check_if_finish());
    }
}

#[test]
fn solver_keeps_the_givens() {
    let text = "615800790290600015040000260000080000730512046000090000080000030900008071071060582";
    let start = board(text);
    let (field, _) = run_solver(&start);
    for (k, ch) in text.chars().enumerate() {
        let d = ch.to_digit(10).unwrap() as u8;
        if d != 0 {
            let rc = sudoku::types::RCCoords::from_idx(k);
            assert_eq!(field.get_cell_ref_by_rc(rc).value, Some(d - 1));
        }
    }
}

#[test]
fn generate_combinations_counts() {
    let mut all_combinations = Vec::new();
    let mut paths = Vec::new();
    generate_combinations(9, 2, 0, &mut paths, &mut all_combinations);
    assert_eq!(all_combinations.len(), 36);
    assert!(paths.is_empty());
    generate_combinations(9, 3, 0, &mut paths, &mut all_combinations);
    generate_combinations(9, 4, 0, &mut paths, &mut all_combinations);
    assert_eq!(all_combinations.len(), 36 + 84 + 126);
    assert_eq!(all_combinations[0].0, vec![0, 1]);
    assert_eq!(all_combinations[0].1, vec![2, 3, 4, 5, 6, 7, 8]);
    for (chosen, rest) in &all_combinations {
        assert_eq!(chosen.len() + rest.len(), 9);
        for i in 0..9 {
            assert!(chosen.contains(&i) != rest.contains(&i));
        }
    }
}

#[test]
fn is_n_fish_pair_rejects() {
    let v1 = vec![(0, 1), (0, 5)];
    assert!(!is_n_fish_pair(&v1, &vec![]));
    assert!(!is_n_fish_pair(&v1, &vec![(3, 1), (3, 4)]));
    assert!(is_n_fish_pair(&v1, &vec![(3, 5)]));
}

#[test]
fn naked_single_found_first() {
    // Row 0 misses only the digit 9 at its last cell.
    let field = board("123456780000000000000000000000000000000000000000000000000000000000000000000000000");
    let ifs = InferenceSet::new();
    let result = ifs.analyze(&field).unwrap();
    assert!(matches!(result.inference, InferenceKind::OnlyOneLeft));
    let set = result.conclusion_set_value.clone().unwrap();
    assert_eq!(set.len(), 1);
    assert_eq!((set[0].the_coords.r, set[0].the_coords.c), (0, 8));
    assert_eq!(set[0].the_value, vec![8]);
}

#[test]
fn apply_fills_and_removes() {
    let mut field = board("123456780000000000000000000000000000000000000000000000000000000000000000000000000");
    let ifs = InferenceSet::new();
    let result = ifs.analyze(&field).unwrap();
    InferenceSet::apply(&mut field, result);
    let rc = sudoku::types::RCCoords { r: 0, c: 8 };
    assert_eq!(field.get_cell_ref_by_rc(rc).value, Some(8));
    // Digit 9 (stored as 8) left the candidates of column 8 and of the top-right grid.
    let below = field.get_cell_ref_by_rc(sudoku::types::RCCoords { r: 5, c: 8 });
    assert!(!below.candidates.contains(8));
    let grid = field.get_cell_ref_by_rc(sudoku::types::RCCoords { r: 1, c: 6 });
    assert!(!grid.candidates.contains(8));
    let elsewhere = field.get_cell_ref_by_rc(sudoku::types::RCCoords { r: 5, c: 0 });
    assert!(elsewhere.candidates.contains(8));
}

#[test]
fn analyze_stuck_on_solved_board() {
    let field = board("534678912672195348198342567859761423426853791713924856961537284287419635345286179");
    assert!(field.check_if_finish());
    assert!(field.find_conflict().is_none());
    let ifs = InferenceSet::new();
    assert!(ifs.analyze(&field).is_none());
}

#[test]
fn apply_uses_row_and_column_only() {
    let mut field = board("123456780000000000000000000000000000000000000000000000000000000000000000000000000");
    let odd = Coords { r: 0, c: 8, g: 42, n: 42 };
    let result = InferenceResult {
        inference: InferenceKind::OnlyOneLeft,
        condition: vec![],
        conclusion_set_value: Some(vec![TheCoordsAndTheValue { the_coords: odd, the_value: vec![8] }]),
        conclusion_remove_drafts: Some(vec![TheCoordsAndTheValue {
            the_coords: Coords { r: 5, c: 8, g: 42, n: 42 },
            the_value: vec![8, 7],
        }]),
    };
    InferenceSet::apply(&mut field, result);
    assert_eq!(field.get_cell_ref_by_rc(RCCoords { r: 0, c: 8 }).value, Some(8));
    let below = field.get_cell_ref_by_rc(RCCoords { r: 5, c: 8 });
    assert!(!below.candidates.contains(8));
    assert!(!below.candidates.contains(7));
    assert!(below.candidates.contains(6));
}

#[test]
fn singles_follow_the_solution() {
    let solved = "534678912672195348198342567859761423426853791713924856961537284287419635345286179";
    let mut text = solved.to_string();
    text.replace_range(0..1, "0");
    text.replace_range(40..41, "0");
    text.replace_range(80..81, "0");
    let mut field = board(&text);
    let ifs = InferenceSet::new();
    while !field.check_if_finish() {
        let result = ifs.analyze(&field).unwrap();
        assert!(matches!(
            result.inference,
            InferenceKind::OnlyOneLeft
                | InferenceKind::OnlyOneRightInRow
                | InferenceKind::OnlyOneRightInCol
                | InferenceKind::OnlyOneRightInGrid
        ));
        InferenceSet::apply(&mut field, result);
        for (k, ch) in solved.chars().enumerate() {
            let cell = field.get_cell_ref_by_rc(RCCoords::from_idx(k));
            let d = ch.to_digit(10).unwrap() as u8 - 1;
            match cell.value {
                Some(v) => assert_eq!(v, d),
                None => assert!(cell.candidates.contains(d)),
            }
        }
    }
    assert!(field.find_conflict().is_none());
}

/// Every deduction keeps the board on the way to the puzzle's one solution: placed digits
/// match it, draft cells keep its digit, and no conflict shows.
#[test]
fn deductions_follow_the_solution() {
    let puzzles = [
        "615800790290600015040000260000080000730512046000090000080000030900008071071060582",
        "800000000003600000070090200050007000000045700000100030001000068008500010090000400",
        "586000020020465873437020516300710068008000100010082000073090045000000390090253080",
        "400090708007810400080060050800130007000070000170028005068051024513249876042080501",
        "000000000000010000012304560000000000035000780081020350000000000057000630063807210",
    ];
    let ifs = InferenceSet::new();
    let mut beyond_singles = 0;
    for text in puzzles {
        let mut field = board(text);
        let sols = field.sovle();
        if sols.len() != 1 {
            continue;
        }
        let sol = &sols[0];
        loop {
            let result = match ifs.analyze(&field) {
                Some(result) => result,
                None => break,
            };
            if !matches!(
                result.inference,
                InferenceKind::OnlyOneLeft
                    | InferenceKind::OnlyOneRightInRow
                    | InferenceKind::OnlyOneRightInCol
                    | InferenceKind::OnlyOneRightInGrid
            ) {
                beyond_singles += 1;
            }
            InferenceSet::apply(&mut field, result);
            for k in 0..81 {
                let cell = field.get_cell_ref_by_rc(RCCoords::from_idx(k));
                let d = sol.get_cell_ref_by_rc(RCCoords::from_idx(k)).value.unwrap();
                match cell.value {
                    Some(v) => assert_eq!(v, d),
                    None => assert!(cell.candidates.contains(d)),
                }
            }
            assert!(field.find_conflict().is_none());
            if field.check_if_finish() {
                break;
            }
        }
    }
    assert!(beyond_singles > 0);
}

/// The search returns completions: every open cell gets one of its candidates and no unit
/// holds a digit twice; a puzzle with more than one completion gives at least two boards.
#[test]
fn search_boards_are_completions() {
    let puzzle = board("615800790290600015040000260000080000730512046000090000080000030900008071071060582");
    let sols = puzzle.sovle();
    assert_eq!(sols.len(), 1);
    let sol = &sols[0];
    assert!(sol.find_conflict().is_none());
    assert!(sol.check_if_finish());
    for k in 0..81 {
        let before = puzzle.get_cell_ref_by_rc(RCCoords::from_idx(k));
        let after = sol.get_cell_ref_by_rc(RCCoords::from_idx(k));
        match before.value {
            Some(v) => assert_eq!(after.value, Some(v)),
            None => assert!(before.candidates.contains(after.value.unwrap())),
        }
    }
    let open = board("000000000000000000000000000000000000000000000000000000000000000000000000000000000");
    assert!(open.sovle().len() >= 2);
}
