use sudoku::types::{Candidate, CellStatus, Coords, Difficulty, GNCoords, RCCoords, Sudoku};
use sudoku::utils::{
    get_coords_with_direction, get_one_index_with_direction, get_other_index_with_direction,
    get_rc_coord_with_direction, get_rc_index_with_direction, IterDirection,
};

#[test]
fn rc_gn_round_trip() {
    for r in 0..9 {
        for c in 0..9 {
            let rc = RCCoords { r, c };
            let gn: GNCoords = rc.into();
            assert_eq!(gn.g, r / 3 * 3 + c / 3);
            assert_eq!(gn.n, r % 3 * 3 + c % 3);
            let back: RCCoords = gn.into();
            assert_eq!(back, rc);
            let coords: Coords = rc.into();
            assert_eq!((coords.r, coords.c, coords.g, coords.n), (r, c, gn.g, gn.n));
            let from_gn: Coords = gn.into();
            assert_eq!(from_gn, coords);
        }
    }
}

#[test]
fn rc_from_index() {
    let rc = RCCoords::from_idx(40);
    assert_eq!((rc.r, rc.c), (4, 4));
    let rc = RCCoords::from_idx(80);
    assert_eq!((rc.r, rc.c), (8, 8));
    let rc = RCCoords::from_idx(9);
    assert_eq!((rc.r, rc.c), (1, 0));
}

#[test]
fn candidate_operations() {
    let full = Candidate::full();
    assert_eq!(full.len(), 9);
    assert_eq!(full.to_vec(), vec![0, 1, 2, 3, 4, 5, 6, 7, 8]);
    assert_eq!(full.get_unique_candidate(), None);

    let mut c = Candidate::full();
    c.remove(3);
    assert!(!c.contains(3));
    assert!(c.contains(4));
    assert_eq!(c.len(), 8);

    let mut single = Candidate::full();
    single.add(5);
    assert_eq!(single.to_vec(), vec![5]);
    assert_eq!(single.get_unique_candidate(), Some(5));

    let mut a = Candidate::full();
    let mut b = Candidate::full();
    for v in 0..5 {
        a.remove(v);
    }
    for v in 3..9 {
        b.remove(v);
    }
    assert_eq!(a.to_vec(), vec![5, 6, 7, 8]);
    assert_eq!(b.to_vec(), vec![0, 1, 2]);
    assert_eq!(a.union(&b).len(), 7);
    assert_eq!(a.intersect(&b).len(), 0);
    assert_eq!(full.subtract(&a).to_vec(), vec![0, 1, 2, 3, 4]);
    let empty = Candidate::default();
    assert_eq!(empty.len(), 0);
    assert_eq!(empty.get_unique_candidate(), None);
}

#[test]
fn difficulty_ranges() {
    assert_eq!(Difficulty::EASY.empty_cells(), (35, 40));
    assert_eq!(Difficulty::NORMAL.empty_cells(), (40, 45));
    assert_eq!(Difficulty::MIDIUM.empty_cells(), (45, 50));
    assert_eq!(Difficulty::HARD.empty_cells(), (50, 55));
    assert_eq!(Difficulty::EXPERT.empty_cells(), (55, 64));
}

#[test]
fn initial_by_string_rejects_wrong_length() {
    let err = Sudoku::initial_by_string("12345".to_string()).err().unwrap();
    assert_eq!(err, "Invalid String Length.");
    let long = "0".repeat(82);
    assert!(Sudoku::initial_by_string(long).is_err());
}

#[test]
fn initial_by_string_reads_cells() {
    let text = "070009800008002006906100000600000150030801020092000008000003701800600300001900060";
    let field = Sudoku::initial_by_string(text.to_string()).unwrap();
    let given = field.get_cell_ref_by_rc(RCCoords { r: 0, c: 1 });
    assert_eq!(given.value, Some(6));
    assert!(matches!(given.status, CellStatus::FIXED));
    let open = field.get_cell_ref_by_rc(RCCoords { r: 0, c: 0 });
    assert_eq!(open.value, None);
    assert!(matches!(open.status, CellStatus::DRAFT));
    // Row 0 gives 7, 9, 8; column 0 gives 9, 6, 8; grid 0 gives 7, 8, 9, 6.
    assert_eq!(open.candidates.to_vec(), vec![0, 1, 2, 3, 4]);
    assert_eq!(open.coords, Coords { r: 0, c: 0, g: 0, n: 0 });
    assert!(!field.check_if_finish());
    assert!(field.find_conflict().is_none());
}

#[test]
fn find_conflict_reports_pairs() {
    let text = "110000000000000000000000000000000000000000000000000000000000000000000000000000000";
    let field = Sudoku::initial_by_string(text.to_string()).unwrap();
    let conflicts = field.find_conflict().unwrap();
    assert!(!conflicts.is_empty());
    for (a, b) in conflicts {
        assert_eq!(a.value, b.value);
    }
}

#[test]
fn solving_search_counts() {
    let solved = "534678912672195348198342567859761423426853791713924856961537284287419635345286179";
    let mut text = solved.to_string();
    text.replace_range(0..2, "00");
    let field = Sudoku::initial_by_string(text).unwrap();
    let sols = field.sovle();
    assert_eq!(sols.len(), 1);
    assert!(sols[0].check_if_finish());
    let first = sols[0].get_cell_ref_by_rc(RCCoords { r: 0, c: 0 });
    assert_eq!(first.value, Some(4));

    // With more than one way to finish, the search reports more than one board.
    let open = "000000100000500306000000500030600412060300958800000000000000000100000000000000000";
    let field = Sudoku::initial_by_string(open.to_string()).unwrap();
    let sols = field.sovle();
    assert!(sols.len() > 1);
    assert!(sols.iter().all(|s| s.check_if_finish() && s.find_conflict().is_none()));
}

#[test]
fn new_board_has_candidates() {
    let field = Sudoku::new(Difficulty::HARD);
    assert!(field.find_conflict().is_none());
    let base = Sudoku::create_base();
    let mut open = 0;
    for k in 0..81 {
        let rc = RCCoords::from_idx(k);
        let cell = field.get_cell_ref_by_rc(rc);
        assert_eq!(cell.value, base.get_cell_ref_by_rc(rc).value);
        if cell.value.is_none() {
            open += 1;
            assert_eq!(cell.candidates.len(), 1);
        }
    }
    assert!(open > 0);
}

#[test]
fn coords_by_direction() {
    let rc = get_rc_coord_with_direction(2, 7, &IterDirection::Row);
    assert_eq!((rc.r, rc.c), (2, 7));
    let rc = get_rc_coord_with_direction(2, 7, &IterDirection::Column);
    assert_eq!((rc.r, rc.c), (7, 2));
    assert_eq!(get_rc_index_with_direction(RCCoords { r: 3, c: 5 }, &IterDirection::Row), 3);
    assert_eq!(get_rc_index_with_direction(RCCoords { r: 3, c: 5 }, &IterDirection::Column), 5);
    let coords: Coords = RCCoords { r: 4, c: 8 }.into();
    assert_eq!(get_one_index_with_direction(coords, &IterDirection::Row), 4);
    assert_eq!(get_one_index_with_direction(coords, &IterDirection::Column), 8);
    assert_eq!(get_one_index_with_direction(coords, &IterDirection::Grid), 5);
    assert_eq!(get_other_index_with_direction(coords, &IterDirection::Row), 8);
    assert_eq!(get_other_index_with_direction(coords, &IterDirection::Column), 4);
    assert_eq!(get_other_index_with_direction(coords, &IterDirection::Grid), 5);
    let c = get_coords_with_direction(5, 5, &IterDirection::Grid);
    assert_eq!((c.r, c.c), (4, 8));
}

#[test]
fn board_text_lines() {
    let text = "070009800008002006906100000600000150030801020092000008000003701800600300001900060";
    let field = Sudoku::initial_by_string(text.to_string()).unwrap();
    let lines = field.board_lines();
    assert_eq!(lines.len(), 37);
    assert_eq!(lines[0], "╔═══╤═══╤═══╦═══╤═══╤═══╦═══╤═══╤═══╗");
    assert_eq!(lines[4], "╟───┼───┼───╫───┼───┼───╫───┼───┼───╢");
    assert_eq!(lines[12], "╠═══╪═══╪═══╬═══╪═══╪═══╬═══╪═══╪═══╣");
    assert_eq!(lines[36], "╚═══╧═══╧═══╩═══╧═══╧═══╩═══╧═══╧═══╝");
    // Cell (0, 0) is open with candidates 1 to 5; cell (0, 1) gives 7.
    assert!(lines[1].starts_with("║123│\\ /│"));
    assert!(lines[2].starts_with("║45 │ 7 │"));
    assert!(lines[3].starts_with("║   │/ \\│"));
}
