use bridge_wrangler::bridge::{DdTable, Direction, Strain, Vulnerability};
use bridge_wrangler::commands::analyze::{
    best_contract_for_side, board_selected, board_to_deal_text, calculate_score,
    declarer_tricks, display_table, par_score, parse_board_range, select_boards,
    vulnerability_flags, AnalyzeError, DISPLAY_DECLARERS, DISPLAY_STRAINS,
};
use bridge_wrangler::bridge::Deal;

fn sample_table() -> DdTable {
    let mut table = DdTable::new();
    let mut n = 0u8;
    for declarer in DISPLAY_DECLARERS {
        for strain in DISPLAY_STRAINS {
            table.set(declarer, strain, n % 14);
            n += 1;
        }
    }
    table
}

#[test]
fn analyze_test_parse_board_range() {
    assert_eq!(parse_board_range("1-4").unwrap(), vec![1, 2, 3, 4]);
    assert_eq!(parse_board_range("1,3,5").unwrap(), vec![1, 3, 5]);
    assert_eq!(parse_board_range("1-3,7").unwrap(), vec![1, 2, 3, 7]);
    assert_eq!(parse_board_range("1").unwrap(), vec![1]);
}

#[test]
fn test_calculate_score() {
    // 3NT making exactly, not vul
    assert_eq!(calculate_score(3, Strain::NoTrump, 9, false, false), 400);
    // 4S making exactly, vul
    assert_eq!(calculate_score(4, Strain::Spades, 10, true, false), 620);
    // 3NT with 2 overtricks, not vul
    assert_eq!(calculate_score(3, Strain::NoTrump, 11, false, false), 460);
}

#[test]
fn display_table_is_notrump_first_and_partners_adjacent() {
    let table = sample_table();
    let shown = display_table(&table);
    let lines: Vec<&str> = shown.lines().collect();
    assert_eq!(lines[0], "       NT   S   H   D   C");
    assert_eq!(lines.len(), 5);
    for (line, declarer) in lines[1..].iter().zip(DISPLAY_DECLARERS) {
        assert!(line.starts_with(&format!("  {}  ", declarer.to_char())));
    }
}

#[test]
fn display_table_pads_each_cell_to_two_columns() {
    let table = sample_table();
    let shown = display_table(&table);
    let lines: Vec<&str> = shown.lines().collect();
    // North's row holds 0..4, South's 5..9, East's 10..13 then 0.
    assert_eq!(lines[1], "  N     0   1   2   3   4");
    assert_eq!(lines[2], "  S     5   6   7   8   9");
    assert_eq!(lines[3], "  E    10  11  12  13   0");
}

#[test]
fn scores_of_slams_doubled_and_minor_contracts() {
    // 6S vulnerable, made exactly: 180 + 500 game + 750 slam.
    assert_eq!(calculate_score(6, Strain::Spades, 12, true, false), 1430);
    // 7NT not vulnerable: 220 + 300 + 1000.
    assert_eq!(calculate_score(7, Strain::NoTrump, 13, false, false), 1520);
    // 2C not vulnerable with one overtrick: 40 + 50 + 20.
    assert_eq!(calculate_score(2, Strain::Clubs, 9, false, false), 110);
    // 1H doubled, vulnerable, one overtrick: 60 + 50 + 200.
    assert_eq!(calculate_score(1, Strain::Hearts, 8, true, true), 310);
    // 5D not vulnerable: 100 + 300.
    assert_eq!(calculate_score(5, Strain::Diamonds, 11, false, false), 400);
}

#[test]
fn a_side_that_makes_nothing_passes() {
    let table = DdTable::new();
    let (contract, score) = best_contract_for_side(&table, true, false);
    assert_eq!(contract, "Pass");
    assert_eq!(score, 0);
}

#[test]
fn the_par_is_the_better_side() {
    let mut table = DdTable::new();
    // North makes ten tricks in spades; East nine in no trump.
    table.set(Direction::North, Strain::Spades, 10);
    table.set(Direction::East, Strain::NoTrump, 9);
    let (contract, score) = best_contract_for_side(&table, true, false);
    assert_eq!(contract, "4S by N");
    assert_eq!(score, 420);
    let (ew, ew_score) = best_contract_for_side(&table, false, false);
    assert_eq!(ew, "3NT by E");
    assert_eq!(ew_score, 400);
    assert_eq!(par_score(&table, false, false), ("4S by N".to_string(), 420));
    // Vulnerable, East-West's game scores 600 and beats North-South's 420;
    // the score is given from North-South's side.
    assert_eq!(par_score(&table, false, true), ("3NT by E".to_string(), -600));
    let mut ew_only = DdTable::new();
    ew_only.set(Direction::West, Strain::Hearts, 10);
    assert_eq!(par_score(&ew_only, false, false), ("4H by W".to_string(), -420));
    // Equal bests go to North-South.
    let mut tied = DdTable::new();
    tied.set(Direction::South, Strain::Hearts, 10);
    tied.set(Direction::West, Strain::Spades, 10);
    assert_eq!(par_score(&tied, false, false), ("4H by S".to_string(), 420));
    assert_eq!(par_score(&DdTable::new(), true, true), ("Pass".to_string(), 0));
}

#[test]
fn vulnerability_flags_name_the_sides() {
    assert_eq!(vulnerability_flags(Vulnerability::Neither), (false, false));
    assert_eq!(vulnerability_flags(Vulnerability::NorthSouth), (true, false));
    assert_eq!(vulnerability_flags(Vulnerability::EastWest), (false, true));
    assert_eq!(vulnerability_flags(Vulnerability::Both), (true, true));
}

#[test]
fn boards_are_selected_by_range() {
    let allowed = Some(vec![1, 3]);
    assert!(board_selected(Some(3), &allowed));
    assert!(!board_selected(Some(2), &allowed));
    assert!(!board_selected(None, &allowed));
    assert!(board_selected(None, &None));
}

#[test]
fn declarer_tricks_come_from_north_south_tricks() {
    assert_eq!(declarer_tricks(Direction::South, 9, 13), 9);
    assert_eq!(declarer_tricks(Direction::West, 9, 13), 4);
}

#[test]
fn a_deal_for_the_solver_starts_at_north() {
    let deal = Deal {
        north: "AKQ.JT9.87.6543".to_string(),
        east: "J.A.K.Q".to_string(),
        south: "...".to_string(),
        west: "...".to_string(),
    };
    assert_eq!(
        board_to_deal_text(&deal),
        Some("N:AKQ.JT9.87.6543 J.A.K.Q ... ...".to_string())
    );
    let empty = Deal {
        north: "...".to_string(),
        east: "...".to_string(),
        south: "...".to_string(),
        west: "...".to_string(),
    };
    assert_eq!(board_to_deal_text(&empty), None);
}

#[test]
fn the_boards_to_analyze_are_those_the_range_selects() {
    let numbers = vec![Some(1), None, Some(3), Some(4)];
    assert_eq!(select_boards(&numbers, &None), Ok(vec![0, 1, 2, 3]));
    assert_eq!(select_boards(&numbers, &Some(vec![3, 1])), Ok(vec![0, 2]));
    assert_eq!(select_boards(&numbers, &Some(vec![9])), Err(AnalyzeError::NoBoardsSelected));
    assert_eq!(select_boards(&vec![], &None), Err(AnalyzeError::NoBoardsSelected));
}
