use bridge_wrangler::bridge::{
    rotate_dd_table, rotate_direction, rotation_amount, Board, DdTable, Deal, Direction, Strain,
    Vulnerability,
};
use bridge_wrangler::commands::commentary::{mark_seat_word, rotate_commentary};
use bridge_wrangler::commands::rotate_deals::{
    declarer_column, double_dummy_values, find_basis, make_output_path, output_name, parse_extra_tags,
    parse_pattern, parse_tag_line, rotate_board, rotate_boards, rotate_dd_rows,
    rotate_direction_char, rotate_direction_value, rotate_double_dummy_tricks,
    rotate_par_contract, rotate_score_value, row_field, seats_of_pattern, split_patterns, DdTricksRotations,
    RotateError, RotationBasis, RotationInfo, RotationInfos,
};
use bridge_wrangler::commands::rotated_pbn::write_rotated_pbn;

#[test]
fn test_parse_pattern() {
    let p = parse_pattern("NESW").unwrap();
    assert_eq!(p.len(), 4);
    assert_eq!(p[0], Direction::North);
    assert_eq!(p[1], Direction::East);
    assert_eq!(p[2], Direction::South);
    assert_eq!(p[3], Direction::West);

    let p = parse_pattern("ns").unwrap();
    assert_eq!(p.len(), 2);
    assert_eq!(p[0], Direction::North);
    assert_eq!(p[1], Direction::South);
}

#[test]
fn upper_cased_patterns_read_seat_by_seat() {
    assert_eq!(
        seats_of_pattern("NSEW"),
        Ok(vec![Direction::North, Direction::South, Direction::East, Direction::West])
    );
    assert_eq!(seats_of_pattern("N-S"), Err(RotateError::InvalidDirection('-')));
    assert_eq!(seats_of_pattern(""), Err(RotateError::EmptyPattern));
    assert_eq!(output_name("deals", Some("txt"), "NESW"), "deals - NESW.txt");
    assert_eq!(output_name("deals", None, "S"), "deals - S.pbn");
}

#[test]
fn seat_words_are_marked_where_the_word_flags_allow() {
    let text: Vec<char> = "North, SOUTH_x south".chars().collect();
    let flags: Vec<bool> = text.iter().map(|c| c.is_alphanumeric() || *c == '_').collect();
    let marked: String = mark_seat_word(&text, 0, &flags).into_iter().collect();
    assert_eq!(marked, "__DIR_TITLE_0__, SOUTH_x south");
    let marked: String = mark_seat_word(&text, 2, &flags).into_iter().collect();
    assert_eq!(marked, "North, SOUTH_x __DIR_LOWER_2__");
    // With every character counted as a word character no boundary is found
    // inside the text, only at its ends.
    let all_word = vec![true; text.len()];
    let marked: String = mark_seat_word(&text, 0, &all_word).into_iter().collect();
    assert_eq!(marked, "North, SOUTH_x south");
}

#[test]
fn patterns_reject_other_letters_and_emptiness() {
    assert_eq!(parse_pattern("NX"), Err(RotateError::InvalidDirection('X')));
    assert_eq!(parse_pattern(""), Err(RotateError::EmptyPattern));
    assert_eq!(split_patterns("S, NS ,NESW"), vec!["S", "NS", "NESW"]);
}

#[test]
fn test_rotation_amount() {
    assert_eq!(rotation_amount(Direction::North, Direction::North), 0);
    assert_eq!(rotation_amount(Direction::North, Direction::East), 1);
    assert_eq!(rotation_amount(Direction::North, Direction::South), 2);
    assert_eq!(rotation_amount(Direction::North, Direction::West), 3);

    assert_eq!(rotation_amount(Direction::East, Direction::North), 3);
    assert_eq!(rotation_amount(Direction::South, Direction::North), 2);
}

#[test]
fn test_rotate_direction() {
    assert_eq!(rotate_direction(Direction::North, 0), Direction::North);
    assert_eq!(rotate_direction(Direction::North, 1), Direction::East);
    assert_eq!(rotate_direction(Direction::North, 2), Direction::South);
    assert_eq!(rotate_direction(Direction::North, 3), Direction::West);
    assert_eq!(rotate_direction(Direction::East, 1), Direction::South);
}

#[test]
fn a_turn_and_its_remainder_make_a_full_turn() {
    for d in [Direction::North, Direction::East, Direction::South, Direction::West] {
        for r in 0..4u8 {
            assert_eq!(rotate_direction(rotate_direction(d, r), 4 - r), d);
        }
    }
}

#[test]
fn test_rotate_score_value() {
    assert_eq!(rotate_score_value("NS 420", 0), "NS 420");
    assert_eq!(rotate_score_value("NS 420", 1), "EW 420");
    assert_eq!(rotate_score_value("NS 420", 2), "NS 420");
    assert_eq!(rotate_score_value("EW -100", 1), "NS -100");
}

#[test]
fn direction_values_keep_their_case() {
    assert_eq!(rotate_direction_value("N", 1), "E");
    assert_eq!(rotate_direction_value("w", 1), "n");
    assert_eq!(rotate_direction_value("NS", 1), "NS");
    assert_eq!(rotate_direction_value("?", 1), "?");
    assert_eq!(rotate_direction_char('s', 3), 'e');
}

#[test]
fn a_par_contract_names_who_plays_it_after_the_rotation() {
    // A side swaps on an odd rotation, as a Score does.
    assert_eq!(rotate_par_contract("NS 4H+1", 1), "EW 4H+1");
    assert_eq!(rotate_par_contract("NS 4H+1", 2), "NS 4H+1");
    assert_eq!(rotate_par_contract("EW 2SX-1", 3), "NS 2SX-1");

    // A single seat moves with its hand.
    assert_eq!(rotate_par_contract("N 3N=", 1), "E 3N=");
    assert_eq!(rotate_par_contract("W 3N=", 2), "E 3N=");

    // Every contract of a tie is rotated, and a passed-out par still reads.
    assert_eq!(
        rotate_par_contract("EW 2SX-1; EW 3CX-1", 1),
        "NS 2SX-1; NS 3CX-1"
    );
    assert_eq!(rotate_par_contract("NS Pass", 1), "EW Pass");
    assert_eq!(rotate_par_contract("NS 4H+1", 0), "NS 4H+1");
}

#[test]
fn a_par_turned_twice_is_turned_by_the_sum() {
    let once = rotate_par_contract("N 3N=; EW 2SX-1", 1);
    assert_eq!(once, "E 3N=; NS 2SX-1");
    assert_eq!(rotate_par_contract(&once, 2), rotate_par_contract("N 3N=; EW 2SX-1", 3));
    assert_eq!(rotate_par_contract(&once, 3), "N 3N=; EW 2SX-1");
    assert_eq!(rotate_par_contract("s 4S=;; w 1N", 1), "w 4S=;; n 1N");
}

#[test]
fn a_full_turn_gives_a_par_back() {
    for v in ["NS 4H+1", "n 3N=; EW 2SX-1", "Pass", "E 3N=;; s x", ""] {
        for r in 0..=4u8 {
            assert_eq!(rotate_par_contract(&rotate_par_contract(v, r), 4 - r), v);
        }
        assert_eq!(rotate_par_contract(v, 4), v);
        assert_eq!(rotate_par_contract(v, 1).len(), v.len());
    }
}

#[test]
fn par_contracts_that_name_no_seat_are_kept() {
    assert_eq!(rotate_par_contract("Pass", 1), "Pass");
    assert_eq!(rotate_par_contract("NSE 4H", 1), "NSE 4H");
    assert_eq!(rotate_par_contract("N 3N=; S 3N=", 1), "E 3N=; W 3N=");
}

#[test]
fn declarer_column_reads_the_header() {
    assert_eq!(
        declarer_column("Declarer;Denomination\\2R;Result\\1R"),
        Some(0)
    );
    assert_eq!(
        declarer_column("Denomination\\2R;Declarer;Result\\2R"),
        Some(1)
    );
    assert_eq!(declarer_column("Denomination;Result"), None);
}

/// A table as `analyze` writes it: five denominations per declarer, in the
/// order N, S, E, W.
fn dd_table(n: u8, s: u8, e: u8, w: u8) -> Vec<String> {
    ['N', 'S', 'E', 'W']
        .iter()
        .zip([n, s, e, w])
        .flat_map(|(seat, tricks)| {
            ["NT", " S", " H", " D", " C"]
                .iter()
                .map(move |denom| format!("{} {} {:2}", seat, denom, tricks))
        })
        .collect()
}

#[test]
fn a_dd_table_follows_the_hands_around_the_table() {
    // North's cards move to East on a rotation of 1, so the tricks North
    // could take are now East's.
    let rotated = rotate_dd_rows(&dd_table(7, 7, 6, 6), 0, 1);
    assert_eq!(rotated, dd_table(6, 6, 7, 7));

    // And the row order is the file's own, still N, S, E, W.
    let seats: Vec<&str> = rotated.iter().map(|row| &row[0..1]).collect();
    assert_eq!(seats[0], "N");
    assert_eq!(seats[5], "S");
    assert_eq!(seats[10], "E");
    assert_eq!(seats[15], "W");
}

#[test]
fn a_half_turn_swaps_the_partners_and_a_full_turn_changes_nothing() {
    assert_eq!(
        rotate_dd_rows(&dd_table(7, 5, 6, 4), 0, 2),
        dd_table(5, 7, 4, 6)
    );
    assert_eq!(
        rotate_dd_rows(&dd_table(7, 5, 6, 4), 0, 0),
        dd_table(7, 5, 6, 4)
    );
}

#[test]
fn a_dd_row_keeps_its_spacing_and_its_other_columns() {
    let rows = vec!["N NT 10".to_string(), "N  S  9".to_string()];
    let rotated = rotate_dd_rows(&rows, 0, 1);
    assert_eq!(rotated, vec!["E NT 10".to_string(), "E  S  9".to_string()]);
}

#[test]
fn rows_that_do_not_name_a_seat_are_left_alone() {
    let rows = vec!["N NT 10".to_string(), "? NT 10".to_string()];
    assert_eq!(rotate_dd_rows(&rows, 0, 1), rows);
}

#[test]
fn rows_for_seats_the_table_did_not_list_come_last() {
    let rows = vec!["N NT 9".to_string(), "S NT 8".to_string(), "E NT 7".to_string()];
    // N->E, S->W, E->S: the listed order N, S, E keeps E's and S's groups
    // where those labels were; W was not listed and comes last.
    assert_eq!(
        rotate_dd_rows(&rows, 0, 1),
        vec!["S NT 7".to_string(), "E NT 9".to_string(), "W NT 8".to_string()]
    );
}

#[test]
fn row_fields_carry_their_offsets() {
    assert_eq!(row_field("  N  NT 10", 1), Some((5, "NT".to_string())));
    assert_eq!(row_field("N NT", 2), None);
    // Offsets count bytes, so a field can be sliced out of the row's text.
    let row = "é N";
    let (at, field) = row_field(row, 1).unwrap();
    assert_eq!((at, field.as_str()), (3, "N"));
    assert_eq!(&row[at..at + field.len()], "N");
}

#[test]
fn test_rotate_commentary() {
    assert_eq!(rotate_commentary("North leads", 2), "South leads");
    assert_eq!(rotate_commentary("East and West", 1), "South and North");
}

#[test]
fn commentary_keeps_case_and_whole_words() {
    assert_eq!(rotate_commentary("NORTH, north and Northern", 1), "EAST, east and Northern");
    assert_eq!(rotate_commentary("west_side West.", 1), "west_side North.");
    assert_eq!(rotate_commentary("South", 0), "South");
}

#[test]
fn tag_lines_split_into_name_and_value() {
    assert_eq!(
        parse_tag_line("[Dealer \"N\"]"),
        Some(("Dealer".to_string(), "N".to_string()))
    );
    assert_eq!(
        parse_tag_line("[Note   \"a b\" ]"),
        Some(("Note".to_string(), "a b".to_string()))
    );
    assert_eq!(parse_tag_line("[Dealer N]"), None);
    assert_eq!(parse_tag_line("[Dealer]"), None);
}

fn deal(n: &str, e: &str, s: &str, w: &str) -> Deal {
    Deal { north: n.to_string(), east: e.to_string(), south: s.to_string(), west: w.to_string() }
}

fn board(number: Option<u32>, dealer: Option<Direction>, vul: Vulnerability) -> Board {
    Board {
        number,
        dealer,
        vulnerable: vul,
        deal: deal("A...", ".A..", "..A.", "...A"),
    }
}

#[test]
fn a_rotated_board_moves_its_hands_dealer_and_vulnerability() {
    let mut b = board(Some(1), Some(Direction::North), Vulnerability::NorthSouth);
    rotate_board(&mut b, 1, false);
    assert_eq!(b.dealer, Some(Direction::East));
    assert_eq!(b.vulnerable, Vulnerability::EastWest);
    assert_eq!(b.deal.east, "A...");
    assert_eq!(b.deal.north, "...A");
    let mut c = board(Some(3), Some(Direction::North), Vulnerability::Neither);
    rotate_board(&mut c, 2, true);
    assert_eq!(c.vulnerable, Vulnerability::EastWest);
    assert_eq!(c.deal.south, "A...");
}

#[test]
fn the_basis_follows_the_tag_priority() {
    let content = "[Board \"1\"]\n[Declarer \"W\"]\n[Student \"s\"]\n[Board \"2\"]\n";
    let tags = parse_extra_tags(content);
    let b = board(Some(1), Some(Direction::East), Vulnerability::Neither);
    assert_eq!(find_basis(&b, &tags, 1, RotationBasis::Standard), (Direction::South, "Student"));
    assert_eq!(find_basis(&b, &tags, 1, RotationBasis::Declarer), (Direction::West, "Declarer"));
    assert_eq!(find_basis(&b, &tags, 2, RotationBasis::Standard), (Direction::East, "Dealer"));
    assert_eq!(find_basis(&b, &tags, 2, RotationBasis::BasisTag), (Direction::North, "RotationBasis"));
    assert_eq!(find_basis(&b, &tags, 2, RotationBasis::West), (Direction::West, "West"));
}

#[test]
fn the_deal_basis_is_the_seat_the_deal_starts_from() {
    let content = "[Board \"1\"]\n[Deal \"E:A... .A.. ..A. ...A\"]\n[Board \"2\"]\n[Deal \"?:A...\"]\n";
    let tags = parse_extra_tags(content);
    let b = board(Some(1), Some(Direction::North), Vulnerability::Neither);
    assert_eq!(find_basis(&b, &tags, 1, RotationBasis::Deal), (Direction::East, "Deal"));
    assert_eq!(find_basis(&b, &tags, 2, RotationBasis::Deal), (Direction::North, "Deal"));
    let w = board(Some(3), Some(Direction::West), Vulnerability::Neither);
    assert_eq!(find_basis(&w, &tags, 3, RotationBasis::Deal), (Direction::West, "Deal"));
}

#[test]
fn standard_vulnerability_reaches_boards_that_need_no_turn() {
    let boards = vec![
        board(Some(1), Some(Direction::North), Vulnerability::Both),
        board(Some(2), Some(Direction::North), Vulnerability::Neither),
    ];
    let tags = parse_extra_tags("");
    let pattern = parse_pattern("N").unwrap();
    let (out, infos) = rotate_boards(&boards, &pattern, &tags, RotationBasis::North, true);
    assert_eq!(infos.get(1).unwrap().rotation, 0);
    assert_eq!(out[0].vulnerable, Vulnerability::Neither);
    assert_eq!(out[1].vulnerable, Vulnerability::NorthSouth);
    assert_eq!(out[0].dealer, Some(Direction::North));
    let (kept, _) = rotate_boards(&boards, &pattern, &tags, RotationBasis::North, false);
    assert_eq!(kept[0].vulnerable, Vulnerability::Both);
}

#[test]
fn five_quarter_turns_are_one() {
    let mut b = board(Some(1), Some(Direction::North), Vulnerability::NorthSouth);
    rotate_board(&mut b, 5, false);
    assert_eq!(b.dealer, Some(Direction::East));
    assert_eq!(b.vulnerable, Vulnerability::EastWest);
    assert_eq!(b.deal.east, "A...");
    assert_eq!(b.deal.north, "...A");
}

#[test]
fn output_names_carry_the_pattern() {
    assert_eq!(make_output_path("deals", Some("pbn"), "ns"), "deals - NS.pbn");
    assert_eq!(make_output_path("deals", None, "S"), "deals - S.pbn");
}

#[test]
fn a_rotation_note_records_the_turn() {
    let info = RotationInfo {
        rotation: 3,
        target: Direction::North,
        basis: Direction::East,
        basis_kind: "Dealer".to_string(),
        use_standard_vul: false,
    };
    assert_eq!(
        info.to_rotation_note(4),
        "[RotationNote \"Board 4, chOption: N, chBasis: E, basisKind:Dealer, nOption:0, nBasis: 1, nRot: 3, useStandardVul: false\"]"
    );
}

#[test]
fn boards_without_deals_are_dropped_and_the_rest_turned_to_the_pattern() {
    let mut empty = board(None, None, Vulnerability::Neither);
    empty.deal = deal("...", "...", "...", "...");
    let boards = vec![
        board(None, Some(Direction::East), Vulnerability::Neither),
        empty,
        board(Some(7), Some(Direction::North), Vulnerability::Both),
    ];
    let tags = parse_extra_tags("");
    let pattern = parse_pattern("S").unwrap();
    let (out, infos) = rotate_boards(&boards, &pattern, &tags, RotationBasis::Standard, false);
    assert_eq!(out.len(), 2);
    assert_eq!(out[0].number, Some(1));
    assert_eq!(out[0].dealer, Some(Direction::South));
    assert_eq!(out[1].number, Some(7));
    assert_eq!(out[1].dealer, Some(Direction::South));
    assert_eq!(infos.get(1).unwrap().rotation, 1);
    assert_eq!(infos.get(7).unwrap().rotation, 2);
}

#[test]
fn a_dd_table_turns_with_the_hands() {
    let mut table = DdTable::new();
    table.set(Direction::North, Strain::NoTrump, 10);
    table.set(Direction::West, Strain::Spades, 7);
    let rotated = rotate_dd_table(&table, 1);
    assert_eq!(rotated.tricks(Direction::East, Strain::NoTrump), 10);
    assert_eq!(rotated.tricks(Direction::North, Strain::Spades), 7);
    assert_eq!(rotated.tricks(Direction::North, Strain::NoTrump), 0);
    let back = rotate_dd_table(&rotated, 3);
    assert_eq!(back.tricks(Direction::North, Strain::NoTrump), 10);
    assert_eq!(back.tricks(Direction::West, Strain::Spades), 7);
}

#[test]
fn double_dummy_tricks_use_the_recorded_encodings() {
    let mut known = DdTricksRotations::new();
    known.insert("abc", 1, "xyz");
    assert_eq!(rotate_double_dummy_tricks("abc", 1, &known), "xyz");
    assert_eq!(rotate_double_dummy_tricks("abc", 0, &known), "abc");
    assert_eq!(rotate_double_dummy_tricks("abc", 2, &known), "abc");
    assert_eq!(
        double_dummy_values("[Board \"1\"]\n [DoubleDummyTricks \"99\"]\n"),
        vec!["99".to_string()]
    );
}

#[test]
fn a_rotated_file_turns_every_seat_naming_tag() {
    let content = "% PBN 2.1\n[Event \"Club\"]\n[Site \"Home\"]\n[Board \"1\"]\n[Dealer \"N\"]\n[Vulnerable \"NS\"]\n[Deal \"N:A... .A.. ..A. ...A\"]\n[Declarer \"S\"]\n[Score \"NS 420\"]\n[ParContract \"NS 4H+1\"]\n[BCFlags \"1f\"]\n{North leads.}\n[OptimumResultTable \"Declarer;Denomination\\2R;Result\\2R\"]\nN NT 9\nE NT 4\n\n[Event \"\"]\n[Board \"2\"]\n[Dealer \"E\"]\n";
    let mut b1 = board(Some(1), Some(Direction::North), Vulnerability::NorthSouth);
    rotate_board(&mut b1, 1, false);
    let boards = vec![b1];
    let mut infos = RotationInfos::new();
    infos.insert(
        1,
        RotationInfo {
            rotation: 1,
            target: Direction::East,
            basis: Direction::North,
            basis_kind: "Dealer".to_string(),
            use_standard_vul: false,
        },
    );
    let out = write_rotated_pbn(content, &boards, &infos, &DdTricksRotations::new());
    let expected = "% PBN 2.1\n[Event \"Club\"]\n[Site \"\"]\n[Date \"\"]\n[Board \"1\"]\n[Dealer \"E\"]\n[Vulnerable \"EW\"]\n[Deal \"E:A... .A.. ..A. ...A\"]\n[Declarer \"W\"]\n[Score \"EW 420\"]\n[ParContract \"EW 4H+1\"]\n[BCFlags \"1f\"]\n[RotationNote \"Board 1, chOption: E, chBasis: N, basisKind:Dealer, nOption:1, nBasis: 0, nRot: 1, useStandardVul: false\"]\n{East leads.}\n[OptimumResultTable \"Declarer;Denomination\\2R;Result\\2R\"]\nE NT 9\nS NT 4\n\n";
    assert_eq!(out, expected);
}

#[test]
fn a_written_tag_line_reads_back() {
    for (name, value) in [("Board", "12"), ("Event", ""), ("Note", " a \"quoted\" b "), ("X", "; ]")] {
        let line = format!("[{} \"{}\"]", name, value);
        assert_eq!(parse_tag_line(&line), Some((name.to_string(), value.to_string())));
    }
    assert_eq!(parse_tag_line("[Board 1]"), None);
    assert_eq!(parse_tag_line("[Board]"), None);
    assert_eq!(parse_tag_line("Board \"1\""), None);
}

#[test]
fn commentary_turned_back_reads_as_before() {
    let text = "{North leads the ace; EAST wins and south, West-wise, follows. Northeast stays.}";
    for r in 1..=3u8 {
        assert_eq!(rotate_commentary(&rotate_commentary(text, r), 4 - r), text);
    }
    assert_eq!(rotate_commentary(text, 0), text);
}
