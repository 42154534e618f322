use bridge_wrangler::commands::filter::{
    build_output, default_output_name, outputs_to_write, partition_boards, renumber_boards,
    side_output, split_by_matches, split_pbn_content, BoardPattern,
};

#[test]
fn test_regex_matching() {
    let re = BoardPattern::new(r#"\[Contract "3NT"\]"#, false).unwrap();
    let board = r#"[Board "1"]
[Contract "3NT"]
[Deal "N:..."]
"#;
    assert!(re.is_match(board));
}

#[test]
fn test_case_insensitive_matching() {
    let re = BoardPattern::new("3nt", false).unwrap();
    let board = r#"[Contract "3NT"]"#;
    assert!(re.is_match(board));
}

#[test]
fn case_sensitive_matching_and_bad_patterns() {
    let re = BoardPattern::new("3nt", true).unwrap();
    assert!(!re.is_match(r#"[Contract "3NT"]"#));
    assert!(BoardPattern::new("(", false).is_err());
}

#[test]
fn test_renumber_boards() {
    let boards = vec![
        r#"[Board "5"]
[Deal "N:..."]
"#
        .to_string(),
        r#"[Board "8"]
[Deal "N:..."]
"#
        .to_string(),
    ];
    let renumbered = renumber_boards(&boards);
    assert!(renumbered[0].contains("[Board \"1\"]"));
    assert!(renumbered[1].contains("[Board \"2\"]"));
}

#[test]
fn renumbering_rewrites_only_the_first_board_tag() {
    let boards = vec!["x[Board  \"\"]y[Board \"9\"]\n".to_string(), "no tag\n".to_string()];
    let renumbered = renumber_boards(&boards);
    assert_eq!(renumbered[0], "x[Board \"1\"]y[Board \"9\"]\n");
    assert_eq!(renumbered[1], "no tag\n");
}

#[test]
fn test_split_pbn_content() {
    let content = r#"% PBN 2.1
%Creator: Test
[Event "Test"]
[Board "1"]
[Deal "N:..."]

[Event "Test"]
[Board "2"]
[Deal "N:..."]
"#;
    let (header, boards) = split_pbn_content(content);
    assert!(header.contains("% PBN 2.1"));
    assert_eq!(boards.len(), 2);
}

#[test]
fn splitting_keeps_every_board_line() {
    let content = "% PBN 2.1\r\n; a header comment\nstray text\n[Event \"A\"]\n{ c }\n\n[Event \"B\"]\n[Board \"2\"]";
    let (header, boards) = split_pbn_content(content);
    assert_eq!(header, "% PBN 2.1\n; a header comment\n");
    assert_eq!(boards, vec!["[Event \"A\"]\n{ c }\n\n".to_string(), "[Event \"B\"]\n[Board \"2\"]\n".to_string()]);
    assert_eq!(
        build_output(&header, &boards),
        "% PBN 2.1\n; a header comment\n[Event \"A\"]\n{ c }\n\n[Event \"B\"]\n[Board \"2\"]\n"
    );
}

#[test]
fn rebuilding_a_split_file_gives_back_its_lines() {
    let content = "% PBN 2.1\n;\n; comment\n\n[Event \"A\"]\r\n[Board \"1\"]\n[Event \"B\"]\n";
    let (header, boards) = split_pbn_content(content);
    let lines: String = content.lines().map(|l| l.to_string() + "\n").collect();
    assert_eq!(build_output(&header, &boards), lines);
}

#[test]
fn boards_are_partitioned_in_order() {
    let boards = vec![
        "[Contract \"3NT\"]\n".to_string(),
        "[Contract \"4S\"]\n".to_string(),
        "[Contract \"3nt\"]\n".to_string(),
    ];
    let re = BoardPattern::new("3NT", false).unwrap();
    let (matched, not_matched) = partition_boards(&boards, &re);
    assert_eq!(matched, vec![boards[0].clone(), boards[2].clone()]);
    assert_eq!(not_matched, vec![boards[1].clone()]);
}

#[test]
fn boards_go_to_the_side_their_flag_names() {
    let boards = vec!["a\n".to_string(), "b\n".to_string(), "c\n".to_string(), "d\n".to_string()];
    let (yes, no) = split_by_matches(&boards, &vec![false, true, true, false]);
    assert_eq!(yes, vec!["b\n".to_string(), "c\n".to_string()]);
    assert_eq!(no, vec!["a\n".to_string(), "d\n".to_string()]);
    assert_eq!(yes.len() + no.len(), boards.len());
}

#[test]
fn outputs_default_to_the_matched_file() {
    assert_eq!(outputs_to_write(&None, &None), (true, false));
    assert_eq!(outputs_to_write(&None, &Some("n.pbn".to_string())), (false, true));
    assert_eq!(outputs_to_write(&Some("m.pbn".to_string()), &Some("n.pbn".to_string())), (true, true));
    assert_eq!(default_output_name("hands", "Matched"), "hands-Matched.pbn");
}

#[test]
fn a_side_is_written_with_the_header_and_renumbered() {
    let boards = vec!["[Board \"7\"]\n".to_string(), "[Board \"9\"]".to_string()];
    assert_eq!(side_output("% H\n", &boards, true), "% H\n[Board \"1\"]\n[Board \"2\"]\n");
    assert_eq!(side_output("% H\n", &boards, false), "% H\n[Board \"7\"]\n[Board \"9\"]\n");
}
