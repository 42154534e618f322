use bridge_wrangler::commands::to_pdf::{
    choose_layout, default_layout, metadata_comments, parse_board_range, BoardRangeError, Layout,
};

#[test]
fn to_pdf_test_parse_board_range() {
    assert_eq!(parse_board_range("1-4").unwrap(), vec![1, 2, 3, 4]);
    assert_eq!(parse_board_range("1,3,5").unwrap(), vec![1, 3, 5]);
    assert_eq!(parse_board_range("1-3,7").unwrap(), vec![1, 2, 3, 7]);
    assert_eq!(parse_board_range("1").unwrap(), vec![1]);
}

#[test]
fn board_range_errors_name_the_part() {
    assert_eq!(
        parse_board_range("1-2-3"),
        Err(BoardRangeError::InvalidRange("1-2-3".to_string()))
    );
    assert_eq!(
        parse_board_range("1-x"),
        Err(BoardRangeError::InvalidNumberInRange("x".to_string()))
    );
    assert_eq!(
        parse_board_range("4, seven"),
        Err(BoardRangeError::InvalidBoardNumber("seven".to_string()))
    );
    assert_eq!(
        parse_board_range(""),
        Err(BoardRangeError::InvalidBoardNumber("".to_string()))
    );
}

#[test]
fn board_ranges_trim_spaces_and_allow_empty_ranges() {
    assert_eq!(parse_board_range(" 2 - 4 , 9").unwrap(), vec![2, 3, 4, 9]);
    assert_eq!(parse_board_range("5-3").unwrap(), Vec::<u32>::new());
    assert_eq!(parse_board_range("+7").unwrap(), vec![7]);
    assert!(parse_board_range("4294967296").is_err());
    assert_eq!(parse_board_range("4294967295").unwrap(), vec![4294967295]);
}

#[test]
fn metadata_comments_are_the_percent_lines() {
    let content = "% PBN 2.1\n%Creator: x\n[Event \"E\"]\n %indented\n";
    assert_eq!(
        metadata_comments(content),
        vec!["% PBN 2.1".to_string(), "%Creator: x".to_string()]
    );
}

#[test]
fn a_hand_record_file_defaults_to_the_hand_record_layout() {
    assert_eq!(default_layout("% PBN\n%BoardsPerPage 18\n[Board \"1\"]\n"), Layout::HandRecord);
    assert_eq!(default_layout("% PBN\n%BoardsPerPage 4\n"), Layout::Analysis);
    assert_eq!(choose_layout(Some(Layout::DealerSummary), "%BoardsPerPage 18\n"), Layout::DealerSummary);
    assert_eq!(choose_layout(None, ""), Layout::Analysis);
}
