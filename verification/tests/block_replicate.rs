use bridge_wrangler::bridge::{Direction, Vulnerability};
use bridge_wrangler::commands::block_replicate::{
    extract_tag_value, extract_tag_values, generate_replicated_pbn, plan_blocks,
    replicated_output_name, split_pbn_content, ReplicateError, FILLER_DEAL, STANDARD_DEALER,
    STANDARD_VUL,
};

#[test]
fn test_standard_vul_pattern() {
    // Board 1: None, Board 2: NS, Board 5: NS, Board 8: None
    assert_eq!(STANDARD_VUL[0], Vulnerability::Neither);
    assert_eq!(STANDARD_VUL[1], Vulnerability::NorthSouth);
    assert_eq!(STANDARD_VUL[4], Vulnerability::NorthSouth);
    assert_eq!(STANDARD_VUL[7], Vulnerability::Neither);
}

#[test]
fn test_standard_dealer_pattern() {
    assert_eq!(STANDARD_DEALER[0], Direction::North);
    assert_eq!(STANDARD_DEALER[1], Direction::East);
    assert_eq!(STANDARD_DEALER[2], Direction::South);
    assert_eq!(STANDARD_DEALER[3], Direction::West);
}

#[test]
fn tag_values_need_a_value_and_allow_any_spacing() {
    let section = "[Dealer \"N\"]\n[Deal  \"N:A... ... ... ...\"]\n[BCFlags \"\"]\n";
    assert_eq!(extract_tag_value(section, "Deal"), "N:A... ... ... ...");
    assert_eq!(extract_tag_value(section, "BCFlags"), "");
    assert_eq!(extract_tag_value(section, "Contract"), "");
    assert_eq!(extract_tag_value("[Deal\t\"x\"][Deal \"y\"]", "Deal"), "x");
}

#[test]
fn plans_default_to_thirty_six_boards() {
    assert_eq!(plan_blocks(8, None, None), Ok((8, 4)));
    assert_eq!(plan_blocks(9, None, Some(6)), Ok((9, 6)));
    assert_eq!(plan_blocks(8, Some(9), Some(4)), Ok((9, 4)));
    assert_eq!(plan_blocks(0, None, None), Err(ReplicateError::NoBoards));
    assert_eq!(plan_blocks(40, None, None), Err(ReplicateError::ZeroBlockCount));
}

#[test]
fn replicated_files_keep_the_first_block_and_tag_the_copies() {
    let content = "% PBN 2.1\n[Event \"E\"]\n[Board \"1\"]\n[Deal \"N:A... ... ... ...\"]\n{ note }\n\n[Event \"E\"]\n[Board \"2\"]\n[Deal \"N:.A.. ... ... ...\"]\n[BCFlags \"1f\"]\n";
    let (header, sections) = split_pbn_content(content);
    let deals = extract_tag_values(&sections, "Deal");
    let flags = extract_tag_values(&sections, "BCFlags");
    let out = generate_replicated_pbn(&header, &sections, &deals, &flags, 3, 2);
    let expected_first = format!("{}{}{}", header, sections[0], sections[1]);
    assert!(out.starts_with(&expected_first));
    // Board 3 is a filler board: dealer S, EW vulnerable, the filler deal.
    assert!(out.contains(&format!(
        "[Board \"3\"]\n[West \"\"]\n[North \"\"]\n[East \"\"]\n[South \"\"]\n[Dealer \"S\"]\n[Vulnerable \"EW\"]\n[Deal \"{}\"]\n",
        FILLER_DEAL
    )));
    // Board 5 copies board 2, with its BCFlags and the virtual tags.
    assert!(out.contains("[Board \"5\"]\n"));
    assert!(out.contains("[Deal \"N:.A.. ... ... ...\"]\n[Scoring \"\"]\n[Declarer \"\"]\n[Contract \"\"]\n[Result \"\"]\n[BCFlags \"1f\"]\n[VirtualBoard \"2\"]\n[VirtualDealer \"E\"]\n[VirtualVulnerable \"NS\"]\n[BlockNumber \"2\"]\n\n"));
    assert_eq!(out.matches("[Board ").count(), 6);
}

#[test]
fn the_default_output_name_counts_blocks() {
    assert_eq!(replicated_output_name("lesson", 9, 4), "lesson - 9x4.pbn");
}

#[test]
fn the_replicated_header_keeps_directives_and_blank_lines_only() {
    let content = "% PBN 2.1\n; a comment\n\n[Event \"E\"]\n[Board \"1\"]\n";
    let (header, sections) = split_pbn_content(content);
    assert_eq!(header, "% PBN 2.1\n\n");
    assert_eq!(sections, vec!["[Event \"E\"]\n[Board \"1\"]\n".to_string()]);
}
