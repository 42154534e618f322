use bridge_wrangler::commands::event::set_event;

#[test]
fn every_event_tag_takes_the_new_name() {
    let content = "% PBN 2.1\n[Event \"Old\"]\n[Board \"1\"]\n  [Event \"\"]  \r\n[Board \"2\"]\n{ [Event \"in commentary\"] }";
    assert_eq!(
        set_event(content, "Club Championship 2024"),
        "% PBN 2.1\n[Event \"Club Championship 2024\"]\n[Board \"1\"]\n[Event \"Club Championship 2024\"]\n[Board \"2\"]\n{ [Event \"in commentary\"] }\n"
    );
}

#[test]
fn a_file_without_event_tags_is_kept_line_for_line() {
    assert_eq!(set_event("[Board \"1\"]\n[Dealer \"N\"]", "X"), "[Board \"1\"]\n[Dealer \"N\"]\n");
    assert_eq!(set_event("", "X"), "");
    assert_eq!(set_event("[Eventful \"a\"]\n[Event]\n", "X"), "[Eventful \"a\"]\n[Event]\n");
}

#[test]
fn setting_the_event_twice_keeps_the_second_name() {
    let content = "[Event \"Old\"]\r\n[Board \"1\"]\n\n[Event \"\"]\n[Board \"2\"]";
    assert_eq!(set_event(&set_event(content, "First"), "Second"), set_event(content, "Second"));
    // A line ending in a carriage return of its own loses it when read back.
    let stray = "[Board \"1\"]\r\r\n";
    assert_ne!(set_event(&set_event(stray, "A"), "B"), set_event(stray, "B"));
}
