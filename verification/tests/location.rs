use lalr1::location::Location;

#[test]
fn token_format_location() {
    let location = Location::at("whatever", 120, 10, 15);
    assert_eq!(location.to_string(), "whatever:120:10:15");
    let location = Location::at("", 120, 9, 23);
    assert_eq!(location.to_string(), "120:9:23");
}

#[test]
fn step_past() {
    let mut location = Location::new("whatever");
    let text = "String\nwith some new lines\n in it".to_string();
    location.step_past(&text[..11]);
    assert_eq!(location.index(), 11);
    assert_eq!(location.line_number(), 2);
    assert_eq!(location.offset(), 5);
    location.step_past(&text[11..]);
    assert_eq!(location.index(), text.len());
    assert_eq!(location.line_number(), 3);
    assert_eq!(location.offset(), 7);
}

#[test]
fn analyzer_format_location() {
    let location = Location::at("whatever", 0, 10, 15);
    assert_eq!(location.to_short_string(), "whatever:10:15");
    let location = Location::at("", 0, 9, 23);
    assert_eq!(location.to_short_string(), "9:23");
}

#[test]
fn analyzer2_format_location() {
    let location = Location::at("whatever", 0, 10, 15);
    assert_eq!(location.to_short_string(), "whatever:10:15");
    let location = Location::at("", 0, 9, 23);
    assert_eq!(location.to_short_string(), "9:23");
}

#[test]
fn location_label_with_space_is_quoted() {
    let location = Location::at("some file", 3, 1, 4);
    assert_eq!(location.to_string(), "\"some file\":3:1:4");
    let location = Location::at("tab\there", 0, 2, 1);
    assert_eq!(location.to_short_string(), "\"tab\there\":2:1");
}

#[test]
fn step_past_counts_crlf_line_ends() {
    let mut location = Location::new("x");
    location.step_past("ab\r\ncd\r\nefg");
    assert_eq!(location.index(), 11);
    assert_eq!(location.line_number(), 3);
    assert_eq!(location.offset(), 4);
}

#[test]
fn step_past_empty_text_changes_nothing_but_nothing() {
    let mut location = Location::new("x");
    location.step_past("");
    assert_eq!(location.index(), 0);
    assert_eq!(location.line_number(), 1);
    assert_eq!(location.offset(), 1);
    assert_eq!(location.label(), "x");
}

#[test]
fn step_past_counts_each_line_break_once() {
    let mut location = Location::new("x");
    location.step_past("a\nb\r\nc");
    assert_eq!(location.index(), 6);
    assert_eq!(location.line_number(), 3);
    assert_eq!(location.offset(), 2);
    let mut joined = Location::new("x");
    joined.step_past("a\nb\r");
    joined.step_past("\nc");
    assert_eq!(joined.index(), 6);
    assert_eq!(joined.line_number(), 3);
    assert_eq!(joined.offset(), 2);
}

#[test]
fn analyzer_incr_index_and_location() {
    let text = "String\nwith a new line in it".to_string();
    let mut location = Location::new("whatever");
    location.step_past(&text[..11]);
    assert_eq!(location.index(), 11);
    assert_eq!(location.line_number(), 2);
    assert_eq!(location.offset(), 5);
}

#[test]
fn analyzer2_incr_index_and_location() {
    let text = "String\nwith a new line in it".to_string();
    let mut location = Location::new("whatever");
    location.step_past(&text[..11]);
    assert_eq!(location.index(), 11);
    assert_eq!(location.line_number(), 2);
    assert_eq!(location.offset(), 5);
}
