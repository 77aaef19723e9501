use txtplus::parser::{handle_line, parse_and_render, ScanError, ScanState};

fn lines(items: &[&str]) -> Vec<String> {
    items.iter().map(|s| s.to_string()).collect()
}

fn is_outside(state: &ScanState) -> bool {
    matches!(state, ScanState::Outside)
}

fn buffer_of(state: &ScanState) -> Option<Vec<String>> {
    match state {
        ScanState::Outside => None,
        ScanState::Inside(buffer) => Some(buffer.clone()),
    }
}

#[test]
fn line_outside_a_directive_passes_through() {
    let line = "  plain text \t\n".to_string();
    let (state, written) = handle_line(&line, ScanState::Outside).unwrap();
    assert!(is_outside(&state));
    assert_eq!(written, vec!["  plain text \t\n"]);
}

#[test]
fn start_marker_opens_with_an_empty_buffer() {
    let (state, written) = handle_line(&"@@start::box\n".to_string(), ScanState::Outside).unwrap();
    assert_eq!(buffer_of(&state), Some(vec![]));
    assert!(written.is_empty());
}

#[test]
fn start_marker_inside_a_directive_starts_afresh() {
    let open = ScanState::Inside(lines(&["[old]"]));
    let (state, written) = handle_line(&"@@start::tree".to_string(), open).unwrap();
    assert_eq!(buffer_of(&state), Some(vec![]));
    assert!(written.is_empty());
}

#[test]
fn body_line_is_buffered_without_trailing_whitespace() {
    let open = ScanState::Inside(lines(&["[a]"]));
    let (state, written) = handle_line(&"  [b]  \r\n".to_string(), open).unwrap();
    assert_eq!(buffer_of(&state), Some(lines(&["[a]", "  [b]"])));
    assert!(written.is_empty());
}

#[test]
fn blank_body_line_is_dropped() {
    let open = ScanState::Inside(lines(&["[a]"]));
    let (state, written) = handle_line(&" \t \n".to_string(), open).unwrap();
    assert_eq!(buffer_of(&state), Some(lines(&["[a]"])));
    assert!(written.is_empty());
    let (state, _) = handle_line(&String::new(), state).unwrap();
    assert_eq!(buffer_of(&state), Some(lines(&["[a]"])));
}

#[test]
fn end_marker_renders_the_box() {
    let open = ScanState::Inside(lines(&["[Hello]"]));
    let (state, written) = handle_line(&"@@end::box\n".to_string(), open).unwrap();
    assert!(is_outside(&state));
    assert_eq!(written, vec!["+-------+\n", "| Hello |\n", "+-------+\n"]);
}

#[test]
fn end_marker_renders_the_tree() {
    let open = ScanState::Inside(lines(&["- a", "    - b"]));
    let (state, written) = handle_line(&"@@end::tree".to_string(), open).unwrap();
    assert!(is_outside(&state));
    assert_eq!(written, vec![".\n    └── a\n        └── b\n"]);
}

#[test]
fn kind_token_is_trimmed_and_ends_at_the_next_separator() {
    let open = ScanState::Inside(lines(&["[x]"]));
    let (_, written) = handle_line(&"@@end::  box  ::rest\n".to_string(), open).unwrap();
    assert_eq!(written, vec!["+---+\n", "| x |\n", "+---+\n"]);
}

#[test]
fn unknown_kind_writes_the_placeholder() {
    let open = ScanState::Inside(lines(&["[x]"]));
    let (state, written) = handle_line(&"@@end::graph\n".to_string(), open).unwrap();
    assert!(is_outside(&state));
    assert_eq!(written, vec!["Oops! this hasn't implemented yet (ᴗ_ ᴗ。)"]);
    let open = ScanState::Inside(vec![]);
    let (_, written) = handle_line(&"@@end::".to_string(), open).unwrap();
    assert_eq!(written, vec!["Oops! this hasn't implemented yet (ᴗ_ ᴗ。)"]);
    let open = ScanState::Inside(vec![]);
    let (_, written) = handle_line(&"@@end::Box".to_string(), open).unwrap();
    assert_eq!(written, vec!["Oops! this hasn't implemented yet (ᴗ_ ᴗ。)"]);
}

#[test]
fn end_marker_without_kind_is_malformed() {
    let open = ScanState::Inside(lines(&["[Hello]"]));
    let result = handle_line(&"@@end\n".to_string(), open);
    assert!(matches!(result, Err(ScanError::MalformedDirectiveEnd)));
    let open = ScanState::Inside(vec![]);
    let result = handle_line(&"@@end:box".to_string(), open);
    assert!(matches!(result, Err(ScanError::MalformedDirectiveEnd)));
}

#[test]
fn end_marker_outside_a_directive_passes_through() {
    let (state, written) = handle_line(&"@@end::box\n".to_string(), ScanState::Outside).unwrap();
    assert!(is_outside(&state));
    assert_eq!(written, vec!["@@end::box\n"]);
    let (state, written) = handle_line(&"@@end\n".to_string(), ScanState::Outside).unwrap();
    assert!(is_outside(&state));
    assert_eq!(written, vec!["@@end\n"]);
}

#[test]
fn marker_must_stand_at_the_start_of_the_line() {
    let (state, written) = handle_line(&" @@start::box\n".to_string(), ScanState::Outside).unwrap();
    assert!(is_outside(&state));
    assert_eq!(written, vec![" @@start::box\n"]);
}

#[test]
fn box_directive_is_replaced_by_its_box() {
    let document = lines(&["@@start::box\n", "[Hello]\n", "@@end::box\n"]);
    let (written, outcome) = parse_and_render(&document);
    assert_eq!(outcome, Ok(()));
    assert_eq!(written.concat(), "+-------+\n| Hello |\n+-------+\n");
}

#[test]
fn two_segments_render_side_by_side() {
    let document = lines(&["@@start::box\n", "[Hello] [World]\n", "@@end::box\n"]);
    let (written, outcome) = parse_and_render(&document);
    assert_eq!(outcome, Ok(()));
    assert_eq!(
        written,
        vec!["+-------+ +-------+\n", "| Hello | | World |\n", "+-------+ +-------+\n"]
    );
}

#[test]
fn tree_directive_is_replaced_by_its_tree() {
    let document = lines(&[
        "@@start::tree\n",
        "- First\n",
        "    - Second\n",
        "    - Third\n",
        "- Fourth\n",
        "@@end::tree\n",
    ]);
    let (written, outcome) = parse_and_render(&document);
    assert_eq!(outcome, Ok(()));
    assert_eq!(
        written,
        vec![".\n    ├── First\n    │   ├── Second\n    │   └── Third\n    └── Fourth\n"]
    );
}

#[test]
fn text_around_directives_keeps_its_place() {
    let document = lines(&[
        "title\n",
        "\n",
        "@@start::box\n",
        "\n",
        "[Good]\n",
        "ignored\n",
        "[Morning]\n",
        "@@end::box\n",
        "between\n",
        "@@start::nothing\n",
        "@@end::nothing\n",
        "tail",
    ]);
    let (written, outcome) = parse_and_render(&document);
    assert_eq!(outcome, Ok(()));
    assert_eq!(
        written,
        vec![
            "title\n",
            "\n",
            "+------+\n",
            "| Good |\n",
            "+------+\n",
            "+---------+\n",
            "| Morning |\n",
            "+---------+\n",
            "between\n",
            "Oops! this hasn't implemented yet (ᴗ_ ᴗ。)",
            "tail",
        ]
    );
}

#[test]
fn document_without_directives_is_unchanged_on_every_run() {
    let document = lines(&["one\n", "  two  \n", "\n", "@@end::box\n", "[three]\n", "four"]);
    let (first, outcome) = parse_and_render(&document);
    assert_eq!(outcome, Ok(()));
    assert_eq!(first, document);
    let (second, outcome) = parse_and_render(&document);
    assert_eq!(outcome, Ok(()));
    assert_eq!(second, first);
}

#[test]
fn empty_document_writes_nothing() {
    let (written, outcome) = parse_and_render(&vec![]);
    assert_eq!(outcome, Ok(()));
    assert!(written.is_empty());
}

#[test]
fn malformed_end_stops_the_scan_and_keeps_what_was_written() {
    let document = lines(&["before\n", "@@start::box\n", "[Hello]\n", "@@end\n", "after\n"]);
    let (written, outcome) = parse_and_render(&document);
    assert_eq!(outcome, Err(ScanError::MalformedDirectiveEnd));
    assert_eq!(written, vec!["before\n"]);
}

#[test]
fn unterminated_directive_is_dropped() {
    let document = lines(&["before\n", "@@start::box\n", "[Hello]\n", "more\n"]);
    let (written, outcome) = parse_and_render(&document);
    assert_eq!(outcome, Ok(()));
    assert_eq!(written, vec!["before\n"]);
}

#[test]
fn directive_buffer_does_not_leak_into_the_next() {
    let document = lines(&[
        "@@start::box\n",
        "[a]\n",
        "@@end::box\n",
        "@@start::box\n",
        "[b]\n",
        "@@end::box\n",
    ]);
    let (written, outcome) = parse_and_render(&document);
    assert_eq!(outcome, Ok(()));
    assert_eq!(
        written,
        vec!["+---+\n", "| a |\n", "+---+\n", "+---+\n", "| b |\n", "+---+\n"]
    );
}
