use txtplus::textbox::{
    captures_of, create_textbox_string, draw_segments, draw_texbox, get_box_string,
    newline_string, render_box, segments_of, side_by_side, PatternRejected,
};

fn strings(items: &[&str]) -> Vec<String> {
    items.iter().map(|s| s.to_string()).collect()
}

#[test]
fn test_get_box_string() {
    assert_eq!(
        get_box_string(&"[hello] [world]".to_string()),
        Ok(strings(&["hello", "world"]))
    );
    assert_eq!(
        get_box_string(&"[boxy] [boxy] random".to_string()),
        Ok(strings(&["boxy", "boxy"]))
    );
}

#[test]
fn test_create_textbox_string() {
    assert_eq!(
        create_textbox_string(vec!["hello".to_string(), "world".to_string()]),
        vec![
            "+-------+\n| hello |\n+-------+",
            "+-------+\n| world |\n+-------+"
        ]
    );
    assert_eq!(
        create_textbox_string(vec!["multiline\nstring\nhere".to_string()]),
        vec!["+-----------+\n| multiline |\n| string    |\n| here      |\n+-----------+"]
    );
}

#[test]
fn segments_without_brackets_are_none() {
    assert_eq!(get_box_string(&"no brackets here".to_string()), Ok(vec![]));
    assert_eq!(get_box_string(&String::new()), Ok(vec![]));
}

#[test]
fn segments_may_be_empty_or_hold_brackets() {
    assert_eq!(get_box_string(&"[]".to_string()), Ok(strings(&[""])));
    assert_eq!(get_box_string(&"[[a]".to_string()), Ok(strings(&["[a"])));
    assert_eq!(get_box_string(&"[a]] [b".to_string()), Ok(strings(&["a"])));
}

#[test]
fn segments_of_drops_absent_groups() {
    let groups = vec![Some("a".to_string()), None, Some("b".to_string()), None];
    assert_eq!(segments_of(groups), strings(&["a", "b"]));
    assert_eq!(segments_of(vec![]), Vec::<String>::new());
}

#[test]
fn wrap_breaks_after_every_third_word() {
    let text = "An idiot admires complexity a genius admires simplicity";
    assert_eq!(
        newline_string(vec![text]),
        vec!["An idiot admires\ncomplexity a genius\nadmires simplicity"]
    );
}

#[test]
fn wrap_collapses_whitespace() {
    assert_eq!(
        newline_string(vec!["  a \t b\n c   d  ", "", "   ", "one", "a b c"]),
        vec!["a b c\nd", "", "", "one", "a b c"]
    );
}

#[test]
fn wrap_of_six_words_has_two_full_rows() {
    assert_eq!(newline_string(vec!["1 2 3 4 5 6"]), vec!["1 2 3\n4 5 6"]);
    assert_eq!(newline_string(vec!["1 2 3 4"]), vec!["1 2 3\n4"]);
    assert_eq!(newline_string(vec![]), Vec::<String>::new());
}

#[test]
fn box_of_empty_text() {
    assert_eq!(create_textbox_string(vec![String::new()]), vec!["+--+\n|  |\n+--+"]);
}

#[test]
fn box_width_counts_characters() {
    assert_eq!(
        create_textbox_string(vec!["héllo\nab".to_string()]),
        vec!["+-------+\n| héllo |\n| ab    |\n+-------+"]
    );
}

#[test]
fn side_by_side_joins_rows_with_one_space() {
    let boxes = create_textbox_string(strings(&["Hello", "World"]));
    assert_eq!(
        side_by_side(&boxes),
        vec!["+-------+ +-------+", "| Hello | | World |", "+-------+ +-------+"]
    );
}

#[test]
fn side_by_side_pads_a_short_box_to_its_own_width() {
    let boxes = create_textbox_string(strings(&["ab", "longer\nx"]));
    assert_eq!(
        side_by_side(&boxes),
        vec![
            "+----+ +--------+",
            "| ab | | longer |",
            "+----+ | x      |",
            "       +--------+",
        ]
    );
    let swapped = create_textbox_string(strings(&["longer\nx", "ab"]));
    assert_eq!(
        side_by_side(&swapped),
        vec![
            "+--------+ +----+",
            "| longer | | ab |",
            "| x      | +----+",
            "+--------+       ",
        ]
    );
}

#[test]
fn side_by_side_of_nothing_is_nothing() {
    assert_eq!(side_by_side(&vec![]), Vec::<String>::new());
}

#[test]
fn draw_segments_wraps_boxes_and_aligns() {
    assert_eq!(
        draw_segments(strings(&["a b c d", "x"])),
        vec![
            "+-------+ +---+",
            "| a b c | | x |",
            "| d     | +---+",
            "+-------+      ",
        ]
    );
}

#[test]
fn draw_texbox_renders_hello() {
    assert_eq!(
        draw_texbox(&"[Hello]".to_string()),
        Ok(strings(&["+-------+", "| Hello |", "+-------+"]))
    );
}

#[test]
fn draw_texbox_renders_two_boxes_side_by_side() {
    let rows = draw_texbox(&"[Hello] [World]".to_string()).unwrap();
    assert_eq!(
        rows,
        vec!["+-------+ +-------+", "| Hello | | World |", "+-------+ +-------+"]
    );
    assert_eq!(rows.len(), 3);
}

#[test]
fn draw_texbox_without_segments_draws_nothing() {
    assert_eq!(draw_texbox(&"plain text".to_string()), Ok(vec![]));
}

#[test]
fn draw_texbox_of_empty_segment() {
    assert_eq!(draw_texbox(&"[]".to_string()), Ok(strings(&["+--+", "|  |", "+--+"])));
}

#[test]
fn draw_texbox_wraps_long_sentence() {
    let line = "[An idiot admires complexity, a genius admires simplicity]".to_string();
    assert_eq!(
        draw_texbox(&line),
        Ok(strings(&[
            "+----------------------+",
            "| An idiot admires     |",
            "| complexity, a genius |",
            "| admires simplicity   |",
            "+----------------------+",
        ]))
    );
}

#[test]
fn render_box_skips_the_end_marker() {
    let mut buffer = strings(&["[Good]", "[Morning]", "@@end::box"]);
    assert_eq!(
        render_box(&mut buffer),
        Ok(strings(&[
            "+------+",
            "| Good |",
            "+------+",
            "+---------+",
            "| Morning |",
            "+---------+",
        ]))
    );
    assert_eq!(buffer, strings(&["[Good]", "[Morning]", "@@end::box"]));
}

#[test]
fn render_box_of_end_marker_alone_is_empty() {
    let mut buffer = strings(&["@@end::box"]);
    assert_eq!(render_box(&mut buffer), Ok(vec![]));
    let mut empty: Vec<String> = Vec::new();
    assert_eq!(render_box(&mut empty), Ok(vec![]));
}

#[test]
fn render_box_ignores_brackets_in_the_last_line() {
    let mut buffer = strings(&["[a]", "[b]"]);
    assert_eq!(render_box(&mut buffer), Ok(strings(&["+---+", "| a |", "+---+"])));
}

#[test]
fn pattern_that_does_not_compile_is_rejected() {
    assert_eq!(captures_of("(", 1, "anything"), Err(PatternRejected));
    assert_eq!(captures_of("[", 0, ""), Err(PatternRejected));
}

#[test]
fn captures_of_reports_the_asked_group_of_every_match() {
    assert_eq!(captures_of("(a)|(b)", 2, "abab"), Ok(strings(&["b", "b"])));
    assert_eq!(captures_of("(a)|(b)", 1, "abab"), Ok(strings(&["a", "a"])));
    assert_eq!(captures_of("(a)|(b)", 0, "ab"), Ok(strings(&["a", "b"])));
    assert_eq!(captures_of("(a)|(b)", 3, "ab"), Ok(vec![]));
    assert_eq!(captures_of("x*", 0, "ab"), Ok(strings(&["", "", ""])));
}

#[test]
fn rows_of_a_line_have_one_length() {
    let rows = draw_segments(strings(&["one two three four", "", "x y"]));
    assert_eq!(rows.len(), 4);
    for row in &rows {
        assert_eq!(row.chars().count(), rows[0].chars().count());
    }
    assert_eq!(
        rows,
        vec![
            "+---------------+ +--+ +-----+",
            "| one two three | |  | | x y |",
            "| four          | +--+ +-----+",
            "+---------------+             ",
        ]
    );
}
