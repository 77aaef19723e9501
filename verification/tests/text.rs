use txtplus::directive::{classify, closes_directive, find_sep, opens_directive, read_kind_token, DirectiveKind};
use txtplus::text::{
    chars_of, copy_range, is_whitespace, join_range, longest, scan_back, scan_run, split,
    split_whitespace, starts_with, string_of, trimmed, trimmed_end, CharClass,
};
use txtplus::utils::write_filepath;

fn chars(s: &str) -> Vec<char> {
    s.chars().collect()
}

#[test]
fn whitespace_is_the_unicode_property() {
    for code in 0u32..=0x3100 {
        if let Some(c) = char::from_u32(code) {
            assert_eq!(is_whitespace(c), c.is_whitespace(), "U+{:04X}", code);
        }
    }
    assert!(!is_whitespace('\u{200B}'));
    assert!(!is_whitespace('\u{FEFF}'));
}

#[test]
fn chars_and_strings_convert_both_ways() {
    assert_eq!(chars_of("a└b"), vec!['a', '└', 'b']);
    assert_eq!(string_of(&vec!['a', '└', 'b']), "a└b");
    assert_eq!(chars_of(""), Vec::<char>::new());
}

#[test]
fn scans_stop_at_the_first_character_outside_the_class() {
    let v = chars("   ab  ");
    assert_eq!(scan_run(&v, 0, v.len(), CharClass::Blank), 3);
    assert_eq!(scan_run(&v, 3, v.len(), CharClass::NonBlank), 5);
    assert_eq!(scan_run(&v, 0, 2, CharClass::Blank), 2);
    assert_eq!(scan_run(&v, 0, v.len(), CharClass::Only('x')), 0);
    assert_eq!(scan_run(&v, 0, v.len(), CharClass::Except('b')), 4);
    assert_eq!(scan_back(&v, 0, v.len(), CharClass::Blank), 5);
    assert_eq!(scan_back(&v, 0, 5, CharClass::NonBlank), 3);
    assert_eq!(scan_back(&v, 6, v.len(), CharClass::Blank), 6);
}

#[test]
fn copy_range_takes_the_half_open_range() {
    let v = chars("abcdef");
    assert_eq!(copy_range(&v, 1, 4), chars("bcd"));
    assert_eq!(copy_range(&v, 2, 2), chars(""));
}

#[test]
fn prefix_test_compares_the_leading_characters() {
    assert!(starts_with(&chars("@@start::box"), &chars("@@start")));
    assert!(starts_with(&chars("abc"), &chars("")));
    assert!(!starts_with(&chars("@@st"), &chars("@@start")));
    assert!(!starts_with(&chars("@@stArt"), &chars("@@start")));
}

#[test]
fn trimming_removes_outer_whitespace_only() {
    assert_eq!(trimmed(&chars(" \t a b \n")), chars("a b"));
    assert_eq!(trimmed(&chars("   ")), chars(""));
    assert_eq!(trimmed_end(&chars("  a b \r\n")), chars("  a b"));
    assert_eq!(trimmed_end(&chars(" \n")), chars(""));
}

#[test]
fn split_keeps_empty_pieces() {
    assert_eq!(split(&chars("a\nb"), '\n'), vec![chars("a"), chars("b")]);
    assert_eq!(split(&chars("a\n"), '\n'), vec![chars("a"), chars("")]);
    assert_eq!(split(&chars(""), '\n'), vec![chars("")]);
    assert_eq!(split(&chars("\n\n"), '\n'), vec![chars(""), chars(""), chars("")]);
}

#[test]
fn words_are_runs_without_whitespace() {
    assert_eq!(split_whitespace(&chars("  ab  c\td ")), vec![chars("ab"), chars("c"), chars("d")]);
    assert_eq!(split_whitespace(&chars(" \n ")), Vec::<Vec<char>>::new());
}

#[test]
fn join_puts_the_separator_between_neighbours() {
    let parts = vec![chars("a"), chars(""), chars("bc")];
    assert_eq!(join_range(&parts, 0, 3, ' '), chars("a  bc"));
    assert_eq!(join_range(&parts, 2, 3, ' '), chars("bc"));
    assert_eq!(join_range(&parts, 1, 1, ' '), chars(""));
}

#[test]
fn longest_is_the_greatest_length() {
    assert_eq!(longest(&vec![chars("a"), chars("abc"), chars("ab")]), 3);
    assert_eq!(longest(&Vec::<Vec<char>>::new()), 0);
}

#[test]
fn markers_are_prefixes() {
    assert!(opens_directive(&chars("@@start")));
    assert!(opens_directive(&chars("@@started anyway")));
    assert!(!opens_directive(&chars("@start")));
    assert!(closes_directive(&chars("@@end::tree")));
    assert!(!closes_directive(&chars("@@en")));
}

#[test]
fn separator_is_found_leftmost() {
    assert_eq!(find_sep(&chars("a::b::c"), 0), 1);
    assert_eq!(find_sep(&chars("a::b::c"), 3), 4);
    assert_eq!(find_sep(&chars("a:b"), 0), 3);
    assert_eq!(find_sep(&chars(":::"), 0), 0);
    assert_eq!(find_sep(&chars(":::"), 2), 3);
    assert_eq!(find_sep(&chars(""), 0), 0);
}

#[test]
fn kind_token_stands_after_the_first_separator() {
    assert_eq!(read_kind_token(&chars("@@end::box\n")), Some(chars("box")));
    assert_eq!(read_kind_token(&chars("@@end:: tree ::x")), Some(chars("tree")));
    assert_eq!(read_kind_token(&chars("@@end::")), Some(chars("")));
    assert_eq!(read_kind_token(&chars("@@end:::")), Some(chars(":")));
    assert_eq!(read_kind_token(&chars("@@end")), None);
}

#[test]
fn kinds_are_named_exactly() {
    assert_eq!(classify(&chars("box")), DirectiveKind::Box);
    assert_eq!(classify(&chars("tree")), DirectiveKind::Tree);
    assert_eq!(classify(&chars("boxes")), DirectiveKind::Unknown);
    assert_eq!(classify(&chars("")), DirectiveKind::Unknown);
}

#[test]
fn output_path_replaces_the_final_extension() {
    assert_eq!(
        write_filepath("/home/okabe/projects/txtplus/testdata/mock/test.txt"),
        Some("/home/okabe/projects/txtplus/testdata/mock/test.plus.txt".to_string())
    );
    assert_eq!(write_filepath("/a/b.tar.gz"), Some("/a/b.tar.plus.txt".to_string()));
    assert_eq!(write_filepath("/a.d/notes"), Some("/a.d/notes.plus.txt".to_string()));
    assert_eq!(write_filepath("/notes.md"), Some("/notes.plus.txt".to_string()));
    assert_eq!(write_filepath("/a/.hidden"), Some("/a/.plus.txt".to_string()));
    assert_eq!(write_filepath("name.txt"), Some("/name.plus.txt".to_string()));
}
