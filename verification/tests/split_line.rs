use parseline::{match_fragments, segment, split_line, MatchError};

#[test]
fn test_split_line_empty_corners() {
    let result = split_line("@23x", "{}@{}x{}").unwrap();
    assert_eq!(result, vec!["", "23", ""]);
}

#[test]
fn test_split_line_with_corners() {
    let result = split_line("a@23x*", "{}@{}x{}").unwrap();
    assert_eq!(result, vec!["a", "23", "*"]);
}

#[test]
fn test_macro_vec() {
    let result = split_line("#1 @ c,1.44: firstxtrue", "#{} @ {},{}: {}x{}").expect("Failed to parse");
    assert_eq!(result, vec!["1", "c", "1.44", "first", "true"]);
}

#[test]
fn missing_literal_is_fragment_not_found() {
    assert_eq!(split_line("1@a^", "{}#{}^{}"), Err(MatchError::FragmentNotFound));
}

#[test]
fn consecutive_placeholders_are_an_invalid_pattern() {
    assert_eq!(split_line("1@a^", "{}@{}{}^{}"), Err(MatchError::InvalidPattern));
}

#[test]
fn invalid_pattern_is_reported_whatever_the_input() {
    assert_eq!(split_line("", "{}@{}{}^{}"), Err(MatchError::InvalidPattern));
    assert_eq!(split_line("zzz", "a{}{}b"), Err(MatchError::InvalidPattern));
    assert_eq!(split_line("ab", "a{}{}b"), Err(MatchError::InvalidPattern));
    assert_eq!(split_line("anything", "{}{}"), Err(MatchError::InvalidPattern));
    assert_eq!(split_line("anything", "{}{}x"), Err(MatchError::InvalidPattern));
    assert_eq!(split_line("a1", "a{}{}"), Err(MatchError::InvalidPattern));
}

#[test]
fn empty_template_captures_the_whole_line() {
    assert_eq!(split_line("hello", ""), Ok(vec!["hello"]));
    assert_eq!(split_line("", ""), Ok(vec![""]));
}

#[test]
fn template_without_marker_captures_nothing() {
    assert_eq!(split_line("abc", "abc"), Ok(vec![]));
    assert_eq!(split_line("xxabcxx", "abc"), Ok(vec![]));
    assert_eq!(split_line("ab", "abc"), Err(MatchError::FragmentNotFound));
    assert_eq!(split_line("", "abc"), Err(MatchError::FragmentNotFound));
}

#[test]
fn lone_marker_captures_the_whole_line() {
    assert_eq!(split_line("hello", "{}"), Ok(vec!["hello"]));
    assert_eq!(split_line("", "{}"), Ok(vec![""]));
}

#[test]
fn text_before_the_first_fragment_is_not_captured() {
    assert_eq!(split_line("zzabc", "a{}c"), Ok(vec!["b"]));
    assert_eq!(split_line("abczz", "a{}c"), Ok(vec!["b"]));
}

#[test]
fn each_fragment_is_found_at_its_first_occurrence() {
    assert_eq!(split_line("a-b-c", "{}-{}"), Ok(vec!["a", "b-c"]));
    assert_eq!(split_line("k=v=w;", "{}={};"), Ok(vec!["k", "v=w"]));
    assert_eq!(split_line("aXbXc", "a{}X{}c"), Ok(vec!["", "bX"]));
}

#[test]
fn a_fragment_never_overlaps_the_one_before_it() {
    assert_eq!(split_line("aba", "ab{}ba"), Err(MatchError::FragmentNotFound));
    assert_eq!(split_line("abba", "ab{}ba"), Ok(vec![""]));
    assert_eq!(split_line("aa", "a{}a{}a"), Err(MatchError::FragmentNotFound));
}

#[test]
fn fragments_are_searched_from_left_to_right_only() {
    assert_eq!(split_line("b1a", "a{}b"), Err(MatchError::FragmentNotFound));
}

#[test]
fn positions_count_characters() {
    assert_eq!(split_line("aéb", "{}é{}"), Ok(vec!["a", "b"]));
    assert_eq!(split_line("éxb", "é{}b"), Ok(vec!["x"]));
    assert_eq!(split_line("é=ü", "{}={}"), Ok(vec!["é", "ü"]));
    assert_eq!(split_line("日本語: 東京", "日本語: {}"), Ok(vec!["東京"]));
}

#[test]
fn braces_that_form_no_marker_are_literal() {
    assert_eq!(split_line("{x}", "{{}}"), Ok(vec!["x"]));
    assert_eq!(split_line("}1{", "}{}{"), Ok(vec!["1"]));
    assert_eq!(split_line("{ }", "{ }"), Ok(vec![]));
}

#[test]
fn captures_are_slices_of_the_input() {
    let input = String::from("key: value");
    let result = split_line(&input, "{}: {}").unwrap();
    let start = input.as_ptr() as usize;
    let end = start + input.len();
    for capture in &result {
        let at = capture.as_ptr() as usize;
        assert!(start <= at && at + capture.len() <= end);
    }
    assert_eq!(result, vec!["key", "value"]);
}

#[test]
fn one_capture_for_each_marker() {
    let cases = [
        ("a{}b", "a1b", 1),
        ("{}", "x", 1),
        ("{}@{}x{}", "@23x", 3),
        ("#{} @ {},{}: {}x{}", "#1 @ c,1.44: firstxtrue", 5),
        ("abc", "abc", 0),
        ("a{}b{}c{}d", "a1b2c3d", 3),
    ];
    for (template, input, markers) in cases {
        assert_eq!(template.matches("{}").count(), markers);
        assert_eq!(split_line(input, template).unwrap().len(), markers);
    }
}

#[test]
fn fragments_and_captures_give_the_line_back() {
    let cases = [
        ("{}@{}x{}", "@23x"),
        ("{}@{}x{}", "a@23x*"),
        ("#{} @ {},{}: {}x{}", "#1 @ c,1.44: firstxtrue"),
        ("a{}c", "abc"),
        ("", "whole line"),
        ("{}", "whole line"),
    ];
    for (template, input) in cases {
        let frags = segment(template);
        let caps = split_line(input, template).unwrap();
        let mut rebuilt = String::new();
        for i in 0..frags.len() {
            rebuilt.push_str(frags[i]);
            if i < caps.len() {
                rebuilt.push_str(caps[i]);
            }
        }
        assert_eq!(rebuilt, input);
    }
}

#[test]
fn unmatched_ends_of_the_line_are_left_out_of_the_rebuilt_text() {
    let frags = segment("a{}c");
    let caps = split_line("zzabczz", "a{}c").unwrap();
    assert_eq!(frags, vec!["a", "c"]);
    assert_eq!(caps, vec!["b"]);
    assert_eq!(format!("{}{}{}", frags[0], caps[0], frags[1]), "abc");
}

#[test]
fn matching_twice_gives_the_same_outcome() {
    let cases = [
        ("@23x", "{}@{}x{}"),
        ("1@a^", "{}#{}^{}"),
        ("1@a^", "{}@{}{}^{}"),
        ("#1 @ c,1.44: firstxtrue", "#{} @ {},{}: {}x{}"),
    ];
    for (input, template) in cases {
        assert_eq!(split_line(input, template), split_line(input, template));
    }
}

#[test]
fn split_line_is_segment_then_match() {
    let cases = [
        ("@23x", "{}@{}x{}"),
        ("1@a^", "{}#{}^{}"),
        ("1@a^", "{}@{}{}^{}"),
        ("abc", ""),
    ];
    for (input, template) in cases {
        assert_eq!(split_line(input, template), match_fragments(input, &segment(template)));
    }
}

#[test]
fn match_fragments_takes_any_list_of_fragments() {
    assert_eq!(match_fragments("abc", &vec![]), Ok(vec![]));
    assert_eq!(match_fragments("abc", &vec![""]), Ok(vec!["abc"]));
    assert_eq!(match_fragments("abc", &vec!["", ""]), Ok(vec!["abc"]));
    assert_eq!(match_fragments("abc", &vec!["b"]), Ok(vec![]));
    assert_eq!(match_fragments("abc", &vec!["a", "c"]), Ok(vec!["b"]));
    assert_eq!(match_fragments("abc", &vec!["a", "", "c"]), Err(MatchError::InvalidPattern));
    assert_eq!(match_fragments("abc", &vec!["x", "", "c"]), Err(MatchError::InvalidPattern));
    assert_eq!(match_fragments("abc", &vec!["a", "x"]), Err(MatchError::FragmentNotFound));
    assert_eq!(match_fragments("a{}c", &vec!["a", "c"]), Ok(vec!["{}"]));
}
