use parseline::search::find_from;
use parseline::segment;
use parseline::text::chars_of;

#[test]
fn template_is_cut_at_every_marker() {
    assert_eq!(segment("{}@{}x{}"), vec!["", "@", "x", ""]);
    assert_eq!(segment("#{} @ {},{}: {}x{}"), vec!["#", " @ ", ",", ": ", "x", ""]);
    assert_eq!(segment("a{}b"), vec!["a", "b"]);
}

#[test]
fn template_without_marker_is_one_fragment() {
    assert_eq!(segment("abc"), vec!["abc"]);
    assert_eq!(segment(""), vec![""]);
    assert_eq!(segment("{ }"), vec!["{ }"]);
    assert_eq!(segment("}{"), vec!["}{"]);
}

#[test]
fn markers_at_the_ends_leave_empty_fragments() {
    assert_eq!(segment("{}"), vec!["", ""]);
    assert_eq!(segment("{}a"), vec!["", "a"]);
    assert_eq!(segment("a{}"), vec!["a", ""]);
}

#[test]
fn consecutive_markers_leave_an_empty_fragment_between() {
    assert_eq!(segment("{}{}"), vec!["", "", ""]);
    assert_eq!(segment("{}@{}{}^{}"), vec!["", "@", "", "^", ""]);
    assert_eq!(segment("a{}{}"), vec!["a", "", ""]);
}

#[test]
fn nested_braces_hold_one_marker() {
    assert_eq!(segment("{{}}"), vec!["{", "}"]);
    assert_eq!(segment("{}}"), vec!["", "}"]);
    assert_eq!(segment("{{}"), vec!["{", ""]);
}

#[test]
fn segment_agrees_with_splitting_on_the_marker() {
    let templates = ["", "{}", "a{}b", "{}{}", "{{}}", "x{}y{}z", "{}@{}x{}", "é{}ü", "{", "}{}{"];
    for template in templates {
        let expected: Vec<&str> = template.split("{}").collect();
        assert_eq!(segment(template), expected);
    }
}

#[test]
fn joining_the_fragments_gives_the_template_back() {
    let templates = ["", "{}", "a{}b", "{}{}", "{{}}", "x{}y{}z", "{}@{}x{}", "é{}ü"];
    for template in templates {
        assert_eq!(segment(template).join("{}"), template);
    }
}

#[test]
fn fragments_are_one_more_than_markers() {
    assert_eq!(segment("no marker").len(), 1);
    assert_eq!(segment("{}").len(), 2);
    assert_eq!(segment("{}@{}x{}").len(), 4);
}

#[test]
fn chars_of_lays_out_the_characters() {
    assert_eq!(chars_of(""), Vec::<char>::new());
    assert_eq!(chars_of("a{}"), vec!['a', '{', '}']);
    assert_eq!(chars_of("éü"), vec!['é', 'ü']);
}

#[test]
fn find_from_gives_the_first_occurrence() {
    let hay = chars_of("abcabc");
    assert_eq!(find_from(&hay, &chars_of("bc"), 0), Some(1));
    assert_eq!(find_from(&hay, &chars_of("bc"), 1), Some(1));
    assert_eq!(find_from(&hay, &chars_of("bc"), 2), Some(4));
    assert_eq!(find_from(&hay, &chars_of("bc"), 5), None);
    assert_eq!(find_from(&hay, &chars_of("abcabc"), 0), Some(0));
    assert_eq!(find_from(&hay, &chars_of("abcabcd"), 0), None);
    assert_eq!(find_from(&hay, &chars_of("x"), 0), None);
}

#[test]
fn find_from_finds_the_empty_text_at_the_cursor() {
    let hay = chars_of("abc");
    assert_eq!(find_from(&hay, &[], 0), Some(0));
    assert_eq!(find_from(&hay, &[], 2), Some(2));
    assert_eq!(find_from(&hay, &[], 3), Some(3));
    assert_eq!(find_from(&hay, &[], 4), None);
    assert_eq!(find_from(&[], &[], 0), Some(0));
}

#[test]
fn find_from_counts_characters() {
    let hay = chars_of("ééa");
    assert_eq!(find_from(&hay, &chars_of("a"), 0), Some(2));
    assert_eq!("ééa".find("a"), Some(4));
}
