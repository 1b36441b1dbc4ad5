use fieldcut::chars::{digit_of, is_ws_char};
use fieldcut::fieldspec::{parse_fields, parse_term, parse_usize};
use fieldcut::ranges::sort_and_merge_ranges;
use fieldcut::select::{process_line, render_row, select_fields};
use fieldcut::tokenize::parse_line;

#[test]
fn single_index() {
    let ranges = parse_fields("0").expect("valid spec");
    assert_eq!(ranges, vec![(0, 0)]);
    assert_eq!(process_line(&ranges, "a b c"), Some(String::from("a")));
}

#[test]
fn two_indices() {
    let ranges = parse_fields("0,2").expect("valid spec");
    assert_eq!(ranges, vec![(0, 0), (2, 2)]);
    assert_eq!(process_line(&ranges, "a b c"), Some(String::from("a\tc")));
}

#[test]
fn index_range() {
    let ranges = parse_fields("0-2").expect("valid spec");
    assert_eq!(ranges, vec![(0, 2)]);
    assert_eq!(process_line(&ranges, "a b c d"), Some(String::from("a\tb\tc")));
}

#[test]
fn merged_out_of_order_spec() {
    // "2,0-1" normalizes to the single range (0, 2): the output follows
    // numeric field order, not the user's comma order.
    let ranges = parse_fields("2,0-1").expect("valid spec");
    assert_eq!(ranges, vec![(0, 2)]);
    assert_eq!(process_line(&ranges, "a b c"), Some(String::from("a\tb\tc")));
}

#[test]
fn out_of_range_is_fatal() {
    let ranges = parse_fields("5").expect("valid spec");
    assert_eq!(process_line(&ranges, "a b"), None);
}

#[test]
fn whitespace_only_line_has_no_fields() {
    assert_eq!(parse_line(" \t  \u{00A0} "), Vec::<String>::new());
    assert_eq!(parse_line(""), Vec::<String>::new());
}

#[test]
fn round_trip_all_fields() {
    let fields = parse_line("alpha beta gamma");
    assert_eq!(fields, vec!["alpha", "beta", "gamma"]);
    let selected = select_fields(&vec![(0, 2)], &fields).expect("in range");
    assert_eq!(selected, fields);
    assert_eq!(render_row(&selected), "alpha\tbeta\tgamma");
}

#[test]
fn normalize_is_idempotent() {
    let once = sort_and_merge_ranges(vec![(4, 6), (0, 1), (2, 2), (9, 9)]);
    let twice = sort_and_merge_ranges(once.clone());
    assert_eq!(twice, once);
}

#[test]
fn normalized_ranges_are_sorted_and_gapped() {
    let ranges = parse_fields("3,1,2,7-9,8").expect("valid spec");
    assert_eq!(ranges, vec![(1, 3), (7, 9)]);
    for w in ranges.windows(2) {
        assert!(w[0].1 + 1 < w[1].0);
    }
    for r in &ranges {
        assert!(r.0 <= r.1);
    }
}

#[test]
fn adjacent_and_duplicate_ranges_merge() {
    assert_eq!(sort_and_merge_ranges(vec![(0, 0), (1, 1)]), vec![(0, 1)]);
    assert_eq!(sort_and_merge_ranges(vec![(2, 4), (3, 5)]), vec![(2, 5)]);
    assert_eq!(sort_and_merge_ranges(vec![(1, 1), (1, 1)]), vec![(1, 1)]);
    assert_eq!(sort_and_merge_ranges(vec![]), vec![]);
}

#[test]
fn empty_spec_is_rejected() {
    assert_eq!(parse_fields(""), None);
}

#[test]
fn malformed_specs_are_rejected() {
    assert_eq!(parse_fields("a"), None);
    assert_eq!(parse_fields("1,"), None);
    assert_eq!(parse_fields(",1"), None);
    assert_eq!(parse_fields("1,,2"), None);
    assert_eq!(parse_fields("1x"), None);
    assert_eq!(parse_fields("1-"), None);
    assert_eq!(parse_fields("-1"), None);
    assert_eq!(parse_fields("1-2-3"), None);
    assert_eq!(parse_fields("1 ,2"), None);
}

#[test]
fn reversed_range_is_rejected() {
    assert_eq!(parse_fields("2-1"), None);
    assert_eq!(parse_fields("2-2"), Some(vec![(2, 2)]));
}

#[test]
fn oversized_value_is_rejected() {
    assert_eq!(parse_fields("99999999999999999999999999"), None);
    assert_eq!(parse_fields("0-99999999999999999999999999"), None);
}

#[test]
fn parse_usize_values() {
    assert_eq!(parse_usize("0"), Some(0));
    assert_eq!(parse_usize("0042"), Some(42));
    assert_eq!(parse_usize("18446744073709551615"), Some(usize::MAX));
    assert_eq!(parse_usize("18446744073709551616"), None);
    assert_eq!(parse_usize(""), None);
    assert_eq!(parse_usize("+1"), None);
}

#[test]
fn parse_term_values() {
    assert_eq!(parse_term("7"), Some((7, 7)));
    assert_eq!(parse_term("3-12"), Some((3, 12)));
    assert_eq!(parse_term("12-3"), None);
    assert_eq!(parse_term("3-3"), Some((3, 3)));
    assert_eq!(parse_term(""), None);
    assert_eq!(parse_term("-"), None);
}

#[test]
fn tokens_split_on_whitespace_runs() {
    assert_eq!(parse_line("  a  b\tc \r\n"), vec!["a", "b", "c"]);
    assert_eq!(parse_line("one"), vec!["one"]);
}

#[test]
fn selection_skips_nothing_within_range() {
    let fields = parse_line("a b c d e");
    let selected = select_fields(&vec![(1, 2), (4, 4)], &fields).expect("in range");
    assert_eq!(selected, vec!["b", "c", "e"]);
    assert_eq!(render_row(&selected), "b\tc\te");
}

#[test]
fn selection_out_of_range_fails_whole_line() {
    let fields = parse_line("a b");
    assert_eq!(select_fields(&vec![(0, 0), (2, 2)], &fields), None);
}

#[test]
fn render_empty_row_is_empty_line() {
    assert_eq!(render_row(&Vec::new()), "");
    assert_eq!(render_row(&vec![String::from("x")]), "x");
}

#[test]
fn character_classes() {
    assert!(is_ws_char(' '));
    assert!(is_ws_char('\u{3000}'));
    assert!(!is_ws_char('a'));
    assert_eq!(digit_of('7'), Some(7));
    assert_eq!(digit_of('-'), None);
}
