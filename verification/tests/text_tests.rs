use core::ops::Range;
use pillar::text;

#[test]
fn test_len() {
    let data_3 = "len";
    let data_4 = "len\u{1F44D}";
    let data_5 = "len-\u{00DE}";

    assert_eq!(3, text::len(data_3));
    assert_eq!(4, text::len(data_4));
    assert_eq!(5, text::len(data_5));
}

#[test]
fn test_slice() {
    let data = "some text";
    let r = Range { start: 5, end: text::len(data) };
    assert_eq!(String::from("text"), text::slice(data, r));
}

#[test]
fn test_insert() {
    let data = "hello world";
    let ins = " my";
    let idx = 5;
    let out = String::from("hello my world");
    assert_eq!(out, text::insert(data, idx, ins));
}

#[test]
fn test_first() {
    let data = " \tfirst";
    let expect = (String::from("f"), 2);
    assert_eq!(expect, text::first(data));
}

#[test]
fn test_first_from() {
    let data = "first  second";
    let expect = (String::from("s"), 2);
    assert_eq!(expect, text::first_from(data, 5));
}

#[test]
fn test_remove() {
    let data = "hello ";
    let expect = String::from("hello");
    assert_eq!(expect, text::remove(data, 5, 1));

    let data = "hello ";
    let expect = String::from("hlo ");
    assert_eq!(expect, text::remove(data, 1, 2));
}

#[test]
fn test_replace() {
    let data = "bat";
    let target = "at";
    let insert = "te";
    let expect = String::from("bte");
    assert_eq!(expect, text::replace(data, target, insert));
}

#[test]
fn test_trim() {
    let data = String::from("  hello world   ");
    let expect = (String::from("hello world"), 2, 12);
    assert_eq!(expect.0, text::trim(&data, 0, 0).0);
}

#[test]
fn trim_reports_zero_first_index() {
    let data = String::from("  spaced  ");
    let out = text::trim(&data, 0, 0);
    assert_eq!(String::from("spaced"), out.0);
    assert_eq!(0, out.1);
    assert_eq!(5, out.2);
}

#[test]
fn trim_all_blank() {
    let data = String::from(" \t ");
    let out = text::trim(&data, 0, 0);
    assert_eq!(String::new(), out.0);
    assert_eq!(0, out.1);
    assert_eq!(0, out.2);
}

#[test]
fn replace_every_occurrence() {
    assert_eq!(
        String::from("X sheep, X goats"),
        text::replace("some sheep, some goats", "some", "X")
    );
}

#[test]
fn replace_missing_target() {
    assert_eq!(String::from("plain"), text::replace("plain", "zz", "yy"));
}

#[test]
fn slice_start_past_end_falls_back_to_zero() {
    let data = "abc";
    let r = Range { start: 5, end: 7 };
    assert_eq!(String::from("abc"), text::slice(data, r));
}

#[test]
fn remove_overshooting_count_appends_whole_string() {
    assert_eq!(String::from("helhello"), text::remove("hello", 3, 10));
}

#[test]
fn first_from_past_end_scans_whole_string() {
    assert_eq!((String::from("a"), 0), text::first_from("ab", 5));
}

#[test]
fn insert_at_end_appends() {
    assert_eq!(String::from("ab!"), text::insert("ab", 2, "!"));
}

#[test]
fn len_counts_characters_not_bytes() {
    assert_eq!(2, text::len("\u{00E9}\u{00E9}"));
}

#[test]
fn slice_is_character_based() {
    let data = "\u{1F69A}\u{1F717}\u{1F987}x";
    let r = Range { start: 2, end: 3 };
    assert_eq!(String::from("\u{1F987}"), text::slice(data, r));
}

#[test]
fn replace_rescans_recombined_targets() {
    // removing "ab" from "aab" first yields "ab" again; the rescan
    // removes that too
    assert_eq!(String::from("b"), text::replace("aab", "ab", "b"));
}

#[test]
fn replace_shrinks_until_no_target_remains() {
    assert_eq!(String::from("a"), text::replace("aaaa", "aa", "a"));
}

#[test]
fn replace_equal_length_rescans() {
    // each substitution keeps the length but moves the text, and the
    // rescan starts over from the front
    assert_eq!(String::from("baa"), text::replace("aab", "ab", "ba"));
}
