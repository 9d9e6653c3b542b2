use strsplit::StrSplit;

fn drain<'a>(mut split: StrSplit<'a>) -> Vec<&'a str> {
    let mut items = Vec::new();
    while let Some(item) = split.next() {
        items.push(item);
    }
    items
}

#[test]
fn splits_on_single_spaces() {
    assert_eq!(drain(StrSplit::new("a b c", " ")), vec!["a", "b", "c"]);
}

#[test]
fn text_made_of_delimiters_gives_empty_items() {
    assert_eq!(drain(StrSplit::new("aaa", "a")), vec!["", "", "", ""]);
}

#[test]
fn empty_text_gives_one_empty_item() {
    let mut split = StrSplit::new("", ",");
    assert_eq!(split.next(), Some(""));
    assert_eq!(split.next(), None);
    assert_eq!(split.next(), None);
}

#[test]
fn text_without_delimiter_is_one_item() {
    assert_eq!(drain(StrSplit::new("hello", "xyz")), vec!["hello"]);
}

#[test]
fn delimiters_at_both_ends_give_empty_items() {
    assert_eq!(drain(StrSplit::new(",a,", ",")), vec!["", "a", ""]);
}

#[test]
fn leading_delimiter_gives_empty_first_item() {
    assert_eq!(drain(StrSplit::new("--x", "--")), vec!["", "x"]);
}

#[test]
fn trailing_delimiter_gives_empty_last_item() {
    assert_eq!(drain(StrSplit::new("x--", "--")), vec!["x", ""]);
}

#[test]
fn delimiters_in_a_row_give_empty_items_between() {
    assert_eq!(drain(StrSplit::new("a,,b,,,c", ",")), vec!["a", "", "b", "", "", "c"]);
}

#[test]
fn text_equal_to_delimiter_gives_two_empty_items() {
    assert_eq!(drain(StrSplit::new("ab", "ab")), vec!["", ""]);
}

#[test]
fn delimiter_longer_than_text_is_not_found() {
    assert_eq!(drain(StrSplit::new("ab", "abc")), vec!["ab"]);
}

#[test]
fn overlapping_candidates_are_taken_from_the_left() {
    assert_eq!(drain(StrSplit::new("aaa", "aa")), vec!["", "a"]);
    assert_eq!(drain(StrSplit::new("aaaa", "aa")), vec!["", "", ""]);
    assert_eq!(drain(StrSplit::new("xababay", "aba")), vec!["x", "bay"]);
}

#[test]
fn partial_match_does_not_hide_the_real_one() {
    assert_eq!(drain(StrSplit::new("aab", "ab")), vec!["a", ""]);
    assert_eq!(drain(StrSplit::new("a-->b->c", "->")), vec!["a-", "b", "c"]);
}

#[test]
fn empty_delimiter_leaves_the_text_whole() {
    assert_eq!(drain(StrSplit::new("abc", "")), vec!["abc"]);
    assert_eq!(drain(StrSplit::new("", "")), vec![""]);
}

#[test]
fn splits_text_of_many_bytes_per_character() {
    assert_eq!(drain(StrSplit::new("héllo→wörld→", "→")), vec!["héllo", "wörld", ""]);
    assert_eq!(drain(StrSplit::new("日本語、テキスト、分割", "、")), vec!["日本語", "テキスト", "分割"]);
    assert_eq!(drain(StrSplit::new("aé", "é")), vec!["a", ""]);
    assert_eq!(drain(StrSplit::new("𝄞x𝄞", "x")), vec!["𝄞", "𝄞"]);
}

#[test]
fn next_moves_one_item_at_a_time() {
    let mut split = StrSplit::new("key=value=more", "=");
    assert_eq!(split.next(), Some("key"));
    assert_eq!(split.next(), Some("value"));
    assert_eq!(split.next(), Some("more"));
    assert_eq!(split.next(), None);
}

#[test]
fn items_are_slices_of_the_text() {
    let text = String::from("left|right");
    let mut split = StrSplit::new(&text, "|");
    let left = split.next().unwrap();
    let right = split.next().unwrap();
    assert_eq!(left.as_ptr(), text.as_ptr());
    assert_eq!(right.as_ptr(), text[5..].as_ptr());
    assert_eq!(right.len(), 5);
}

#[test]
fn collect_takes_every_item() {
    assert_eq!(StrSplit::new("a b c", " ").collect(), vec!["a", "b", "c"]);
    assert_eq!(StrSplit::new("", ",").collect(), vec![""]);
    assert_eq!(StrSplit::new(",a,", ",").collect(), vec!["", "a", ""]);
}

#[test]
fn collect_takes_only_what_is_left() {
    let mut split = StrSplit::new("a,b,c", ",");
    assert_eq!(split.next(), Some("a"));
    assert_eq!(split.collect(), vec!["b", "c"]);
}

#[test]
fn collect_after_the_last_item_is_empty() {
    let mut split = StrSplit::new("a", ",");
    assert_eq!(split.next(), Some("a"));
    assert_eq!(split.next(), None);
    assert!(split.collect().is_empty());
}
