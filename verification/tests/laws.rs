use strsplit::StrSplit;

const CASES: [(&str, &str); 16] = [
    ("a b c", " "),
    ("aaa", "a"),
    ("", ","),
    ("hello", "xyz"),
    (",a,", ","),
    ("aaa", "aa"),
    ("aaaa", "aa"),
    ("a,,b,,,c", ","),
    ("--x--y--", "--"),
    ("ab", "ab"),
    ("ab", "abc"),
    ("héllo→wörld→", "→"),
    ("日本語、テキスト、分割", "、"),
    ("xababay", "aba"),
    ("a-->b->c", "->"),
    ("mississippi", "ss"),
];

#[test]
fn joining_the_items_gives_the_text_back() {
    for (text, delimiter) in CASES {
        let items = StrSplit::new(text, delimiter).collect();
        assert_eq!(items.join(delimiter), text);
    }
}

#[test]
fn joining_gives_the_text_back_with_an_empty_delimiter() {
    assert_eq!(StrSplit::new("abc", "").collect().join(""), "abc");
}

#[test]
fn one_item_more_than_delimiters() {
    for (text, delimiter) in CASES {
        let items = StrSplit::new(text, delimiter).collect();
        assert_eq!(items.len(), text.matches(delimiter).count() + 1);
    }
}

#[test]
fn item_counts_are_exact() {
    assert_eq!(StrSplit::new("a,b,,c", ",").collect().len(), 4);
    assert_eq!(StrSplit::new("aaa", "a").collect().len(), 4);
    assert_eq!(StrSplit::new("aaaa", "aa").collect().len(), 3);
    assert_eq!(StrSplit::new("", ",").collect().len(), 1);
    assert_eq!(StrSplit::new("hello", "xyz").collect().len(), 1);
}

#[test]
fn items_are_at_most_one_more_than_characters() {
    for (text, delimiter) in CASES {
        let items = StrSplit::new(text, delimiter).collect();
        assert!(items.len() <= text.chars().count() + 1);
    }
}

#[test]
fn same_inputs_give_the_same_items() {
    for (text, delimiter) in CASES {
        let mut first = StrSplit::new(text, delimiter);
        let mut second = StrSplit::new(text, delimiter);
        loop {
            let one = first.next();
            let other = second.next();
            assert_eq!(one, other);
            if one.is_none() {
                break;
            }
        }
    }
}

#[test]
fn exhaustion_is_terminal() {
    for (text, delimiter) in CASES {
        let mut split = StrSplit::new(text, delimiter);
        while split.next().is_some() {}
        for _ in 0..5 {
            assert_eq!(split.next(), None);
        }
    }
}

#[test]
fn steps_and_collect_agree() {
    for (text, delimiter) in CASES {
        let mut split = StrSplit::new(text, delimiter);
        let mut stepped = Vec::new();
        while let Some(item) = split.next() {
            stepped.push(item);
        }
        assert_eq!(stepped, StrSplit::new(text, delimiter).collect());
    }
}

#[test]
fn agrees_with_the_standard_split() {
    for (text, delimiter) in CASES {
        let expected: Vec<&str> = text.split(delimiter).collect();
        assert_eq!(StrSplit::new(text, delimiter).collect(), expected);
    }
}

#[test]
fn no_item_but_the_last_is_followed_by_anything_but_the_delimiter() {
    for (text, delimiter) in CASES {
        let items = StrSplit::new(text, delimiter).collect();
        let mut offset = 0;
        for (index, item) in items.iter().enumerate() {
            assert_eq!(&text[offset..offset + item.len()], *item);
            assert!(!item.contains(delimiter));
            offset += item.len();
            if index + 1 < items.len() {
                assert!(text[offset..].starts_with(delimiter));
                offset += delimiter.len();
            }
        }
        assert_eq!(offset, text.len());
    }
}

fn words_over(alphabet: &[char], longest: usize) -> Vec<String> {
    let mut words = vec![String::new()];
    let mut from = 0;
    for _ in 0..longest {
        let until = words.len();
        for index in from..until {
            for letter in alphabet {
                let mut word = words[index].clone();
                word.push(*letter);
                words.push(word);
            }
        }
        from = until;
    }
    words
}

#[test]
fn agrees_with_the_standard_split_on_every_short_text() {
    let texts = words_over(&['a', 'b'], 7);
    let delimiters = words_over(&['a', 'b'], 3);
    assert_eq!(texts.len(), 255);
    for text in &texts {
        for delimiter in delimiters.iter().filter(|delimiter| !delimiter.is_empty()) {
            let expected: Vec<&str> = text.split(delimiter.as_str()).collect();
            let items = StrSplit::new(text, delimiter).collect();
            assert_eq!(items, expected);
            assert_eq!(items.join(delimiter.as_str()), *text);
            assert_eq!(items.len(), text.matches(delimiter.as_str()).count() + 1);
        }
    }
}

#[test]
fn agrees_with_the_standard_split_on_characters_of_many_bytes() {
    let texts = words_over(&['a', 'é', '→', '𝄞'], 4);
    let delimiters = words_over(&['a', 'é', '→', '𝄞'], 2);
    for text in &texts {
        for delimiter in delimiters.iter().filter(|delimiter| !delimiter.is_empty()) {
            let expected: Vec<&str> = text.split(delimiter.as_str()).collect();
            assert_eq!(StrSplit::new(text, delimiter).collect(), expected);
        }
    }
}
