use event_list::text::{chars_of, replace_all, same_text, split_on, text_of};

#[test]
fn chars_of_gives_every_character() {
    assert_eq!(chars_of("a\u{e9}\u{1f63d}z"), vec!['a', '\u{e9}', '\u{1f63d}', 'z']);
    assert_eq!(chars_of(""), Vec::<char>::new());
}

#[test]
fn text_of_takes_the_range() {
    let chars = vec!['h', 'e', 'l', 'l', 'o'];
    assert_eq!(text_of(&chars, 0, 5), "hello");
    assert_eq!(text_of(&chars, 1, 3), "el");
    assert_eq!(text_of(&chars, 2, 2), "");
    assert_eq!(text_of(&chars, 5, 5), "");
}

#[test]
fn same_text_compares_character_by_character() {
    assert!(same_text("", ""));
    assert!(same_text("DTSTART", "DTSTART"));
    assert!(!same_text("DTSTART", "DTSTAR"));
    assert!(!same_text("DTSTART", "DTSTARt"));
    assert!(!same_text("DTSTART", "DTEND"));
    assert!(!same_text("a", ""));
    assert!(same_text("\u{e9}", "\u{e9}"));
    assert!(!same_text("\u{e9}", "e"));
}

#[test]
fn replace_all_replaces_every_occurrence() {
    assert_eq!(replace_all("a,b,c", ",", ";"), "a;b;c");
    assert_eq!(replace_all("abc", "x", "y"), "abc");
    assert_eq!(replace_all("", "x", "y"), "");
    assert_eq!(replace_all("xxx", "x", ""), "");
    assert_eq!(replace_all("abc", "abc", "z"), "z");
    assert_eq!(replace_all("ab", "abc", "z"), "ab");
}

#[test]
fn replace_all_goes_from_the_left_without_overlap() {
    assert_eq!(replace_all("aaa", "aa", "b"), "ba");
    assert_eq!(replace_all("aaaa", "aa", "b"), "bb");
    assert_eq!(replace_all("ababa", "aba", "x"), "xba");
}

#[test]
fn replace_all_does_not_search_what_it_put_in() {
    assert_eq!(replace_all("aa", "a", "aa"), "aaaa");
    assert_eq!(replace_all("ab", "b", "ab"), "aab");
    assert_eq!(replace_all("\\\\n", "\\\\", "\\"), "\\n");
}

#[test]
fn replace_all_puts_the_text_at_every_place_for_the_empty_pattern() {
    assert_eq!(replace_all("abc", "", "-"), "-a-b-c-");
    assert_eq!(replace_all("", "", "-"), "-");
    assert_eq!(replace_all("a", "", ""), "a");
}

#[test]
fn replace_all_agrees_with_the_standard_library() {
    let texts = ["", "a", "aaa", "abcabcabc", "\r\n\tx\r\n\t", "\\,\\\\n\\;", "\u{e9}t\u{e9}"];
    let pairs = [
        ("a", "b"),
        ("abc", ""),
        ("\r\n\t", ""),
        ("\\\\", "\\"),
        ("\u{e9}", "e"),
        ("bc", "cb"),
        ("", "-"),
        ("", ""),
    ];
    for text in texts {
        for (from, to) in pairs {
            assert_eq!(replace_all(text, from, to), text.replace(from, to));
        }
    }
}

#[test]
fn split_on_cuts_at_every_separator() {
    assert_eq!(split_on("a&b&c", '&'), vec!["a", "b", "c"]);
    assert_eq!(split_on("abc", '&'), vec!["abc"]);
    assert_eq!(split_on("", '&'), vec![""]);
    assert_eq!(split_on("&", '&'), vec!["", ""]);
    assert_eq!(split_on("a&", '&'), vec!["a", ""]);
    assert_eq!(split_on("&a", '&'), vec!["", "a"]);
    assert_eq!(split_on("a&&b", '&'), vec!["a", "", "b"]);
}

#[test]
fn split_on_agrees_with_the_standard_library() {
    let texts = ["", "=", "a=b", "a=b=c", "==", "code=1&state=2", "\u{e9}=\u{e9}"];
    for text in texts {
        for separator in ['=', '&', '\n'] {
            let expected: Vec<String> = text.split(separator).map(|p| p.to_string()).collect();
            assert_eq!(split_on(text, separator), expected);
        }
    }
}
