use libgitdit::message::{chars_of_all, join};
use libgitdit::text::{
    blank, chars_of, is_space_char, join_chars, lex_le_chars, lines_of, same_chars, same_text,
    split, string_of, trimmed,
};

fn text_chars(s: &str) -> Vec<char> {
    s.chars().collect()
}

fn text_parts(parts: &[&str]) -> Vec<Vec<char>> {
    parts.iter().map(|p| p.chars().collect()).collect()
}

#[test]
fn chars_and_strings() {
    assert_eq!(chars_of("aä✓"), vec!['a', 'ä', '✓']);
    assert_eq!(chars_of(""), Vec::<char>::new());
    assert_eq!(string_of(&['x', 'ÿ', '\n']), "xÿ\n");
    assert_eq!(string_of(&[]), "");
    assert_eq!(string_of(&chars_of("round trip")), "round trip");
}

#[test]
fn white_space() {
    for c in [' ', '\t', '\n', '\r', '\x0b', '\x0c'] {
        assert!(is_space_char(c));
    }
    for c in ['a', '0', '-', '\u{a0}', '\0'] {
        assert!(!is_space_char(c));
    }
    assert!(blank(&text_chars("")));
    assert!(blank(&text_chars(" \t\r\n")));
    assert!(!blank(&text_chars("  x ")));
}

#[test]
fn trimmed_removes_white_space_around() {
    assert_eq!(trimmed(&text_chars("  a b \t\n")), text_chars("a b"));
    assert_eq!(trimmed(&text_chars("a")), text_chars("a"));
    assert_eq!(trimmed(&text_chars(" \n ")), text_chars(""));
    assert_eq!(trimmed(&text_chars("")), text_chars(""));
    for s in ["", " ", "x", " x", "x ", "\t x y \r\n", "\u{a0}x\u{a0}"] {
        let expected: String = s
            .trim_matches(|c| [' ', '\t', '\n', '\r', '\x0b', '\x0c'].contains(&c))
            .to_string();
        assert_eq!(string_of(&trimmed(&text_chars(s))), expected);
    }
}

#[test]
fn lines_of_a_text() {
    assert_eq!(lines_of(&text_chars("")), text_parts(&[]));
    assert_eq!(lines_of(&text_chars("a")), text_parts(&["a"]));
    assert_eq!(lines_of(&text_chars("a\n")), text_parts(&["a"]));
    assert_eq!(lines_of(&text_chars("a\nb")), text_parts(&["a", "b"]));
    assert_eq!(lines_of(&text_chars("\n")), text_parts(&[""]));
    assert_eq!(lines_of(&text_chars("a\n\nb\n\n")), text_parts(&["a", "", "b", ""]));
    assert_eq!(lines_of(&text_chars("a\r\nb")), text_parts(&["a\r", "b"]));
}

#[test]
fn splitting_and_joining() {
    assert_eq!(split(&text_chars(""), '/'), text_parts(&[""]));
    assert_eq!(split(&text_chars("a"), '/'), text_parts(&["a"]));
    assert_eq!(split(&text_chars("a/b"), '/'), text_parts(&["a", "b"]));
    assert_eq!(split(&text_chars("/a//b/"), '/'), text_parts(&["", "a", "", "b", ""]));
    assert_eq!(join_chars(&text_parts(&["", "a", "", "b", ""]), '/'), text_chars("/a//b/"));
    assert_eq!(join_chars(&text_parts(&["a"]), ','), text_chars("a"));
    assert_eq!(join_chars(&text_parts(&[]), ','), text_chars(""));
    for s in ["", "/", "refs/dit/x", "a//", "no separator"] {
        assert_eq!(join_chars(&split(&text_chars(s), '/'), '/'), text_chars(s));
    }
}

#[test]
fn joining_lines() {
    assert_eq!(join(&vec!["a".to_string(), "".to_string(), "b".to_string()]), "a\n\nb\n");
    assert_eq!(join(&vec![]), "");
    assert_eq!(
        chars_of_all(&vec!["ab".to_string(), "".to_string()]),
        text_parts(&["ab", ""])
    );
}

#[test]
fn comparing_texts() {
    assert!(same_text("abc", "abc"));
    assert!(!same_text("abc", "abd"));
    assert!(!same_text("abc", "ab"));
    assert!(same_text("", ""));
    assert!(same_chars(&text_chars("ä"), &text_chars("ä")));
    assert!(!same_chars(&text_chars("a"), &text_chars("")));
}

#[test]
fn the_order_of_dictionaries() {
    let words = ["", "a", "ab", "abc", "b", "B", "ä", "a b", "refs/a", "refs0"];
    for a in words {
        for b in words {
            assert_eq!(lex_le_chars(&text_chars(a), &text_chars(b)), a <= b, "{:?} {:?}", a, b);
        }
    }
}
