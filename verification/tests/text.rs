use rugraph::element::{decimal_text, signed_decimal_text, Element};
use rugraph::text::{chars_of, is_blank, position, replace, slice, split_on, string_of, trimmed};

fn chars(s: &str) -> Vec<char> {
    s.chars().collect()
}

fn text(v: &Vec<char>) -> String {
    v.iter().collect()
}

#[test]
fn chars_and_back() {
    assert_eq!(chars_of("a→b"), vec!['a', '→', 'b']);
    assert_eq!(string_of(&vec!['x', 'é', '\n']), "xé\n");
    assert_eq!(chars_of(""), Vec::<char>::new());
}

#[test]
fn position_of_first() {
    assert_eq!(position(&chars("ab{c{"), '{'), Some(2));
    assert_eq!(position(&chars("abc"), '{'), None);
}

#[test]
fn slice_of_text() {
    assert_eq!(text(&slice(&chars("hello"), 1, 3)), "el");
    assert_eq!(text(&slice(&chars("hello"), 2, 2)), "");
}

#[test]
fn replace_like_std() {
    let cases = [
        ("digraph g{a -> b}", "digraph", "graph"),
        ("a -> b -> c", "->", "--"),
        ("aaaa", "aa", "b"),
        ("aaa", "aa", "b"),
        ("abc", "abcd", "x"),
        ("", "a", "x"),
        ("[label=\"x\"]", "[label=\"", ""),
        ("ababab", "ab", "ba"),
    ];
    for (s, pat, with) in cases {
        assert_eq!(
            text(&replace(&chars(s), &chars(pat), &chars(with))),
            s.replace(pat, with)
        );
    }
}

#[test]
fn split_like_std() {
    let cases = [
        ("a;b;c", ";"),
        (";a;;b;", ";"),
        ("", ";"),
        ("a -> b -> c", "->"),
        ("->", "->"),
        ("-->->", "->"),
        ("a-", "->"),
        ("aaa", "aa"),
    ];
    for (s, pat) in cases {
        let pieces: Vec<String> = split_on(&chars(s), &chars(pat)).iter().map(text).collect();
        let expected: Vec<String> = s.split(pat).map(String::from).collect();
        assert_eq!(pieces, expected);
    }
}

#[test]
fn trim_like_std() {
    for s in ["  a b \n", "\t\r\n", "", "x", "\u{a0}x\u{3000}", " \u{200b} "] {
        assert_eq!(text(&trimmed(&chars(s))), s.trim());
    }
}

#[test]
fn blank_like_std() {
    for n in 0..0x3100u32 {
        if let Some(c) = char::from_u32(n) {
            assert_eq!(is_blank(c), c.is_whitespace());
        }
    }
}

#[test]
fn decimal_like_std() {
    for n in [0u64, 1, 9, 10, 11, 99, 100, 12345, u64::MAX] {
        assert_eq!(decimal_text(n), n.to_string());
    }
    for x in [0i64, 1, -1, 10, -10, 907, i64::MAX, i64::MIN] {
        assert_eq!(signed_decimal_text(x), x.to_string());
    }
    assert_eq!(decimal_text(4070), "4070");
    assert_eq!(signed_decimal_text(-4070), "-4070");
}

#[test]
fn elements() {
    assert!(5i32.same(&5));
    assert!(!5i32.same(&6));
    assert_eq!((-5i32).duplicate(), -5);
    assert_eq!((-5i32).text(), "-5");
    assert_eq!(5u32.text(), "5");
    assert_eq!(5u64.text(), "5");
    assert_eq!(5usize.text(), "5");
    assert_eq!((-5i64).text(), "-5");
    let s = "node".to_string();
    assert!(s.same(&"node".to_string()));
    assert!(!s.same(&"nod".to_string()));
    assert_eq!(s.duplicate(), "node");
    assert_eq!(s.text(), "node");
}
