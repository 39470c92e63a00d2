use shell::order::{lex_less, sorted_unique};
use shell::text::{
    chars_eq, chars_of, is_whitespace, lines, push_decimal, split_whitespace, string_of, text_eq,
    trim, trim_chars,
};

#[test]
fn whitespace_matches_std_everywhere() {
    for u in 0u32..0x11_0000 {
        if let Some(c) = char::from_u32(u) {
            assert_eq!(is_whitespace(c), c.is_whitespace(), "U+{:04X}", u);
        }
    }
}

#[test]
fn chars_and_strings_round_trip() {
    let s = "héllo wörld ✓";
    let cs = chars_of(s);
    assert_eq!(cs, s.chars().collect::<Vec<char>>());
    assert_eq!(string_of(&cs), s);
}

#[test]
fn equality_of_text() {
    assert!(text_eq("abc", "abc"));
    assert!(!text_eq("abc", "abd"));
    assert!(!text_eq("abc", "ab"));
    assert!(text_eq("", ""));
    assert!(chars_eq(&vec!['a'], &vec!['a']));
    assert!(!chars_eq(&vec!['a'], &vec!['a', 'b']));
}

#[test]
fn trim_matches_std() {
    for s in ["", "   ", "  a b  ", "\t\nx\u{3000}", "abc", " \u{85}y\u{a0} "] {
        assert_eq!(trim(s), s.trim());
        assert_eq!(trim_chars(&chars_of(s)), s.trim().chars().collect::<Vec<char>>());
    }
}

#[test]
fn split_whitespace_matches_std() {
    for s in ["", "  ", "a", " a  b\tc\n", "x\u{2003}y", "one two  "] {
        let expected: Vec<String> = s.split_whitespace().map(|w| w.to_string()).collect();
        assert_eq!(split_whitespace(s), expected);
    }
}

#[test]
fn lines_match_std() {
    for s in ["", "a", "a\n", "a\nb", "a\r\nb\r\n", "\n\n", "a\r", "a\rb\n", "x\n\r\n"] {
        let expected: Vec<String> = s.lines().map(|l| l.to_string()).collect();
        assert_eq!(lines(s), expected, "{:?}", s);
    }
}

#[test]
fn decimal_numerals() {
    for n in [0u64, 7, 10, 42, 1000, 65535, u64::MAX] {
        let mut s = String::from("#");
        push_decimal(&mut s, n);
        assert_eq!(s, format!("#{}", n));
    }
}

#[test]
fn lexicographic_order_matches_string_order() {
    let samples = ["", "a", "ab", "b", "B", "é", "z", "aa", "ß", "✓"];
    for a in samples {
        for b in samples {
            assert_eq!(lex_less(&chars_of(a), &chars_of(b)), a < b, "{:?} {:?}", a, b);
        }
    }
}

#[test]
fn sorted_unique_matches_sort_dedup() {
    let input: Vec<String> = ["ls", "cat", "ls", "awk", "cat", "zsh", "Bash"]
        .iter()
        .map(|s| s.to_string())
        .collect();
    let mut expected = input.clone();
    expected.sort();
    expected.dedup();
    assert_eq!(sorted_unique(input), expected);
    assert_eq!(sorted_unique(Vec::new()), Vec::<String>::new());
}

#[test]
fn trim_twice_is_trim_once() {
    for s in ["  a  ", "\u{2028}x y\t", "", "q"] {
        let once = trim(s);
        assert_eq!(trim(&once), once);
    }
}

#[test]
fn sorted_unique_depends_only_on_elements() {
    let a: Vec<String> = ["b", "a", "c", "a"].iter().map(|s| s.to_string()).collect();
    let b: Vec<String> = ["c", "c", "b", "a"].iter().map(|s| s.to_string()).collect();
    assert_eq!(sorted_unique(a), sorted_unique(b));
}
