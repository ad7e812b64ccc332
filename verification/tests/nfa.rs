use huffman::nfa::Regex;

#[test]
fn char_literal_test() {
    let re = Regex::CharLiteral('\u{e9}');
    let fa = re.make_fa();
    let mut s = String::new();
    for len in 0..100 {
        assert!(fa.accepts(&s) == (len == 1));
        s.push('\u{e9}');
    }
    for c in &['a', ' ', '\u{2603}'] {
        s.clear();
        for _ in 0..100 {
            assert!(!fa.accepts(&s));
            s.push(*c);
        }
    }
}

#[test]
fn dot_test() {
    let re = Regex::Dot;
    let fa = re.make_fa();
    for c in &['a', ' ', '\u{e9}'] {
        let mut s = String::new();
        for len in 0..100 {
            assert!(fa.accepts(&s) == (len == 1));
            s.push(*c);
        }
    }
}

#[test]
fn empty_test() {
    let re = Regex::Empty;
    let fa = re.make_fa();
    assert!(fa.accepts(""));
    for &c in &['a', ' ', '\u{e9}'] {
        let mut s = String::new();
        for _ in 1..100 {
            s.push(c);
            assert!(!fa.accepts(&s));
        }
    }
}

#[test]
fn empty() {
    let re = Regex::StrLiteral(String::new());
    let fa = re.make_fa();
    assert!(fa.accepts(""));
    for c in &['a', ' ', '\u{e9}'] {
        let mut s = String::new();
        for _ in 0..100 {
            s.push(*c);
            assert!(!fa.accepts(&s));
        }
    }
}

#[test]
fn nonempty() {
    let re = Regex::StrLiteral("abc".to_string());
    let fa = re.make_fa();
    assert!(!fa.accepts(""));
    assert!(!fa.accepts("a"));
    assert!(!fa.accepts("ab"));
    assert!(fa.accepts("abc"));
    assert!(!fa.accepts("bbc"));
    assert!(!fa.accepts("adc"));
    assert!(!fa.accepts("abb"));
}

#[test]
fn test_star_and_union() {
    let re = Regex::Union(vec![
        Regex::Star(Box::new(Regex::CharLiteral('a'))),
        Regex::StrLiteral("bc".to_string()),
    ]);
    let fa = re.make_fa();
    assert!(fa.accepts(""));
    assert!(fa.accepts("a"));
    assert!(fa.accepts("aaaa"));
    assert!(fa.accepts("bc"));
    assert!(!fa.accepts("b"));
    assert!(!fa.accepts("ab"));
    assert!(!fa.accepts("aab"));
}

#[test]
fn test_concat_optional_oneplus() {
    let re = Regex::Concat(vec![
        Regex::Optional(Box::new(Regex::CharLiteral('x'))),
        Regex::OnePlus(Box::new(Regex::CharLiteral('y'))),
    ]);
    let fa = re.make_fa();
    assert!(fa.accepts("y"));
    assert!(fa.accepts("yyy"));
    assert!(fa.accepts("xy"));
    assert!(fa.accepts("xyy"));
    assert!(!fa.accepts(""));
    assert!(!fa.accepts("x"));
    assert!(!fa.accepts("xxy"));
    assert!(!fa.accepts("yx"));
}
