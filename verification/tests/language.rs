use regexmatcher::expr::Expr;
use regexmatcher::nfa::NFA;
use regexmatcher::Regex;

/// Whether the tree matches the whole of `s`, by trying every split.
fn matches(expr: &Expr, s: &[u8]) -> bool {
    match expr {
        Expr::Single(c) => s.len() == 1 && s[0] == *c as u8,
        Expr::Class(cs) => s.len() == 1 && cs.iter().any(|c| *c as u8 == s[0]),
        Expr::Any => s.len() == 1 && s[0] != b'\n',
        Expr::Sequence(a, b) => (0..=s.len()).any(|i| matches(a, &s[..i]) && matches(b, &s[i..])),
        Expr::Or(a, b) => matches(a, s) || matches(b, s),
        Expr::Optional(a) => s.is_empty() || matches(a, s),
        Expr::ZeroOrMore(a) => s.is_empty() || at_least_one(a, s),
        Expr::OneOrMore(a) => matches(a, s) || at_least_one(a, s),
    }
}

/// Whether `s` is one piece that is not empty and that the tree matches,
/// followed by any number of pieces that it matches.
fn at_least_one(expr: &Expr, s: &[u8]) -> bool {
    (1..=s.len()).any(|i| {
        matches(expr, &s[..i]) && (i == s.len() || at_least_one(expr, &s[i..]))
    })
}

fn texts(alphabet: &[u8], longest: usize) -> Vec<Vec<u8>> {
    let mut all: Vec<Vec<u8>> = vec![vec![]];
    let mut last: Vec<Vec<u8>> = vec![vec![]];
    for _ in 0..longest {
        let mut next = Vec::new();
        for text in &last {
            for b in alphabet {
                let mut longer = text.clone();
                longer.push(*b);
                next.push(longer);
            }
        }
        all.extend(next.iter().cloned());
        last = next;
    }
    all
}

#[test]
fn search_finds_a_prefix_that_the_tree_matches() {
    let patterns = [
        "a", "ab", "a|b", "a?", "a*", "a+", "(ab)*", "(a|b)*b", "a*a", "(a*)*", "(a?)+b",
        "a.b|c", "[ab]c*", "(a|bc)+", "..+.", "((ab|a)b)+", "a?a?aa", "a*b*c", "(a|b|c)*cab",
        "[]", "[]*a",
    ];
    let all = texts(b"abc", 5);
    for pattern in patterns {
        let tree = Expr::parse(pattern).unwrap();
        let regex = Regex::from(pattern).unwrap();
        for text in &all {
            let text_str = std::str::from_utf8(text).unwrap();
            let found = regex.match_offset(text_str);
            let some_prefix = (0..=text.len()).any(|end| matches(&tree, &text[..end]));
            assert_eq!(some_prefix, found.is_some());
            assert_eq!(some_prefix, regex.is_match(text_str));
            if let Some(end) = found {
                assert!(end <= text.len());
                assert!(matches(&tree, &text[..end]));
            }
        }
    }
}

#[test]
fn first_finds_the_least_start_of_a_match() {
    let patterns = ["b", "ab*", "(a|b)c", "c+", "a?c"];
    let all = texts(b"abc", 4);
    for pattern in patterns {
        let regex = Regex::from(pattern).unwrap();
        for text in &all {
            let text_str = std::str::from_utf8(text).unwrap();
            let expected = (0..=text.len()).find_map(|start| {
                regex
                    .match_offset(&text_str[start..])
                    .map(|end| (start, start + end))
            });
            assert_eq!(expected, regex.first(text_str));
        }
    }
}

#[test]
fn compiled_automata_can_be_run() {
    for pattern in ["a", "(ab)*", "..+.", "((abc|acc)b)+", "[ab]?c|d", "(a*)*"] {
        let tree = Expr::parse(pattern).unwrap();
        assert!(tree.is_ascii());
        assert!(NFA::from_expr(&tree).is_well_formed());
    }
    assert!(!Expr::Single('\u{e9}').is_ascii());
    assert!(!Expr::optional(Expr::Class(vec!['a', '\u{4e2d}'])).is_ascii());
    assert!(Expr::sequence(Expr::Any, Expr::Class(vec![])).is_ascii());
}
