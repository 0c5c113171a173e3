use regexmatcher::expr::ParseError;
use regexmatcher::Regex;

#[test]
fn only_matches_at_start_of_text() {
    assert!(!Regex::from("ab?c").unwrap().is_match("zac"));
    assert!(!Regex::from("ab?c").unwrap().is_match("abbbc"));
}

#[test]
fn spec_matches_simple_examples() {
    assert!(Regex::from("a?").unwrap().is_match(""));
    assert!(Regex::from("a+").unwrap().is_match("a"));
    assert!(Regex::from("ab+").unwrap().is_match("abbbb"));
}

#[test]
fn spec_does_not_match() {
    assert!(!Regex::from("ab?c").unwrap().is_match("z"));
    assert!(!Regex::from("a+").unwrap().is_match(""));
    assert!(!Regex::from("ab+").unwrap().is_match("bbbb"));
}

#[test]
fn matches_with_kleene_star() {
    let regex = Regex::from("ab*c*d").unwrap();
    assert!(regex.is_match("abbbbcd"));
    assert!(regex.is_match("acd"));
    assert!(regex.is_match("ad"));
    assert!(regex.is_match("acccd"));

    assert!(!regex.is_match("bbbcccd"));
    assert!(!regex.is_match("abbbccc"));
}

#[test]
fn spec_matches_character_class() {
    let regex = Regex::from("[abc]").unwrap();
    assert!(regex.is_match("a"));
    assert!(regex.is_match("b"));
    assert!(regex.is_match("c"));
    assert!(!regex.is_match("["));
    assert!(!regex.is_match("]"));
    assert!(!regex.is_match("z"));
}

#[test]
fn spec_backtracks_to_find_match() {
    let regex = Regex::from(".?c").unwrap();
    assert!(regex.is_match("cb"));
    assert!(regex.is_match("cc"));
    assert!(regex.is_match("c"));
    assert!(!regex.is_match("b"));
}

#[test]
fn finds_match_position() {
    assert_eq!(None, Regex::from("a.b").unwrap().match_offset("aaab"));
    assert_eq!(Some(3), Regex::from("a.a").unwrap().match_offset("aaab"));
}

#[test]
fn spec_matches_zero_or_more() {
    let regex = Regex::from("ab*").unwrap();
    assert!(regex.is_match("abbbb"));
    assert!(regex.is_match("ab"));
    assert!(regex.is_match("a"));
    assert!(!regex.is_match("bb"));

    let regex = Regex::from("ab*c").unwrap();
    assert!(!regex.is_match("ababc"));
    assert!(!regex.is_match("aabc"));
}

#[test]
fn matches_zero_or_more_subexpr() {
    let r = Regex::from("(ab)*").unwrap();
    assert_eq!(Some(0), r.match_offset(""));
    assert_eq!(Some(2), r.match_offset("ab"));
    assert_eq!(Some(4), r.match_offset("abab"));
    assert_eq!(Some(8), r.match_offset("abababab"));

    let r = Regex::from("(ab|bc)*").unwrap();
    assert_eq!(Some(0), r.match_offset(""));
    assert_eq!(Some(2), r.match_offset("ab"));
    assert_eq!(Some(2), r.match_offset("bc"));
    assert_eq!(Some(4), r.match_offset("abab"));
    assert_eq!(Some(6), r.match_offset("abbcab"));
}

#[test]
fn matches_or() {
    let r = Regex::from("(a|bc)").unwrap();
    assert_eq!(Some(2), r.match_offset("bc"));
    assert_eq!(Some(1), r.match_offset("a"));
    assert_eq!(None, r.match_offset("c"));
    assert_eq!(None, r.match_offset(""));
}

#[test]
fn spec_optional_metachar_is_greedy() {
    assert_eq!(Some(1), Regex::from(".?").unwrap().match_offset("a"));
}

#[test]
fn spec_one_or_more_metachar_is_greedy() {
    assert_eq!(Some(6), Regex::from(".+").unwrap().match_offset("aaaaaa"));
}

#[test]
fn spec_zero_or_more_metachar_is_greedy() {
    assert_eq!(Some(6), Regex::from(".*").unwrap().match_offset("aaaaaa"));
}

#[test]
fn spec_dot_matches_any_one_character() {
    let regex = Regex::from(".").unwrap();
    assert!(regex.is_match("a"));
    assert!(regex.is_match("b"));
    assert!(regex.is_match("5"));
    assert!(regex.is_match("*"));
    assert!(!regex.is_match(""));

    assert!(Regex::from(".*").unwrap().is_match("ab5*"));
}

#[test]
fn spec_dot_does_not_match_newline() {
    let regex = Regex::from(".").unwrap();
    assert!(!regex.is_match("\n"));
}

#[test]
fn spec_char_class_matches() {
    let regex = Regex::from("[abc]").unwrap();
    assert!(regex.is_match("a"));
    assert!(regex.is_match("b"));
    assert!(regex.is_match("c"));
    assert!(!regex.is_match("d"));

    let regex = Regex::from("([ab]d)+").unwrap();
    assert!(!regex.is_match(""));
    assert!(!regex.is_match("aad"));
    assert!(regex.is_match("adad"));
    assert!(regex.is_match("adbd"));
}

#[test]
fn creates_new() {
    assert!(Regex::from("a").is_ok());
}

#[test]
fn creates_empty() {
    assert!(Regex::from("").is_err());
}

#[test]
fn returns_err_on_invalid_regex() {
    assert!(Regex::from("[").is_err());
}

#[test]
fn matches_optionally() {
    assert!(Regex::from("a?").unwrap().is_match("b"));
}

#[test]
fn complex_examples() {
    let r = Regex::from("..+.").unwrap();
    assert_eq!(Some(3), r.match_offset("abc"));
    assert_eq!(Some(5), r.match_offset("ababc"));
    assert_eq!(None, r.match_offset("ac"));

    let r = Regex::from("((abc|acc)b)+").unwrap();
    assert_eq!(Some(4), r.match_offset("abcb"));
    assert_eq!(Some(4), r.match_offset("accb"));
    assert_eq!(None, r.match_offset("zzzb"));
    assert_eq!(Some(8), r.match_offset("abcbaccb"));
}

#[test]
fn regex_does_not_match() {
    assert!(!Regex::from("ab?c").unwrap().is_match("z"));
    assert!(!Regex::from("a+").unwrap().is_match(""));
    assert!(!Regex::from("ab+").unwrap().is_match("bbbb"));
}

#[test]
fn regex_matches_character_class() {
    let regex = Regex::from("[abc]").unwrap();
    assert!(regex.is_match("a"));
    assert!(regex.is_match("b"));
    assert!(regex.is_match("c"));
    assert!(!regex.is_match("["));
    assert!(!regex.is_match("]"));
    assert!(!regex.is_match("z"));
}

#[test]
fn finds_correct_match() {
    let regex = Regex::from("[bc]?c").unwrap();
    assert_eq!(Some((0, 1)), regex.first("cb"));
    assert_eq!(Some((0, 2)), regex.first("cc"));
    assert_eq!(Some((0, 1)), regex.first("c"));
}

#[test]
fn regex_matches_zero_or_more() {
    let regex = Regex::from("ab*").unwrap();
    assert!(regex.is_match("abbbb"));
    assert!(regex.is_match("ab"));
    assert!(regex.is_match("a"));
    assert!(!regex.is_match("bb"));
}

#[test]
fn finds_correct_match_position() {
    let regex = Regex::from("a").unwrap();
    assert_eq!(Some((0, 1)), regex.first("a"));
    assert_eq!(Some((3, 4)), regex.first("bbba"));
    assert_eq!(Some((0, 4)), Regex::from("aaaa").unwrap().first("aaaa"));
}

#[test]
fn finds_first_occurrence() {
    assert_eq!(Some((1, 2)), Regex::from("z").unwrap().first("azzzzzzz"));
    assert_eq!(Some((2, 5)), Regex::from("abc").unwrap().first("zxabcabc"));
    assert_eq!(
        Some((0, 5)),
        Regex::from("[zx]+abc").unwrap().first("zxabczxabc")
    );
}

#[test]
fn regex_optional_metachar_is_greedy() {
    assert_eq!(Some((0, 1)), Regex::from("a?").unwrap().first("aa"));
}

#[test]
fn regex_one_or_more_metachar_is_greedy() {
    assert_eq!(Some((0, 2)), Regex::from("a+").unwrap().first("aa"));
}

#[test]
fn regex_zero_or_more_metachar_is_greedy() {
    assert_eq!(Some((0, 2)), Regex::from("a*").unwrap().first("aa"));
}

#[test]
fn regex_dot_matches_any_one_character() {
    assert_eq!(Some((0, 1)), Regex::from(".").unwrap().first("abc"));
}

#[test]
fn regex_dot_does_not_match_newline() {
    assert_eq!(None, Regex::from(".").unwrap().first("\n"));
    let regex = Regex::from(".*").unwrap();
    assert_eq!(Some((0, 0)), regex.first("\n\n"));

    assert_eq!(None, Regex::from(".+").unwrap().first("\n\n"));
}

#[test]
fn dot_matches_with_multiplicity() {
    assert_eq!(
        Some((0, 10)),
        Regex::from(".*").unwrap().first("some stuff\nmore stuff")
    );
    assert_eq!(
        Some((3, 8)),
        Regex::from(".+").unwrap().first("\n\n\nstuff")
    );
}

#[test]
fn greedy_quantifiers_take_what_they_can() {
    assert_eq!(Some(4), Regex::from("a*").unwrap().match_offset("aaaa"));
    assert_eq!(Some(2), Regex::from("a?a").unwrap().match_offset("aa"));
    assert_eq!(None, Regex::from("a+").unwrap().match_offset(""));
    assert_eq!(Some(1), Regex::from("a?a").unwrap().match_offset("a"));
    assert_eq!(Some(3), Regex::from("a+b").unwrap().match_offset("aabaab"));
}

#[test]
fn dot_matches_any_byte_but_a_line_feed() {
    let regex = Regex::from(".").unwrap();
    assert_eq!(Some(1), regex.match_offset("\r\n"));
    assert_eq!(Some(1), regex.match_offset("\u{0}"));
    assert_eq!(None, regex.match_offset("\n"));
    assert_eq!(None, regex.match_offset(""));
    // offsets count bytes: the first byte of a longer character matches
    assert_eq!(Some(1), regex.match_offset("\u{e9}"));
    assert_eq!(Some(2), Regex::from("..").unwrap().match_offset("\u{e9}"));
}

#[test]
fn alternation_and_grouping() {
    let r = Regex::from("(a|bc)").unwrap();
    assert_eq!(Some(1), r.match_offset("a"));
    assert_eq!(Some(2), r.match_offset("bc"));
    assert_eq!(None, r.match_offset("c"));
}

#[test]
fn nullable_pattern_matches_the_empty_text() {
    assert_eq!(Some(0), Regex::from("a?").unwrap().match_offset(""));
    assert_eq!(Some(0), Regex::from("a*").unwrap().match_offset(""));
    assert_eq!(Some(0), Regex::from("(a*)*").unwrap().match_offset(""));
    assert_eq!(Some((0, 0)), Regex::from("a?").unwrap().first(""));
    assert_eq!(None, Regex::from("a").unwrap().first(""));
}

#[test]
fn repetition_of_what_may_be_empty_ends() {
    assert_eq!(Some(3), Regex::from("(a*)*").unwrap().match_offset("aaab"));
    assert_eq!(Some(3), Regex::from("(a?)+").unwrap().match_offset("aaab"));
    assert_eq!(Some(0), Regex::from("(a?b*)*").unwrap().match_offset("c"));
    assert_eq!(Some(4), Regex::from("(a*|b)*").unwrap().match_offset("abba"));
    assert_eq!(Some(4), Regex::from("(a|b?)*c?").unwrap().match_offset("abacd"));
}

#[test]
fn empty_class_matches_nothing() {
    let regex = Regex::from("[]").unwrap();
    assert_eq!(None, regex.match_offset("a"));
    assert_eq!(None, regex.match_offset(""));
    assert_eq!(Some(0), Regex::from("[]?").unwrap().match_offset("a"));
    assert_eq!(Some(1), Regex::from("[]*a").unwrap().match_offset("a"));
}

#[test]
fn from_reports_the_parse_error() {
    assert_eq!(Err(ParseError::EmptyPattern), Regex::from(""));
    assert_eq!(Err(ParseError::UnbalancedParens), Regex::from("(a"));
    assert_eq!(Err(ParseError::DanglingOperator), Regex::from("*a"));
    assert_eq!(Err(ParseError::UnterminatedCharClass), Regex::from("[a"));
    assert_eq!(Err(ParseError::UnexpectedClassClose), Regex::from("a]"));
    assert_eq!(Err(ParseError::NonAsciiCharacter), Regex::from("\u{e9}"));
}

#[test]
fn from_twice_gives_equal_regexes() {
    assert_eq!(Regex::from("(ab|c)*d?").unwrap(), Regex::from("(ab|c)*d?").unwrap());
    assert_ne!(Regex::from("ab").unwrap(), Regex::from("ba").unwrap());
}

#[test]
fn first_finds_the_least_start() {
    let regex = Regex::from("b+").unwrap();
    assert_eq!(Some((2, 4)), regex.first("aabbabbb"));
    assert_eq!(None, regex.first("aaa"));
    assert_eq!(Some((3, 3)), Regex::from("b*c?").unwrap().first("").map(|(s, e)| (s + 3, e + 3)));
    assert_eq!(Some((0, 0)), Regex::from("b*").unwrap().first("aab"));
}

#[test]
fn many_optionals_do_not_blow_up() {
    let n = 40;
    let text = "a".repeat(n);
    let pattern = format!("{}{}", "a?".repeat(n), text);
    let regex = Regex::from(&pattern).unwrap();
    assert!(regex.is_match(&text));
    assert!(!regex.is_match(&text[1..]));
}

#[test]
fn repetition_of_a_literal_takes_the_whole_run() {
    let star = Regex::from("a*").unwrap();
    let plus = Regex::from("a+").unwrap();
    let optional = Regex::from("a?").unwrap();
    for text in ["", "a", "aaa", "aaab", "baaa", "ab", "aaaaaaaaaa", "\naa"] {
        let run = text.bytes().take_while(|b| *b == b'a').count();
        assert_eq!(Some(run), star.match_offset(text));
        assert_eq!(if run > 0 { Some(run) } else { None }, plus.match_offset(text));
        assert_eq!(Some(run.min(1)), optional.match_offset(text));
    }
}

#[test]
fn literal_pattern_matches_the_texts_that_start_with_it() {
    let regex = Regex::from("ab,c").unwrap();
    assert_eq!(Some(4), regex.match_offset("ab,c"));
    assert_eq!(Some(4), regex.match_offset("ab,cab,c"));
    assert_eq!(None, regex.match_offset("ab,"));
    assert_eq!(None, regex.match_offset("xab,c"));
    assert_eq!(None, regex.match_offset(""));
    assert_eq!(Some((1, 5)), regex.first("xab,c"));
}
