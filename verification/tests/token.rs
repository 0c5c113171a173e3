use regexmatcher::token::{Expression, Multiplicity, Token};
use regexmatcher::tokenize::{parse_expressions, tokenize_regex};

#[test]
fn token_parses_single_literal() {
    assert_eq!(
        vec![Expression::Token(Token::Literal('a'), Multiplicity::one())],
        parse_expressions("a").unwrap()
    )
}

#[test]
fn token_parses_many_literals() {
    assert_eq!(6, parse_expressions("abcxyz").unwrap().len());
}

#[test]
fn token_handles_optional_multiplicity() {
    assert_eq!(
        vec![Expression::Token(
            Token::Literal('a'),
            Multiplicity::optional()
        )],
        parse_expressions("a?").unwrap()
    );

    assert!(parse_expressions("?").is_err());
    assert!(parse_expressions("??").is_err());
}

#[test]
fn token_handles_one_or_more_multiplicity() {
    assert_eq!(
        vec![Expression::Token(
            Token::Literal('a'),
            Multiplicity::one_or_more()
        )],
        parse_expressions("a+").unwrap()
    );

    assert!(parse_expressions("+").is_err());
    assert!(parse_expressions("++").is_err());
}

#[test]
fn token_handles_zero_or_more_multiplicity() {
    assert_eq!(
        vec![Expression::Token(
            Token::Literal('a'),
            Multiplicity::zero_or_more()
        )],
        parse_expressions("a*").unwrap()
    );
}

#[test]
fn token_handles_character_class() {
    assert_eq!(
        vec![Expression::Token(
            Token::Class(vec!['x', 'y', 'z']),
            Multiplicity::one()
        )],
        parse_expressions("[xyz]").unwrap()
    );

    assert!(parse_expressions("]").is_err());
    assert!(parse_expressions("[").is_err());
    assert!(parse_expressions("[]").is_ok());
}

#[test]
fn tokenize_parses_single_literal() {
    assert_eq!(
        vec![Expression::Token(Token::Literal('a'), Multiplicity::one())],
        parse_expressions("a").unwrap()
    )
}

#[test]
fn tokenize_parses_many_literals() {
    assert_eq!(6, parse_expressions("abcxyz").unwrap().len());
}

#[test]
fn tokenize_handles_optional_multiplicity() {
    assert_eq!(
        vec![Expression::Token(
            Token::Literal('a'),
            Multiplicity::optional()
        )],
        parse_expressions("a?").unwrap()
    );

    assert!(parse_expressions("?").is_err());
    assert!(parse_expressions("??").is_err());
}

#[test]
fn tokenize_handles_one_or_more_multiplicity() {
    assert_eq!(
        vec![Expression::Token(
            Token::Literal('a'),
            Multiplicity::one_or_more()
        )],
        parse_expressions("a+").unwrap()
    );

    assert!(parse_expressions("+").is_err());
    assert!(parse_expressions("++").is_err());
}

#[test]
fn tokenize_handles_zero_or_more_multiplicity() {
    assert_eq!(
        vec![Expression::Token(
            Token::Literal('a'),
            Multiplicity::zero_or_more()
        )],
        parse_expressions("a*").unwrap()
    );
}

#[test]
fn tokenize_handles_character_class() {
    assert_eq!(
        vec![Expression::Token(
            Token::Class(vec!['x', 'y', 'z']),
            Multiplicity::one()
        )],
        parse_expressions("[xyz]").unwrap()
    );

    assert!(parse_expressions("]").is_err());
    assert!(parse_expressions("[").is_err());
    assert!(parse_expressions("[]").is_ok());
}

#[test]
fn tokenize_handles_dot() {
    assert_eq!(
        vec![Expression::Token(Token::Any, Multiplicity::one())],
        parse_expressions(".").unwrap()
    );
}

#[test]
fn spec_parses_single_literal() {
    assert_eq!(
        vec![Expression::Token(Token::Literal('a'), Multiplicity::one())],
        tokenize_regex("a").unwrap()
    )
}

#[test]
fn spec_parses_many_literals() {
    assert_eq!(6, tokenize_regex("abcxyz").unwrap().len());
}

#[test]
fn spec_handles_optional_multiplicity() {
    assert_eq!(
        vec![Expression::Token(
            Token::Literal('a'),
            Multiplicity::optional()
        )],
        tokenize_regex("a?").unwrap()
    );

    assert!(tokenize_regex("?").is_err());
    assert!(tokenize_regex("??").is_err());
}

#[test]
fn spec_handles_one_or_more_multiplicity() {
    assert_eq!(
        vec![Expression::Token(
            Token::Literal('a'),
            Multiplicity::one_or_more()
        )],
        tokenize_regex("a+").unwrap()
    );

    assert!(tokenize_regex("+").is_err());
    assert!(tokenize_regex("++").is_err());
}

#[test]
fn spec_handles_zero_or_more_multiplicity() {
    assert_eq!(
        vec![Expression::Token(
            Token::Literal('a'),
            Multiplicity::zero_or_more()
        )],
        tokenize_regex("a*").unwrap()
    );
}

#[test]
fn spec_handles_character_class() {
    assert_eq!(
        vec![Expression::Token(
            Token::Class(vec!['x', 'y', 'z']),
            Multiplicity::one()
        )],
        tokenize_regex("[xyz]").unwrap()
    );

    assert!(tokenize_regex("]").is_err());
    assert!(tokenize_regex("[").is_err());
    assert!(tokenize_regex("[]").is_ok());
}

#[test]
fn spec_handles_dot() {
    assert_eq!(
        vec![Expression::Token(Token::Any, Multiplicity::one())],
        tokenize_regex(".").unwrap()
    );
}

#[test]
fn tokenizer_reports_each_error_in_words() {
    assert_eq!(Err("no token before metacharacter"), parse_expressions("*a"));
    assert_eq!(Err("missing char class start `[`"), parse_expressions("ab]"));
    assert_eq!(
        Err("incomplete char class, expected `]`"),
        parse_expressions("a[bc")
    );
    assert_eq!(Err("no token before metacharacter"), parse_expressions("?]"));
    assert_eq!(Err("missing char class start `[`"), parse_expressions("]["));
}

#[test]
fn tokenizer_lists_tokens_in_order() {
    assert_eq!(
        Ok(vec![
            Expression::Token(Token::Literal('a'), Multiplicity::one()),
            Expression::Token(Token::Class(vec!['b', '[', '?', '.']), Multiplicity::zero_or_more()),
            Expression::Token(Token::Any, Multiplicity::one_or_more()),
            Expression::Token(Token::Literal('('), Multiplicity::optional()),
            Expression::Token(Token::Literal('\u{e9}'), Multiplicity::one()),
        ]),
        parse_expressions("a[b[?.]*.+(?\u{e9}")
    );
    assert_eq!(Ok(vec![]), parse_expressions(""));
    // the last metacharacter wins
    assert_eq!(
        Ok(vec![Expression::Token(
            Token::Literal('a'),
            Multiplicity::one_or_more()
        )]),
        parse_expressions("a?*+")
    );
}

#[test]
fn multiplicities_hold_their_bounds() {
    assert_eq!(Multiplicity { minimum: 1, maximum: Some(1) }, Multiplicity::one());
    assert_eq!(Multiplicity { minimum: 0, maximum: Some(1) }, Multiplicity::optional());
    assert_eq!(Multiplicity { minimum: 1, maximum: None }, Multiplicity::one_or_more());
    assert_eq!(Multiplicity { minimum: 0, maximum: None }, Multiplicity::zero_or_more());
    assert_eq!(Multiplicity { minimum: 2, maximum: Some(5) }, Multiplicity::new(2, Some(5)));
}

#[test]
fn valid_offsets_rise_to_the_most_that_can_be_taken() {
    let a = |m: Multiplicity| Expression::Token(Token::Literal('a'), m);
    assert_eq!(vec![1], a(Multiplicity::one()).valid_offsets("aaab"));
    assert_eq!(vec![0, 1], a(Multiplicity::optional()).valid_offsets("aaab"));
    assert_eq!(vec![1, 2, 3], a(Multiplicity::one_or_more()).valid_offsets("aaab"));
    assert_eq!(vec![0, 1, 2, 3], a(Multiplicity::zero_or_more()).valid_offsets("aaab"));
    assert_eq!(vec![2, 3], a(Multiplicity::new(2, Some(5))).valid_offsets("aaab"));
    assert_eq!(vec![2], a(Multiplicity::new(2, Some(2))).valid_offsets("aaab"));
    assert_eq!(Vec::<usize>::new(), a(Multiplicity::new(4, None)).valid_offsets("aaab"));
    assert_eq!(Vec::<usize>::new(), a(Multiplicity::new(3, Some(2))).valid_offsets("aaab"));
    assert_eq!(vec![0], a(Multiplicity::new(0, Some(0))).valid_offsets("aaab"));
    assert_eq!(Vec::<usize>::new(), a(Multiplicity::one()).valid_offsets("baaa"));
    assert_eq!(vec![0], a(Multiplicity::zero_or_more()).valid_offsets(""));
    assert_eq!(Vec::<usize>::new(), a(Multiplicity::one_or_more()).valid_offsets(""));
}

#[test]
fn valid_offsets_count_characters() {
    let class = Expression::Token(Token::Class(vec!['x', '\u{e9}']), Multiplicity::one_or_more());
    assert_eq!(vec![1, 2, 3], class.valid_offsets("\u{e9}x\u{e9}y"));
    let empty = Expression::Token(Token::Class(vec![]), Multiplicity::zero_or_more());
    assert_eq!(vec![0], empty.valid_offsets("abc"));
    let dot = Expression::Token(Token::Any, Multiplicity::zero_or_more());
    assert_eq!(vec![0, 1, 2], dot.valid_offsets("ab\ncd"));
    assert_eq!(vec![0], dot.valid_offsets("\n"));
}

#[test]
fn positions_take_no_character() {
    assert_eq!(Vec::<usize>::new(), Expression::BeginPosition.valid_offsets("abc"));
    assert_eq!(Vec::<usize>::new(), Expression::EndPosition.valid_offsets(""));
}

#[test]
fn tokens_admit_their_characters() {
    assert!(Token::Literal('a').admits('a'));
    assert!(!Token::Literal('a').admits('b'));
    assert!(Token::Class(vec!['a', 'b']).admits('b'));
    assert!(!Token::Class(vec!['a', 'b']).admits('c'));
    assert!(Token::Any.admits('x'));
    assert!(!Token::Any.admits('\n'));
}
