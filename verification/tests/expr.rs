use regexmatcher::expr::{Expr, ParseError};

#[test]
fn parse_single() {
    assert_eq!(Expr::Single('a'), "a".parse::<Expr>().unwrap());
}

#[test]
fn parse_empty() {
    assert!("".parse::<Expr>().is_err());
}

#[test]
fn parse_sequence() {
    assert_eq!(
        Expr::sequence(Expr::Single('a'), Expr::Single('b')),
        "ab".parse::<Expr>().unwrap()
    );

    assert_eq!(
        Expr::sequence(Expr::Single('a'), Expr::Single('b')),
        "(a)b".parse::<Expr>().unwrap()
    );

    assert_eq!(
        Expr::sequence(
            Expr::or(Expr::Single('a'), Expr::Single('b')),
            Expr::Single('b')
        ),
        "(a|b)b".parse::<Expr>().unwrap()
    );

    assert_eq!(
        Expr::sequence(Expr::Single('a'), Expr::Single('b')),
        "((a)b)".parse::<Expr>().unwrap()
    );
}

#[test]
fn parse_nested_sequence() {
    assert_eq!(
        Expr::sequence(
            Expr::Single('a'),
            Expr::sequence(Expr::Single('b'), Expr::Single('c'))
        ),
        "abc".parse::<Expr>().unwrap()
    );
}

#[test]
fn parse_or() {
    assert_eq!(
        Expr::or(Expr::Single('a'), Expr::Single('b')),
        "a|b".parse::<Expr>().unwrap()
    );

    assert_eq!(
        Expr::or(
            Expr::sequence(Expr::Single('a'), Expr::Single('b')),
            Expr::sequence(Expr::Single('c'), Expr::Single('d'))
        ),
        "ab|cd".parse::<Expr>().unwrap()
    );
}

#[test]
fn parse_optional() {
    assert_eq!(
        Expr::optional(Expr::Single('a')),
        "a?".parse::<Expr>().unwrap()
    );
}

#[test]
fn parse_kleene_star() {
    assert_eq!(
        Expr::zero_or_more(Expr::Single('a')),
        "a*".parse::<Expr>().unwrap()
    );
    assert_eq!(
        Expr::sequence(Expr::Single('a'), Expr::zero_or_more(Expr::Single('b'))),
        "ab*".parse::<Expr>().unwrap()
    );
}

#[test]
fn parse_kleene_plus() {
    assert_eq!(
        Expr::OneOrMore(Box::new(Expr::Single('a'))),
        "a+".parse::<Expr>().unwrap()
    );
}

#[test]
fn parse_combination() {
    assert_eq!(
        Expr::sequence(
            Expr::Single('a'),
            Expr::sequence(
                Expr::OneOrMore(Box::new(Expr::Single('b'))),
                Expr::Single('c')
            )
        ),
        "ab+c".parse::<Expr>().unwrap()
    );
}

#[test]
fn parse_parens() {
    assert_eq!(
        Expr::OneOrMore(Box::new(Expr::sequence(
            Expr::Single('a'),
            Expr::Single('b')
        ))),
        "(ab)+".parse::<Expr>().unwrap()
    );

    assert_eq!(
        Expr::sequence(
            Expr::OneOrMore(Box::new(Expr::sequence(
                Expr::Single('a'),
                Expr::Single('b')
            ))),
            Expr::Single('c')
        ),
        "(ab)+c".parse::<Expr>().unwrap()
    );

    assert_eq!(Expr::Single('a'), "(a)".parse::<Expr>().unwrap());

    assert_eq!(Expr::Single('a'), "()a".parse::<Expr>().unwrap());

    assert_eq!(Expr::Single('a'), "((a))".parse::<Expr>().unwrap());
}

#[test]
fn parse_parens_with_or() {
    assert_eq!(
        Expr::Or(Box::new(Expr::Single('a')), Box::new(Expr::Single('b'))),
        "(a|b)".parse::<Expr>().unwrap()
    );
}

#[test]
fn parse_dot() {
    assert_eq!(Expr::Any, ".".parse::<Expr>().unwrap());
}

#[test]
fn parse_parens_with_kleene_star() {
    "(ab)*".parse::<Expr>().unwrap();
}

#[test]
fn parse_complex() {
    assert_eq!(
        Expr::one_or_more(Expr::sequence(Expr::Single('a'), Expr::Single('b'))),
        "((a)b)+".parse::<Expr>().unwrap()
    );

    assert_eq!(
        Expr::one_or_more(Expr::sequence(
            Expr::or(Expr::Single('a'), Expr::Single('b')),
            Expr::Single('b')
        )),
        "((a|b)b)+".parse::<Expr>().unwrap()
    );
}

#[test]
fn parse_reports_empty_pattern() {
    assert_eq!(Err(ParseError::EmptyPattern), Expr::parse(""));
    assert_eq!(Err(ParseError::EmptyPattern), Expr::parse("()"));
    assert_eq!(Err(ParseError::EmptyPattern), Expr::parse("(())"));
}

#[test]
fn parse_reports_unbalanced_parens() {
    assert_eq!(Err(ParseError::UnbalancedParens), Expr::parse("("));
    assert_eq!(Err(ParseError::UnbalancedParens), Expr::parse(")"));
    assert_eq!(Err(ParseError::UnbalancedParens), Expr::parse("(a"));
    assert_eq!(Err(ParseError::UnbalancedParens), Expr::parse("a)"));
    assert_eq!(Err(ParseError::UnbalancedParens), Expr::parse("(a))"));
    assert_eq!(Err(ParseError::UnbalancedParens), Expr::parse("((a)"));
}

#[test]
fn parse_reports_dangling_operator() {
    assert_eq!(Err(ParseError::DanglingOperator), Expr::parse("?"));
    assert_eq!(Err(ParseError::DanglingOperator), Expr::parse("*"));
    assert_eq!(Err(ParseError::DanglingOperator), Expr::parse("+a"));
    assert_eq!(Err(ParseError::DanglingOperator), Expr::parse("|"));
    assert_eq!(Err(ParseError::DanglingOperator), Expr::parse("a|"));
    assert_eq!(Err(ParseError::DanglingOperator), Expr::parse("|a"));
    assert_eq!(Err(ParseError::DanglingOperator), Expr::parse("(|a)"));
    assert_eq!(Err(ParseError::DanglingOperator), Expr::parse("a()"));
}

#[test]
fn parse_reports_character_class_errors() {
    assert_eq!(Err(ParseError::UnterminatedCharClass), Expr::parse("["));
    assert_eq!(Err(ParseError::UnterminatedCharClass), Expr::parse("a[bc"));
    assert_eq!(Err(ParseError::UnterminatedCharClass), Expr::parse("([a)"));
    assert_eq!(Err(ParseError::UnexpectedClassClose), Expr::parse("]"));
    assert_eq!(Err(ParseError::UnexpectedClassClose), Expr::parse("[a]]"));
}

#[test]
fn parse_reports_the_first_error() {
    assert_eq!(Err(ParseError::UnexpectedClassClose), Expr::parse("]("));
    assert_eq!(Err(ParseError::UnbalancedParens), Expr::parse(")]"));
    assert_eq!(Err(ParseError::DanglingOperator), Expr::parse("*)"));
    assert_eq!(Err(ParseError::UnterminatedCharClass), Expr::parse("([ab"));
}

#[test]
fn parse_rejects_characters_of_more_than_one_byte() {
    assert_eq!(Err(ParseError::NonAsciiCharacter), Expr::parse("\u{e9}"));
    assert_eq!(Err(ParseError::NonAsciiCharacter), Expr::parse("a[\u{e9}]"));
    assert_eq!(Err(ParseError::NonAsciiCharacter), Expr::parse("ab\u{4e2d}|"));
    assert_eq!(Ok(Expr::Single('\u{7f}')), Expr::parse("\u{7f}"));
}

#[test]
fn parse_character_class() {
    assert_eq!(Ok(Expr::Class(vec!['x', 'y', 'z'])), Expr::parse("[xyz]"));
    assert_eq!(Ok(Expr::Class(vec![])), Expr::parse("[]"));
    assert_eq!(Ok(Expr::Class(vec!['(', '|', '*', '.', '['])), Expr::parse("[(|*.[]"));
    assert_eq!(
        Ok(Expr::sequence(Expr::Single('a'), Expr::Class(vec!['b']))),
        Expr::parse("a[b]")
    );
    assert_eq!(
        Ok(Expr::sequence(Expr::Class(vec!['a']), Expr::Single('b'))),
        Expr::parse("[a]b")
    );
    assert_eq!(
        Ok(Expr::zero_or_more(Expr::Class(vec!['a', 'b']))),
        Expr::parse("[ab]*")
    );
}

#[test]
fn parse_applies_pending_operators_before_folding() {
    assert_eq!(
        Ok(Expr::sequence(
            Expr::one_or_more(Expr::Single('a')),
            Expr::or(Expr::Single('b'), Expr::Single('c'))
        )),
        Expr::parse("a+b|c")
    );
    assert_eq!(
        Ok(Expr::sequence(
            Expr::Single('a'),
            Expr::or(
                Expr::sequence(Expr::zero_or_more(Expr::Single('b')), Expr::Single('c')),
                Expr::Single('d')
            )
        )),
        Expr::parse("ab*c|d")
    );
    assert_eq!(
        Ok(Expr::or(
            Expr::or(Expr::Single('a'), Expr::Single('b')),
            Expr::Single('c')
        )),
        Expr::parse("a|b|c")
    );
    assert_eq!(
        Ok(Expr::sequence(Expr::Single('a'), Expr::Single('b'))),
        Expr::parse("a()b")
    );
    assert_eq!(
        Ok(Expr::sequence(Expr::Any, Expr::sequence(Expr::Any, Expr::Any))),
        Expr::parse("...")
    );
}

#[test]
fn builders_make_the_nodes_they_name() {
    assert_eq!(
        Expr::Sequence(Box::new(Expr::Any), Box::new(Expr::Single('a'))),
        Expr::sequence(Expr::Any, Expr::Single('a'))
    );
    assert_eq!(
        Expr::Or(Box::new(Expr::Any), Box::new(Expr::Single('a'))),
        Expr::or(Expr::Any, Expr::Single('a'))
    );
    assert_eq!(Expr::Optional(Box::new(Expr::Any)), Expr::optional(Expr::Any));
    assert_eq!(Expr::OneOrMore(Box::new(Expr::Any)), Expr::one_or_more(Expr::Any));
    assert_eq!(Expr::ZeroOrMore(Box::new(Expr::Any)), Expr::zero_or_more(Expr::Any));
}

#[test]
fn postfix_operator_wraps_the_newest_operand() {
    // inside the group no operator is pending, so `*` finds `b` on top
    assert_eq!(
        Ok(Expr::sequence(
            Expr::optional(Expr::Single('a')),
            Expr::zero_or_more(Expr::Single('b'))
        )),
        Expr::parse("(a?b)*")
    );
    assert_eq!(
        Ok(Expr::zero_or_more(Expr::sequence(
            Expr::Single('a'),
            Expr::optional(Expr::Single('b'))
        ))),
        Expr::parse("(ab?)*")
    );
    assert_eq!(
        Ok(Expr::optional(Expr::optional(Expr::Single('a')))),
        Expr::parse("a??")
    );
}
