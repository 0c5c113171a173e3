//! Reading a pattern as a list of tokens with their multiplicities.

use crate::token::{
    expression_views, Expression, ExpressionView, Multiplicity, Token, TokenView,
};
use vstd::prelude::*;

verus! {

/// Why a pattern has no list of tokens.
pub enum TokenizeError {
    /// A `?`, `+` or `*` stands at the start of the pattern.
    NoToken,
    /// A `?`, `+` or `*` follows what is not a token.
    InvalidToken,
    /// A `]` stands outside a character class.
    MissingClassStart,
    /// A `[` is never closed.
    IncompleteClass,
}

impl TokenizeError {
    /// The words in which the error is reported.
    pub open spec fn message(self) -> Seq<char> {
        match self {
            TokenizeError::NoToken => "no token before metacharacter"@,
            TokenizeError::InvalidToken => "invalid token before metacharacter"@,
            TokenizeError::MissingClassStart => "missing char class start `[`"@,
            TokenizeError::IncompleteClass => "incomplete char class, expected `]`"@,
        }
    }
}

/// What has been read of a pattern.
pub struct TokenizerView {
    /// The expressions read so far.
    pub expressions: Seq<ExpressionView>,
    /// The members read so far of the class that is open, if one is.
    pub class: Option<Seq<char>>,
}

/// The multiplicity that the metacharacter `c` gives to the token before it.
pub open spec fn multiplicity_of(c: char) -> Option<Multiplicity> {
    if c == '?' {
        Some(Multiplicity { minimum: 0, maximum: Some(1) })
    } else if c == '+' {
        Some(Multiplicity { minimum: 1, maximum: None })
    } else if c == '*' {
        Some(Multiplicity { minimum: 0, maximum: None })
    } else {
        None
    }
}

/// The expressions with the multiplicity of the last replaced.
pub open spec fn requantify(expressions: Seq<ExpressionView>, multiplicity: Multiplicity) -> Result<
    Seq<ExpressionView>,
    TokenizeError,
> {
    if expressions.len() == 0 {
        Err(TokenizeError::NoToken)
    } else {
        match expressions.last() {
            ExpressionView::Token(token, _) => Ok(
                expressions.drop_last().push(ExpressionView::Token(token, multiplicity)),
            ),
            _ => Err(TokenizeError::InvalidToken),
        }
    }
}

/// A token that stands once.
pub open spec fn once(token: TokenView) -> ExpressionView {
    ExpressionView::Token(token, Multiplicity { minimum: 1, maximum: Some(1) })
}

/// What has been read once `c` is read, or the error that `c` raises.
///
/// Inside a class every character but `]` is a member. Outside, `?`, `+`
/// and `*` set the multiplicity of the token before them, `.` is the token
/// for any character, `[` opens a class, and any other character is a
/// literal.
pub open spec fn read(st: TokenizerView, c: char) -> Result<TokenizerView, TokenizeError> {
    if st.class is Some && c != ']' {
        Ok(TokenizerView { class: Some(st.class->0.push(c)), ..st })
    } else if let Some(multiplicity) = multiplicity_of(c) {
        match requantify(st.expressions, multiplicity) {
            Ok(expressions) => Ok(TokenizerView { expressions, ..st }),
            Err(e) => Err(e),
        }
    } else if c == '.' {
        Ok(TokenizerView { expressions: st.expressions.push(once(TokenView::Any)), ..st })
    } else if c == '[' {
        Ok(TokenizerView { class: Some(Seq::empty()), ..st })
    } else if c == ']' {
        match st.class {
            Some(members) => Ok(
                TokenizerView {
                    expressions: st.expressions.push(once(TokenView::Class(members))),
                    class: None,
                },
            ),
            None => Err(TokenizeError::MissingClassStart),
        }
    } else {
        Ok(TokenizerView { expressions: st.expressions.push(once(TokenView::Literal(c))), ..st })
    }
}

/// The expressions of `input` read after `st`.
pub open spec fn tokenize_from(st: TokenizerView, input: Seq<char>) -> Result<
    Seq<ExpressionView>,
    TokenizeError,
>
    decreases input.len(),
{
    if input.len() == 0 {
        if st.class is Some {
            Err(TokenizeError::IncompleteClass)
        } else {
            Ok(st.expressions)
        }
    } else {
        match read(st, input[0]) {
            Ok(next) => tokenize_from(next, input.drop_first()),
            Err(e) => Err(e),
        }
    }
}

/// The expressions that a pattern lists, or the first error in it.
pub open spec fn tokenize(pattern: Seq<char>) -> Result<Seq<ExpressionView>, TokenizeError> {
    tokenize_from(TokenizerView { expressions: Seq::empty(), class: None }, pattern)
}

/// The result of a step, with the error in words.
pub open spec fn reported<T>(result: Result<T, TokenizeError>, message: Seq<char>) -> bool {
    result matches Err(e) && message == e.message()
}

/// The values of a list with one more expression.
proof fn lemma_views_of_push(expressions: Seq<Expression>, last: Expression)
    ensures
        expression_views(expressions.push(last)) == expression_views(expressions).push(last@),
{
    assert(expression_views(expressions.push(last)) =~= expression_views(expressions).push(last@));
}

/// Sets the multiplicity of the last expression, which must be a token.
fn update_last_with_multiplicity(
    expressions: &mut Vec<Expression>,
    multiplicity: Multiplicity,
) -> (r: Result<(), &'static str>)
    ensures
        match r {
            Ok(()) => requantify(expression_views(old(expressions)@), multiplicity) == Ok::<
                Seq<ExpressionView>,
                TokenizeError,
            >(expression_views(final(expressions)@)),
            Err(message) => reported(
                requantify(expression_views(old(expressions)@), multiplicity),
                message@,
            ),
        },
{
    let ghost before = expression_views(expressions@);
    match expressions.pop() {
        Some(value) => {
            assert(value@ == before.last());
            match value {
                Expression::Token(token, _) => {
                    let replaced = Expression::Token(token, multiplicity);
                    expressions.push(replaced);
                    assert(expression_views(expressions@) =~= before.drop_last().push(replaced@));
                },
                _ => {
                    return Err("invalid token before metacharacter");
                },
            }
        },
        None => {
            return Err("no token before metacharacter");
        },
    }
    Ok(())
}

/// Reads a pattern as a list of tokens with their multiplicities.
///
/// The result is `tokenize` of the pattern's characters: the list, or the
/// first error in words.
pub fn parse_expressions(text: &str) -> (r: Result<Vec<Expression>, &'static str>)
    ensures
        match r {
            Ok(expressions) => tokenize(text@) == Ok::<Seq<ExpressionView>, TokenizeError>(
                expression_views(expressions@),
            ),
            Err(message) => reported(tokenize(text@), message@),
        },
{
    let mut result: Vec<Expression> = Vec::new();
    let mut in_char_class = false;
    let mut chars_in_class: Vec<char> = Vec::new();
    let ghost mut st = TokenizerView { expressions: Seq::empty(), class: None };
    assert(text@.skip(0) =~= text@);
    assert(expression_views(result@) =~= st.expressions);
    for c in it: text.chars()
        invariant
            it.seq() == text@,
            st.expressions == expression_views(result@),
            st.class == if in_char_class {
                Some(chars_in_class@)
            } else {
                None
            },
            tokenize_from(st, text@.skip(it.index())) == tokenize(text@),
    {
        let ghost rest = text@.skip(it.index());
        let ghost before = st;
        assert(rest[0] == c);
        assert(rest.drop_first() =~= text@.skip(it.index() + 1));
        if in_char_class && c != ']' {
            chars_in_class.push(c);
        } else if c == '?' {
            match update_last_with_multiplicity(&mut result, Multiplicity::optional()) {
                Ok(()) => {},
                Err(e) => {
                    return Err(e);
                },
            }
        } else if c == '+' {
            match update_last_with_multiplicity(&mut result, Multiplicity::one_or_more()) {
                Ok(()) => {},
                Err(e) => {
                    return Err(e);
                },
            }
        } else if c == '*' {
            match update_last_with_multiplicity(&mut result, Multiplicity::zero_or_more()) {
                Ok(()) => {},
                Err(e) => {
                    return Err(e);
                },
            }
        } else if c == '.' {
            let any = Expression::Token(Token::Any, Multiplicity::one());
            proof {
                lemma_views_of_push(result@, any);
            }
            result.push(any);
        } else if c == '[' {
            in_char_class = true;
            chars_in_class = Vec::new();
        } else if c == ']' {
            if !in_char_class {
                return Err("missing char class start `[`");
            }
            in_char_class = false;
            let mut members: Vec<char> = Vec::new();
            core::mem::swap(&mut members, &mut chars_in_class);
            let class = Expression::Token(Token::Class(members), Multiplicity::one());
            proof {
                lemma_views_of_push(result@, class);
            }
            result.push(class);
        } else {
            let literal = Expression::Token(Token::Literal(c), Multiplicity::one());
            assert(literal@ == once(TokenView::Literal(c)));
            proof {
                lemma_views_of_push(result@, literal);
            }
            result.push(literal);
        }
        proof {
            st = read(before, c)->Ok_0;
        }
    }
    if in_char_class {
        return Err("incomplete char class, expected `]`");
    }
    Ok(result)
}

/// Reads a pattern as a list of tokens; another name for
/// [`parse_expressions`].
pub fn tokenize_regex(text: &str) -> (r: Result<Vec<Expression>, &'static str>)
    ensures
        match r {
            Ok(expressions) => tokenize(text@) == Ok::<Seq<ExpressionView>, TokenizeError>(
                expression_views(expressions@),
            ),
            Err(message) => reported(tokenize(text@), message@),
        },
{
    parse_expressions(text)
}

} // verus!
