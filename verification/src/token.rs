//! A flat reading of a pattern: a list of tokens, each with the number of
//! times it may repeat. There is no grouping and no alternation here; an
//! expression stands for a run of characters at the start of a text.

use vstd::prelude::*;
use vstd::string::StrSliceExecFns;

verus! {

/// The mathematical value of a [`Token`].
pub enum TokenView {
    Literal(char),
    Class(Seq<char>),
    Any,
}

/// What one character of the text is held against.
#[derive(PartialEq, Debug)]
pub enum Token {
    /// This character.
    Literal(char),
    /// One of these characters.
    Class(Vec<char>),
    /// Any character but a line feed.
    Any,
}

impl View for Token {
    type V = TokenView;

    open spec fn view(&self) -> TokenView {
        match self {
            Token::Literal(c) => TokenView::Literal(*c),
            Token::Class(cs) => TokenView::Class(cs@),
            Token::Any => TokenView::Any,
        }
    }
}

/// How often a token may repeat: at least `minimum` times, and at most
/// `maximum` times if there is a maximum.
#[derive(Clone, Copy, PartialEq, Eq, Structural, Debug)]
pub struct Multiplicity {
    pub minimum: usize,
    pub maximum: Option<usize>,
}

impl Multiplicity {
    /// Exactly once.
    pub fn one() -> (m: Multiplicity)
        ensures
            m == (Multiplicity { minimum: 1, maximum: Some(1) }),
    {
        Self::new(1, Some(1))
    }

    /// Once or not at all, as `?` asks.
    pub fn optional() -> (m: Multiplicity)
        ensures
            m == (Multiplicity { minimum: 0, maximum: Some(1) }),
    {
        Self::new(0, Some(1))
    }

    /// Once or more, as `+` asks.
    pub fn one_or_more() -> (m: Multiplicity)
        ensures
            m == (Multiplicity { minimum: 1, maximum: None }),
    {
        Self::new(1, None)
    }

    /// Any number of times, as `*` asks.
    pub fn zero_or_more() -> (m: Multiplicity)
        ensures
            m == (Multiplicity { minimum: 0, maximum: None }),
    {
        Self::new(0, None)
    }

    /// At least `min` times and, if `max` is given, at most `max` times.
    pub fn new(min: usize, max: Option<usize>) -> (m: Multiplicity)
        ensures
            m == (Multiplicity { minimum: min, maximum: max }),
    {
        Multiplicity { minimum: min, maximum: max }
    }
}

/// The mathematical value of an [`Expression`].
pub enum ExpressionView {
    BeginPosition,
    EndPosition,
    Token(TokenView, Multiplicity),
}

/// A token with its multiplicity, or a position in the text.
#[derive(PartialEq, Debug)]
pub enum Expression {
    /// The start of the text.
    BeginPosition,
    /// The end of the text.
    EndPosition,
    /// A token that repeats.
    Token(Token, Multiplicity),
}

impl View for Expression {
    type V = ExpressionView;

    open spec fn view(&self) -> ExpressionView {
        match self {
            Expression::BeginPosition => ExpressionView::BeginPosition,
            Expression::EndPosition => ExpressionView::EndPosition,
            Expression::Token(token, multiplicity) => ExpressionView::Token(token@, *multiplicity),
        }
    }
}

/// The values of a vector of expressions.
pub open spec fn expression_views(expressions: Seq<Expression>) -> Seq<ExpressionView> {
    expressions.map_values(|e: Expression| e@)
}

impl TokenView {
    /// Whether the token lets `c` pass.
    pub open spec fn admits(self, c: char) -> bool {
        match self {
            TokenView::Literal(l) => c == l,
            TokenView::Class(cs) => cs.contains(c),
            TokenView::Any => c != '\n',
        }
    }
}

impl ExpressionView {
    /// Whether the expression lets `c` pass; a position lets nothing pass.
    pub open spec fn admits(self, c: char) -> bool {
        match self {
            ExpressionView::Token(token, _) => token.admits(c),
            _ => false,
        }
    }

    /// How often the expression may repeat; a position counts as once.
    pub open spec fn multiplicity(self) -> Multiplicity {
        match self {
            ExpressionView::Token(_, multiplicity) => multiplicity,
            _ => Multiplicity { minimum: 1, maximum: Some(1) },
        }
    }

    /// The number of characters at the start of `text` that the expression
    /// lets pass one after the other.
    pub open spec fn span(self, text: Seq<char>) -> int
        decreases text.len(),
    {
        if text.len() == 0 || !self.admits(text[0]) {
            0
        } else {
            1 + self.span(text.drop_first())
        }
    }

    /// The least number of characters that a repetition takes, zero aside.
    pub open spec fn least(self) -> int {
        if self.multiplicity().minimum == 0 {
            1
        } else {
            self.multiplicity().minimum as int
        }
    }

    /// The greatest number of characters that a repetition takes if `run`
    /// characters pass.
    pub open spec fn greatest(self, run: int) -> int {
        match self.multiplicity().maximum {
            Some(max) => if max < run {
                max as int
            } else {
                run
            },
            None => run,
        }
    }

    /// The numbers of characters that a repetition may take if `run`
    /// characters pass, in rising order: zero if the expression may be left
    /// out, and every number from the minimum to the maximum that is at most
    /// `run`.
    pub open spec fn offsets_within(self, run: int) -> Seq<int> {
        let zero = if self.multiplicity().minimum == 0 {
            seq![0int]
        } else {
            seq![]
        };
        zero + self.range_within(run)
    }

    /// The numbers from the least to the greatest that a repetition takes if
    /// `run` characters pass.
    pub open spec fn range_within(self, run: int) -> Seq<int> {
        let lo = self.least();
        let hi = self.greatest(run);
        Seq::new(
            if hi >= lo {
                (hi - lo + 1) as nat
            } else {
                0
            },
            |i: int| lo + i,
        )
    }

    /// The numbers of characters that the expression may take at the start
    /// of `text`, in rising order.
    pub open spec fn valid_offsets(self, text: Seq<char>) -> Seq<int> {
        self.offsets_within(self.span(text))
    }
}

/// If the first `k` characters pass and the next does not, the span is `k`.
proof fn lemma_span(e: ExpressionView, text: Seq<char>, k: int)
    requires
        0 <= k <= text.len(),
        forall|i: int| 0 <= i < k ==> e.admits(#[trigger] text[i]),
        k == text.len() || !e.admits(text[k]),
    ensures
        e.span(text) == k,
    decreases text.len(),
{
    if k > 0 {
        let rest = text.drop_first();
        assert forall|i: int| 0 <= i < k - 1 implies e.admits(#[trigger] rest[i]) by {
            assert(rest[i] == text[i + 1]);
        }
        lemma_span(e, rest, k - 1);
    }
}

/// Whether `c` is among `chars`.
fn contains_char(chars: &Vec<char>, c: char) -> (yes: bool)
    ensures
        yes == chars@.contains(c),
{
    let mut i: usize = 0;
    while i < chars.len()
        invariant
            i <= chars.len(),
            forall|k: int| 0 <= k < i ==> chars[k] != c,
        decreases chars.len() - i,
    {
        if chars[i] == c {
            return true;
        }
        i += 1;
    }
    false
}

impl Token {
    /// Whether the token lets `c` pass.
    pub fn admits(&self, c: char) -> (yes: bool)
        ensures
            yes == self@.admits(c),
    {
        match self {
            Token::Literal(l) => *l == c,
            Token::Class(cs) => contains_char(cs, c),
            Token::Any => c != '\n',
        }
    }
}

/// The offsets as mathematical integers.
pub open spec fn offset_views(offsets: Seq<usize>) -> Seq<int> {
    offsets.map_values(|k: usize| k as int)
}

impl Expression {
    /// Whether the expression lets `c` pass.
    fn admits(&self, c: char) -> (yes: bool)
        ensures
            yes == self@.admits(c),
    {
        match self {
            Expression::Token(token, _) => token.admits(c),
            _ => false,
        }
    }

    /// How often the expression may repeat.
    fn multiplicity(&self) -> (m: Multiplicity)
        ensures
            m == self@.multiplicity(),
    {
        match self {
            Expression::Token(_, multiplicity) => *multiplicity,
            _ => Multiplicity::one(),
        }
    }

    /// The numbers of characters that the expression may take at the start
    /// of `text`, in rising order, so that the last is the most it can take.
    pub fn valid_offsets(&self, text: &str) -> (offsets: Vec<usize>)
        ensures
            offset_views(offsets@) == self@.valid_offsets(text@),
    {
        let multiplicity = self.multiplicity();
        let mut offsets: Vec<usize> = Vec::new();
        if multiplicity.minimum == 0 {
            offsets.push(0);
        }
        let mut offset: usize = 0;
        let mut stopped = false;
        let ghost e = self@;
        let length = text.unicode_len();
        assert(offset_views(offsets@) =~= e.offsets_within(0));
        for c in it: text.chars()
            invariant
                it.seq() == text@,
                length == text@.len(),
                e == self@,
                multiplicity == e.multiplicity(),
                offset <= it.index(),
                !stopped ==> offset == it.index(),
                stopped ==> offset < text@.len() && !e.admits(text@[offset as int]),
                forall|i: int| 0 <= i < offset ==> e.admits(#[trigger] text@[i]),
                offset_views(offsets@) == e.offsets_within(offset as int),
                offsets@.len() <= offset + 1,
        {
            if !stopped {
                if !self.admits(c) {
                    stopped = true;
                } else {
                    let ghost taken = offset_views(offsets@);
                    offset += 1;
                    let in_range = offset >= multiplicity.minimum && match multiplicity.maximum {
                        Some(max) => offset <= max,
                        None => true,
                    };
                    if in_range {
                        offsets.push(offset);
                        assert(offset_views(offsets@) =~= taken.push(offset as int));
                        assert(e.range_within(offset as int) =~= e.range_within(offset - 1).push(
                            offset as int,
                        ));
                    } else {
                        assert(e.range_within(offset as int) =~= e.range_within(offset - 1));
                    }
                    assert(offset_views(offsets@) =~= e.offsets_within(offset as int));
                }
            }
        }
        proof {
            lemma_span(e, text@, offset as int);
        }
        offsets
    }
}

} // verus!
