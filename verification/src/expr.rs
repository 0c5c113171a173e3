//! Pattern syntax: the tree a pattern denotes and the parser that builds it.
//!
//! The parser is a single left-to-right pass over the characters of the
//! pattern that keeps two stacks, one of operands (partly built trees) and one
//! of pending operators. What it computes is defined by [`parse_pattern`], a
//! transition function on [`ParserView`] folded over the pattern.

use vstd::prelude::*;

verus! {

/// The mathematical value of an [`Expr`].
pub enum ExprView {
    Single(char),
    Class(Seq<char>),
    Any,
    Sequence(Box<ExprView>, Box<ExprView>),
    Or(Box<ExprView>, Box<ExprView>),
    Optional(Box<ExprView>),
    ZeroOrMore(Box<ExprView>),
    OneOrMore(Box<ExprView>),
}

/// A character that fits in one byte of the encoded text.
pub open spec fn is_ascii_char(c: char) -> bool {
    (c as u32) < 128
}

/// Every character fits in one byte of the encoded text.
pub open spec fn are_ascii(chars: Seq<char>) -> bool {
    forall|i: int| 0 <= i < chars.len() ==> is_ascii_char(#[trigger] chars[i])
}

impl ExprView {
    /// Every literal and every class member is a single-byte character.
    pub open spec fn is_ascii(self) -> bool
        decreases self,
    {
        match self {
            ExprView::Single(c) => is_ascii_char(c),
            ExprView::Class(cs) => are_ascii(cs),
            ExprView::Any => true,
            ExprView::Sequence(a, b) => a.is_ascii() && b.is_ascii(),
            ExprView::Or(a, b) => a.is_ascii() && b.is_ascii(),
            ExprView::Optional(a) => a.is_ascii(),
            ExprView::ZeroOrMore(a) => a.is_ascii(),
            ExprView::OneOrMore(a) => a.is_ascii(),
        }
    }
}

/// Whether every character of `chars` fits in one byte.
fn all_ascii(chars: &Vec<char>) -> (yes: bool)
    ensures
        yes == are_ascii(chars@),
{
    let mut i: usize = 0;
    while i < chars.len()
        invariant
            i <= chars.len(),
            forall|k: int| 0 <= k < i ==> is_ascii_char(#[trigger] chars@[k]),
        decreases chars.len() - i,
    {
        if (chars[i] as u32) >= 128 {
            return false;
        }
        i += 1;
    }
    true
}

/// The syntax tree of a pattern.
#[derive(PartialEq, Debug)]
pub enum Expr {
    /// One literal character.
    Single(char),
    /// Any one of the listed characters.
    Class(Vec<char>),
    /// Any one character but a line feed.
    Any,
    /// The first, then the second.
    Sequence(Box<Expr>, Box<Expr>),
    /// One or the other.
    Or(Box<Expr>, Box<Expr>),
    /// The inner expression, or nothing.
    Optional(Box<Expr>),
    /// The inner expression any number of times.
    ZeroOrMore(Box<Expr>),
    /// The inner expression at least once.
    OneOrMore(Box<Expr>),
}

impl Expr {
    /// The tree as a mathematical value; `@` is shorthand for it.
    pub open spec fn model(&self) -> ExprView
        decreases self,
    {
        match self {
            Expr::Single(c) => ExprView::Single(*c),
            Expr::Class(cs) => ExprView::Class(cs@),
            Expr::Any => ExprView::Any,
            Expr::Sequence(a, b) => ExprView::Sequence(Box::new(a.model()), Box::new(b.model())),
            Expr::Or(a, b) => ExprView::Or(Box::new(a.model()), Box::new(b.model())),
            Expr::Optional(a) => ExprView::Optional(Box::new(a.model())),
            Expr::ZeroOrMore(a) => ExprView::ZeroOrMore(Box::new(a.model())),
            Expr::OneOrMore(a) => ExprView::OneOrMore(Box::new(a.model())),
        }
    }

    /// Whether every literal and every class member of the tree fits in one
    /// byte, as compiling the tree asks.
    pub fn is_ascii(&self) -> (yes: bool)
        ensures
            yes == self@.is_ascii(),
        decreases self,
    {
        match self {
            Expr::Single(c) => (*c as u32) < 128,
            Expr::Class(cs) => all_ascii(cs),
            Expr::Any => true,
            Expr::Sequence(a, b) => a.is_ascii() && b.is_ascii(),
            Expr::Or(a, b) => a.is_ascii() && b.is_ascii(),
            Expr::Optional(a) => a.is_ascii(),
            Expr::ZeroOrMore(a) => a.is_ascii(),
            Expr::OneOrMore(a) => a.is_ascii(),
        }
    }

    /// The sequence of `left` and `right`.
    pub fn sequence(left: Expr, right: Expr) -> (e: Expr)
        ensures
            e@ == ExprView::Sequence(Box::new(left@), Box::new(right@)),
    {
        Expr::Sequence(Box::new(left), Box::new(right))
    }

    /// The alternation of `left` and `right`.
    pub fn or(left: Expr, right: Expr) -> (e: Expr)
        ensures
            e@ == ExprView::Or(Box::new(left@), Box::new(right@)),
    {
        Expr::Or(Box::new(left), Box::new(right))
    }

    /// `item`, or nothing.
    pub fn optional(item: Expr) -> (e: Expr)
        ensures
            e@ == ExprView::Optional(Box::new(item@)),
    {
        Expr::Optional(Box::new(item))
    }

    /// `item`, at least once.
    pub fn one_or_more(item: Expr) -> (e: Expr)
        ensures
            e@ == ExprView::OneOrMore(Box::new(item@)),
    {
        Expr::OneOrMore(Box::new(item))
    }

    /// `item`, any number of times.
    pub fn zero_or_more(item: Expr) -> (e: Expr)
        ensures
            e@ == ExprView::ZeroOrMore(Box::new(item@)),
    {
        Expr::ZeroOrMore(Box::new(item))
    }
}

impl View for Expr {
    type V = ExprView;

    open spec fn view(&self) -> ExprView {
        self.model()
    }
}

/// Why a pattern was rejected.
#[derive(Clone, Copy, PartialEq, Eq, Structural, Debug)]
pub enum ParseError {
    /// A `(` without its `)`, or a `)` without its `(`.
    UnbalancedParens,
    /// A binary or postfix operator that lacks an operand.
    DanglingOperator,
    /// The pattern denotes no expression at all.
    EmptyPattern,
    /// A `[` that is never closed.
    UnterminatedCharClass,
    /// A `]` outside a character class.
    UnexpectedClassClose,
    /// A character that does not fit in one byte.
    NonAsciiCharacter,
}

/// An operator waiting on the operator stack.
#[derive(Clone, Copy, PartialEq, Eq, Structural, Debug)]
pub enum Operator {
    /// An open parenthesis.
    Group,
    /// `|`.
    Alternation,
    /// The concatenation that adjacency implies.
    Concatenation,
}

/// The state of the parser between two characters.
pub struct ParserView {
    /// Partly built trees, the newest last.
    pub operands: Seq<ExprView>,
    /// Pending operators, the newest last.
    pub operators: Seq<Operator>,
    /// Whether the last character read was a literal or `.`.
    pub after_atom: bool,
    /// The members read so far of the class that is open, if one is.
    pub class: Option<Seq<char>>,
}

/// The operands after `operator` has combined the two newest.
pub open spec fn reduce(operator: Operator, operands: Seq<ExprView>) -> Result<
    Seq<ExprView>,
    ParseError,
> {
    let n = operands.len() as int;
    match operator {
        Operator::Group => Err(ParseError::UnbalancedParens),
        _ => if n < 2 {
            Err(ParseError::DanglingOperator)
        } else {
            let left = Box::new(operands[n - 2]);
            let right = Box::new(operands[n - 1]);
            Ok(
                operands.take(n - 2).push(
                    if operator == Operator::Alternation {
                        ExprView::Or(left, right)
                    } else {
                        ExprView::Sequence(left, right)
                    },
                ),
            )
        },
    }
}

/// Whether `c` is one of the postfix operators `?`, `*`, `+`.
pub open spec fn is_postfix(c: char) -> bool {
    c == '?' || c == '*' || c == '+'
}

/// The newest operand wrapped by the postfix operator `c`.
pub open spec fn quantify(c: char, inner: ExprView) -> ExprView {
    if c == '?' {
        ExprView::Optional(Box::new(inner))
    } else if c == '*' {
        ExprView::ZeroOrMore(Box::new(inner))
    } else {
        ExprView::OneOrMore(Box::new(inner))
    }
}

/// Both stacks after every operator above the innermost open parenthesis has
/// been applied, the newest first.
pub open spec fn drain(operands: Seq<ExprView>, operators: Seq<Operator>) -> Result<
    (Seq<ExprView>, Seq<Operator>),
    ParseError,
>
    decreases operators.len(),
{
    if operators.len() == 0 || operators.last() == Operator::Group {
        Ok((operands, operators))
    } else {
        match reduce(operators.last(), operands) {
            Ok(reduced) => drain(reduced, operators.drop_last()),
            Err(e) => Err(e),
        }
    }
}

/// The operator stack once an atom is about to be pushed: adjacency to a
/// preceding atom leaves a pending concatenation.
pub open spec fn join(st: ParserView) -> Seq<Operator> {
    if st.operands.len() > 0 && st.after_atom {
        st.operators.push(Operator::Concatenation)
    } else {
        st.operators
    }
}

/// The parser's state after it has read `c`, or the error that `c` raises.
pub open spec fn step(st: ParserView, c: char) -> Result<ParserView, ParseError> {
    if !is_ascii_char(c) {
        Err(ParseError::NonAsciiCharacter)
    } else if let Some(members) = st.class {
        if c == ']' {
            Ok(ParserView { operands: st.operands.push(ExprView::Class(members)), class: None, ..st })
        } else {
            Ok(ParserView { class: Some(members.push(c)), ..st })
        }
    } else if c == '(' {
        Ok(ParserView { operators: join(st).push(Operator::Group), after_atom: false, ..st })
    } else if c == ')' {
        match drain(st.operands, st.operators) {
            Ok((operands, operators)) => if operators.len() == 0 {
                Err(ParseError::UnbalancedParens)
            } else {
                Ok(ParserView { operands, operators: operators.drop_last(), ..st })
            },
            Err(e) => Err(e),
        }
    } else if c == '[' {
        Ok(ParserView { after_atom: false, class: Some(Seq::empty()), ..st })
    } else if c == ']' {
        Err(ParseError::UnexpectedClassClose)
    } else if c == '|' {
        match drain(st.operands, st.operators) {
            Ok((operands, operators)) => Ok(
                ParserView {
                    operands,
                    operators: operators.push(Operator::Alternation),
                    after_atom: false,
                    ..st
                },
            ),
            Err(e) => Err(e),
        }
    } else if is_postfix(c) {
        if st.operands.len() == 0 {
            Err(ParseError::DanglingOperator)
        } else {
            Ok(
                ParserView {
                    operands: st.operands.drop_last().push(quantify(c, st.operands.last())),
                    after_atom: false,
                    ..st
                },
            )
        }
    } else {
        Ok(
            ParserView {
                operands: st.operands.push(
                    if c == '.' {
                        ExprView::Any
                    } else {
                        ExprView::Single(c)
                    },
                ),
                operators: join(st),
                after_atom: true,
                ..st
            },
        )
    }
}

/// The operands folded into one right-nested sequence.
pub open spec fn fold_sequence(operands: Seq<ExprView>) -> ExprView
    recommends
        operands.len() > 0,
    decreases operands.len(),
{
    if operands.len() <= 1 {
        operands[0]
    } else {
        ExprView::Sequence(Box::new(operands[0]), Box::new(fold_sequence(operands.drop_first())))
    }
}

/// What the parser returns once the pattern is exhausted.
pub open spec fn finish(st: ParserView) -> Result<ExprView, ParseError> {
    if st.class is Some {
        Err(ParseError::UnterminatedCharClass)
    } else {
        match drain(st.operands, st.operators) {
            Ok((operands, operators)) => if operators.len() > 0 {
                Err(ParseError::UnbalancedParens)
            } else if operands.len() == 0 {
                Err(ParseError::EmptyPattern)
            } else {
                Ok(fold_sequence(operands))
            },
            Err(e) => Err(e),
        }
    }
}

/// The result of parsing `input` from state `st`.
pub open spec fn parse_from(st: ParserView, input: Seq<char>) -> Result<ExprView, ParseError>
    decreases input.len(),
{
    if input.len() == 0 {
        finish(st)
    } else {
        match step(st, input[0]) {
            Ok(next) => parse_from(next, input.drop_first()),
            Err(e) => Err(e),
        }
    }
}

/// The state in which the parser starts.
pub open spec fn initial() -> ParserView {
    ParserView { operands: Seq::empty(), operators: Seq::empty(), after_atom: false, class: None }
}

/// The tree that `pattern` denotes, or the reason it denotes none.
pub open spec fn parse_pattern(pattern: Seq<char>) -> Result<ExprView, ParseError> {
    parse_from(initial(), pattern)
}

/// The values of the trees on an operand stack.
pub open spec fn views(operands: Seq<Expr>) -> Seq<ExprView> {
    operands.map_values(|e: Expr| e@)
}

/// Replaces the two newest operands by the node that `operator` makes of them.
fn apply_binary_operator(operands: &mut Vec<Expr>, operator: Operator)
    requires
        operator != Operator::Group,
        old(operands)@.len() >= 2,
    ensures
        reduce(operator, views(old(operands)@)) == Ok::<Seq<ExprView>, ParseError>(
            views(final(operands)@),
        ),
{
    let ghost before = views(operands@);
    let right = operands.pop().unwrap();
    let left = operands.pop().unwrap();
    let node = match operator {
        Operator::Alternation => Expr::or(left, right),
        _ => Expr::sequence(left, right),
    };
    operands.push(node);
    assert(views(operands@) =~= before.take(before.len() - 2).push(node@));
}

/// Applies a pending infix operator to the operand stack.
fn pop_infix_operator(operator: Operator, operands: &mut Vec<Expr>) -> (r: Result<(), ParseError>)
    ensures
        match reduce(operator, views(old(operands)@)) {
            Ok(reduced) => r is Ok && views(final(operands)@) == reduced,
            Err(e) => r == Err::<(), ParseError>(e),
        },
{
    match operator {
        Operator::Group => Err(ParseError::UnbalancedParens),
        _ => {
            if operands.len() < 2 {
                Err(ParseError::DanglingOperator)
            } else {
                apply_binary_operator(operands, operator);
                Ok(())
            }
        },
    }
}

/// Wraps the newest operand in the node of the postfix operator.
fn apply_unary_operator(operands: &mut Vec<Expr>, operator: char)
    requires
        is_postfix(operator),
        old(operands)@.len() >= 1,
    ensures
        views(final(operands)@) == views(old(operands)@).drop_last().push(
            quantify(operator, views(old(operands)@).last()),
        ),
{
    let ghost before = views(operands@);
    let item = operands.pop().unwrap();
    let node = if operator == '?' {
        Expr::optional(item)
    } else if operator == '*' {
        Expr::zero_or_more(item)
    } else {
        Expr::one_or_more(item)
    };
    operands.push(node);
    assert(views(operands@) =~= before.drop_last().push(node@));
}

/// Applies a postfix operator to the newest operand, if there is one.
fn apply_postfix_operator(operator: char, operands: &mut Vec<Expr>) -> (r: Result<(), ParseError>)
    requires
        is_postfix(operator),
    ensures
        old(operands)@.len() == 0 ==> r == Err::<(), ParseError>(ParseError::DanglingOperator),
        old(operands)@.len() > 0 ==> r is Ok && views(final(operands)@) == views(
            old(operands)@,
        ).drop_last().push(quantify(operator, views(old(operands)@).last())),
{
    if operands.len() == 0 {
        Err(ParseError::DanglingOperator)
    } else {
        apply_unary_operator(operands, operator);
        Ok(())
    }
}

/// Applies every operator above the innermost open parenthesis.
fn drain_operators(operands: &mut Vec<Expr>, operators: &mut Vec<Operator>) -> (r: Result<
    (),
    ParseError,
>)
    ensures
        match drain(views(old(operands)@), old(operators)@) {
            Ok((rest, pending)) => r is Ok && views(final(operands)@) == rest && final(operators)@
                == pending,
            Err(e) => r == Err::<(), ParseError>(e),
        },
{
    while operators.len() > 0
        invariant
            drain(views(operands@), operators@) == drain(views(old(operands)@), old(operators)@),
        decreases operators.len(),
    {
        let top = operators[operators.len() - 1];
        if top == Operator::Group {
            return Ok(());
        }
        operators.pop();
        match pop_infix_operator(top, operands) {
            Ok(()) => {},
            Err(e) => {
                return Err(e);
            },
        }
    }
    Ok(())
}

/// `fold_sequence` may start at the end of the stack: joining the two newest
/// operands first does not change the result.
pub proof fn lemma_fold_sequence_last_two(operands: Seq<ExprView>)
    requires
        operands.len() >= 2,
    ensures
        fold_sequence(operands) == fold_sequence(
            operands.take(operands.len() - 2).push(
                ExprView::Sequence(
                    Box::new(operands[operands.len() - 2]),
                    Box::new(operands[operands.len() - 1]),
                ),
            ),
        ),
    decreases operands.len(),
{
    let n = operands.len() as int;
    let node = ExprView::Sequence(Box::new(operands[n - 2]), Box::new(operands[n - 1]));
    let joined = operands.take(n - 2).push(node);
    if n == 2 {
        assert(operands.drop_first().len() == 1);
        assert(fold_sequence(operands.drop_first()) == operands[1]);
        assert(joined.len() == 1);
    } else {
        let rest = operands.drop_first();
        lemma_fold_sequence_last_two(rest);
        assert(joined.drop_first() =~= rest.take(n - 3).push(node));
        assert(joined[0] == operands[0]);
    }
}

/// The two stacks of the parser and what it remembers of the last character.
struct Parser {
    operands: Vec<Expr>,
    operators: Vec<Operator>,
    after_atom: bool,
    in_class: bool,
    class: Vec<char>,
}

impl View for Parser {
    type V = ParserView;

    closed spec fn view(&self) -> ParserView {
        ParserView {
            operands: views(self.operands@),
            operators: self.operators@,
            after_atom: self.after_atom,
            class: if self.in_class {
                Some(self.class@)
            } else {
                None
            },
        }
    }
}

impl Parser {
    /// The parser before it has read anything.
    fn new() -> (p: Parser)
        ensures
            p@ == initial(),
    {
        let p = Parser {
            operands: Vec::new(),
            operators: Vec::new(),
            after_atom: false,
            in_class: false,
            class: Vec::new(),
        };
        assert(views(p.operands@) =~= Seq::empty());
        p
    }

    /// Leaves a concatenation pending if an atom directly follows an atom.
    fn join(&mut self)
        ensures
            final(self)@ == (ParserView { operators: join(old(self)@), ..old(self)@ }),
    {
        if self.operands.len() > 0 && self.after_atom {
            self.operators.push(Operator::Concatenation);
        }
    }

    /// Pushes an atom that was just read.
    fn push_atom(&mut self, atom: Expr)
        ensures
            final(self)@ == (ParserView {
                operands: old(self)@.operands.push(atom@),
                operators: join(old(self)@),
                after_atom: true,
                ..old(self)@
            }),
    {
        self.join();
        self.operands.push(atom);
        self.after_atom = true;
        assert(views(self.operands@) =~= views(old(self).operands@).push(atom@));
    }

    /// Reads one character of the pattern.
    fn step(&mut self, c: char) -> (r: Result<(), ParseError>)
        ensures
            match step(old(self)@, c) {
                Ok(next) => r is Ok && final(self)@ == next,
                Err(e) => r == Err::<(), ParseError>(e),
            },
    {
        if c as u32 >= 128 {
            return Err(ParseError::NonAsciiCharacter);
        }
        if self.in_class {
            if c == ']' {
                let mut members: Vec<char> = Vec::new();
                core::mem::swap(&mut members, &mut self.class);
                let atom = Expr::Class(members);
                self.operands.push(atom);
                self.in_class = false;
                assert(views(self.operands@) =~= views(old(self).operands@).push(atom@));
            } else {
                self.class.push(c);
            }
            Ok(())
        } else if c == '(' {
            self.join();
            self.operators.push(Operator::Group);
            self.after_atom = false;
            Ok(())
        } else if c == ')' {
            match drain_operators(&mut self.operands, &mut self.operators) {
                Ok(()) => {},
                Err(e) => {
                    return Err(e);
                },
            }
            if self.operators.len() == 0 {
                Err(ParseError::UnbalancedParens)
            } else {
                self.operators.pop();
                Ok(())
            }
        } else if c == '[' {
            self.after_atom = false;
            self.in_class = true;
            self.class = Vec::new();
            Ok(())
        } else if c == ']' {
            Err(ParseError::UnexpectedClassClose)
        } else if c == '|' {
            match drain_operators(&mut self.operands, &mut self.operators) {
                Ok(()) => {},
                Err(e) => {
                    return Err(e);
                },
            }
            self.operators.push(Operator::Alternation);
            self.after_atom = false;
            Ok(())
        } else if c == '?' || c == '*' || c == '+' {
            match apply_postfix_operator(c, &mut self.operands) {
                Ok(()) => {},
                Err(e) => {
                    return Err(e);
                },
            }
            self.after_atom = false;
            Ok(())
        } else if c == '.' {
            self.push_atom(Expr::Any);
            Ok(())
        } else {
            self.push_atom(Expr::Single(c));
            Ok(())
        }
    }

    /// Ends the pass: applies what is pending and folds the operands that are
    /// left into one tree.
    fn finish(self) -> (r: Result<Expr, ParseError>)
        ensures
            match finish(self@) {
                Ok(tree) => r matches Ok(e) && e@ == tree,
                Err(err) => r matches Err(e) && e == err,
            },
    {
        let mut operands = self.operands;
        let mut operators = self.operators;
        if self.in_class {
            return Err(ParseError::UnterminatedCharClass);
        }
        match drain_operators(&mut operands, &mut operators) {
            Ok(()) => {},
            Err(e) => {
                return Err(e);
            },
        }
        if operators.len() > 0 {
            return Err(ParseError::UnbalancedParens);
        }
        let ghost drained = views(operands@);
        while operands.len() > 1
            invariant
                operands@.len() > 0 <==> drained.len() > 0,
                fold_sequence(views(operands@)) == fold_sequence(drained),
            decreases operands.len(),
        {
            proof {
                lemma_fold_sequence_last_two(views(operands@));
            }
            apply_binary_operator(&mut operands, Operator::Concatenation);
        }
        match operands.pop() {
            Some(tree) => Ok(tree),
            None => Err(ParseError::EmptyPattern),
        }
    }
}

impl Expr {
    /// Parses a pattern.
    ///
    /// The grammar has literal characters, `.` for any character but a line
    /// feed, `[...]` for one character of a list, the postfix operators `?`,
    /// `*` and `+`, `|` for alternation, and parentheses. Every character of
    /// the pattern must fit in one byte. The result is `parse_pattern` of the
    /// pattern's characters: the tree, or the first error the pass meets.
    pub fn parse(pattern: &str) -> (r: Result<Expr, ParseError>)
        ensures
            match parse_pattern(pattern@) {
                Ok(tree) => r matches Ok(e) && e@ == tree,
                Err(err) => r matches Err(e) && e == err,
            },
            r matches Ok(e) ==> e@.is_ascii(),
    {
        let mut parser = Parser::new();
        assert(pattern@.skip(0) =~= pattern@);
        for c in it: pattern.chars()
            invariant
                it.seq() == pattern@,
                parse_from(parser@, pattern@.skip(it.index())) == parse_pattern(pattern@),
        {
            let ghost rest = pattern@.skip(it.index());
            assert(rest[0] == c);
            assert(rest.drop_first() =~= pattern@.skip(it.index() + 1));
            match parser.step(c) {
                Ok(()) => {},
                Err(e) => {
                    return Err(e);
                },
            }
        }
        proof {
            lemma_parse_is_ascii(pattern@);
        }
        parser.finish()
    }
}

impl core::str::FromStr for Expr {
    type Err = ParseError;

    /// Parses a pattern; see [`Expr::parse`].
    fn from_str(s: &str) -> (r: Result<Expr, ParseError>)
        ensures
            match parse_pattern(s@) {
                Ok(tree) => r matches Ok(e) && e@ == tree,
                Err(err) => r matches Err(e) && e == err,
            },
    {
        Expr::parse(s)
    }
}

/// Every tree on the operand stack, and every member of the open class, is
/// made of single-byte characters.
pub open spec fn parser_is_ascii(st: ParserView) -> bool {
    &&& forall|i: int| 0 <= i < st.operands.len() ==> (#[trigger] st.operands[i]).is_ascii()
    &&& st.class matches Some(members) ==> are_ascii(members)
}

/// Applying operators makes trees of single-byte characters out of such
/// trees.
proof fn lemma_drain_is_ascii(operands: Seq<ExprView>, operators: Seq<Operator>)
    requires
        forall|i: int| 0 <= i < operands.len() ==> (#[trigger] operands[i]).is_ascii(),
    ensures
        drain(operands, operators) matches Ok((rest, _)) ==> forall|i: int|
            0 <= i < rest.len() ==> (#[trigger] rest[i]).is_ascii(),
    decreases operators.len(),
{
    if operators.len() == 0 || operators.last() == Operator::Group {
    } else {
        match reduce(operators.last(), operands) {
            Ok(reduced) => {
                lemma_drain_is_ascii(reduced, operators.drop_last());
            },
            Err(_) => {},
        }
    }
}

/// A character that the parser accepts leaves it with single-byte
/// characters only.
proof fn lemma_step_is_ascii(st: ParserView, c: char)
    requires
        parser_is_ascii(st),
    ensures
        step(st, c) matches Ok(next) ==> parser_is_ascii(next),
{
    if is_ascii_char(c) && st.class is None && (c == ')' || c == '|') {
        lemma_drain_is_ascii(st.operands, st.operators);
    }
}

/// A sequence of trees of single-byte characters is such a tree.
proof fn lemma_fold_sequence_is_ascii(operands: Seq<ExprView>)
    requires
        operands.len() > 0,
        forall|i: int| 0 <= i < operands.len() ==> (#[trigger] operands[i]).is_ascii(),
    ensures
        fold_sequence(operands).is_ascii(),
    decreases operands.len(),
{
    if operands.len() > 1 {
        lemma_fold_sequence_is_ascii(operands.drop_first());
    }
}

/// Whatever the parser goes on to read, the tree that it returns holds
/// single-byte characters only.
proof fn lemma_parse_from_is_ascii(st: ParserView, input: Seq<char>)
    requires
        parser_is_ascii(st),
    ensures
        parse_from(st, input) matches Ok(tree) ==> tree.is_ascii(),
    decreases input.len(),
{
    if input.len() == 0 {
        lemma_drain_is_ascii(st.operands, st.operators);
        if let Ok((operands, operators)) = drain(st.operands, st.operators) {
            if operands.len() > 0 {
                lemma_fold_sequence_is_ascii(operands);
            }
        }
    } else {
        lemma_step_is_ascii(st, input[0]);
        if let Ok(next) = step(st, input[0]) {
            lemma_parse_from_is_ascii(next, input.drop_first());
        }
    }
}

/// A tree that the parser returns holds single-byte characters only.
pub proof fn lemma_parse_is_ascii(pattern: Seq<char>)
    ensures
        parse_pattern(pattern) matches Ok(tree) ==> tree.is_ascii(),
{
    lemma_parse_from_is_ascii(initial(), pattern);
}

} // verus!
