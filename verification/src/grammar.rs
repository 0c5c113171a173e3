//! Laws of the pattern grammar: what the parser makes of patterns of a
//! given shape.

use crate::expr::{
    drain, finish, fold_sequence, initial, is_ascii_char, is_postfix, join, parse_from,
    parse_pattern, reduce, step, ExprView, Operator, ParseError, ParserView,
};
use vstd::prelude::*;

verus! {

/// A character that stands for itself or, if it is `.`, for any character:
/// one that fits in a byte and is no bracket, no parenthesis and no operator.
pub open spec fn is_atom(c: char) -> bool {
    &&& is_ascii_char(c)
    &&& c != '(' && c != ')' && c != '[' && c != ']' && c != '|'
    &&& !is_postfix(c)
}

/// The tree of one atom.
pub open spec fn atom(c: char) -> ExprView {
    if c == '.' {
        ExprView::Any
    } else {
        ExprView::Single(c)
    }
}

/// The trees of a row of atoms.
pub open spec fn atoms(chars: Seq<char>) -> Seq<ExprView> {
    chars.map_values(|c: char| atom(c))
}

/// As many pending concatenations as `count`.
pub open spec fn concatenations(count: nat) -> Seq<Operator> {
    Seq::new(count, |i: int| Operator::Concatenation)
}

/// Pending concatenations, as many as there are operands but one, join the
/// operands into one right-nested sequence.
proof fn lemma_drain_concatenations(operands: Seq<ExprView>, count: nat)
    requires
        operands.len() > count,
    ensures
        drain(operands, concatenations(count)) == Ok::<
            (Seq<ExprView>, Seq<Operator>),
            ParseError,
        >(
            (
                operands.take(operands.len() - count - 1).push(
                    fold_sequence(operands.skip(operands.len() - count - 1)),
                ),
                Seq::empty(),
            ),
        ),
    decreases count,
{
    let n = operands.len() as int;
    let pending = concatenations(count);
    if count == 0 {
        assert(operands.skip(n - 1).len() == 1);
        assert(operands.take(n - 1).push(operands.skip(n - 1)[0]) =~= operands);
        assert(pending =~= Seq::empty());
    } else {
        let joined = reduce(Operator::Concatenation, operands)->Ok_0;
        assert(pending.last() == Operator::Concatenation);
        assert(pending.drop_last() =~= concatenations((count - 1) as nat));
        lemma_drain_concatenations(joined, (count - 1) as nat);
        let tail = operands.skip(n - count - 1);
        crate::expr::lemma_fold_sequence_last_two(tail);
        let m = tail.len() as int;
        assert(joined.skip(joined.len() - count) =~= tail.take(m - 2).push(
            ExprView::Sequence(Box::new(tail[m - 2]), Box::new(tail[m - 1])),
        ));
        assert(joined.take(joined.len() - count) =~= operands.take(n - count - 1));
    }
}

/// The state of the parser after a row of atoms.
pub open spec fn after_atoms(chars: Seq<char>) -> ParserView {
    ParserView {
        operands: atoms(chars),
        operators: if chars.len() == 0 {
            Seq::empty()
        } else {
            concatenations((chars.len() - 1) as nat)
        },
        after_atom: chars.len() > 0,
        class: None,
    }
}

/// After `k` atoms of a pattern of atoms, the rest of the pattern leads to
/// the sequence of all of them.
proof fn lemma_atoms_from(chars: Seq<char>, k: int)
    requires
        0 <= k <= chars.len(),
        chars.len() > 0,
        forall|i: int| 0 <= i < chars.len() ==> is_atom(#[trigger] chars[i]),
    ensures
        parse_from(after_atoms(chars.take(k)), chars.skip(k)) == Ok::<ExprView, ParseError>(
            fold_sequence(atoms(chars)),
        ),
    decreases chars.len() - k,
{
    let st = after_atoms(chars.take(k));
    if k == chars.len() {
        assert(chars.take(k) =~= chars);
        assert(chars.skip(k).len() == 0);
        lemma_drain_concatenations(atoms(chars), (chars.len() - 1) as nat);
        let all = atoms(chars);
        assert(all.skip(0) =~= all);
        assert(all.take(0).push(fold_sequence(all)) =~= seq![fold_sequence(all)]);
    } else {
        let c = chars[k];
        assert(chars.skip(k)[0] == c);
        assert(is_atom(c));
        let next = step(st, c)->Ok_0;
        assert(chars.take(k + 1) =~= chars.take(k).push(c));
        assert(atoms(chars.take(k + 1)) =~= atoms(chars.take(k)).push(atom(c)));
        if k > 0 {
            assert(concatenations(k as nat) =~= concatenations((k - 1) as nat).push(
                Operator::Concatenation,
            ));
        } else {
            assert(concatenations(0) =~= Seq::empty());
        }
        assert(next == after_atoms(chars.take(k + 1)));
        assert(chars.skip(k).drop_first() =~= chars.skip(k + 1));
        lemma_atoms_from(chars, k + 1);
    }
}

/// A pattern made of atoms alone denotes the sequence of their trees, nested
/// to the right; a single atom denotes its tree.
pub proof fn lemma_pattern_of_atoms(pattern: Seq<char>)
    requires
        pattern.len() > 0,
        forall|i: int| 0 <= i < pattern.len() ==> is_atom(#[trigger] pattern[i]),
    ensures
        parse_pattern(pattern) == Ok::<ExprView, ParseError>(fold_sequence(atoms(pattern))),
{
    assert(pattern.take(0) =~= Seq::empty());
    assert(atoms(pattern.take(0)) =~= Seq::empty());
    assert(pattern.skip(0) =~= pattern);
    assert(after_atoms(pattern.take(0)) == initial());
    lemma_atoms_from(pattern, 0);
}

/// The state of the parser inside a pair of parentheses that encloses
/// everything it has read.
pub open spec fn enclosed(st: ParserView) -> ParserView {
    ParserView { operators: seq![Operator::Group] + st.operators, ..st }
}

/// An open parenthesis at the bottom of the operator stack stays there while
/// the operators above it are applied.
proof fn lemma_drain_enclosed(operands: Seq<ExprView>, operators: Seq<Operator>)
    ensures
        drain(operands, seq![Operator::Group] + operators) == match drain(operands, operators) {
            Ok((rest, pending)) => Ok::<(Seq<ExprView>, Seq<Operator>), ParseError>(
                (rest, seq![Operator::Group] + pending),
            ),
            Err(e) => Err(e),
        },
    decreases operators.len(),
{
    let below = seq![Operator::Group] + operators;
    if operators.len() == 0 {
        assert(below =~= seq![Operator::Group]);
        assert(below.last() == Operator::Group);
    } else {
        assert(below.last() == operators.last());
        if operators.last() != Operator::Group {
            assert(below.drop_last() =~= seq![Operator::Group] + operators.drop_last());
            match reduce(operators.last(), operands) {
                Ok(reduced) => {
                    lemma_drain_enclosed(reduced, operators.drop_last());
                },
                Err(_) => {},
            }
        }
    }
}

/// A character that the parser accepts, it accepts inside parentheses too,
/// with the same effect.
proof fn lemma_step_enclosed(st: ParserView, c: char)
    requires
        step(st, c) is Ok,
    ensures
        step(enclosed(st), c) == Ok::<ParserView, ParseError>(enclosed(step(st, c)->Ok_0)),
{
    let outer = enclosed(st);
    let group = seq![Operator::Group];
    lemma_drain_enclosed(st.operands, st.operators);
    assert(join(outer) =~= group + join(st));
    if st.class is None {
        if c == '(' {
            assert(join(outer).push(Operator::Group) =~= group + join(st).push(Operator::Group));
        } else if c == ')' {
            let pending = drain(st.operands, st.operators)->Ok_0.1;
            assert((group + pending).drop_last() =~= group + pending.drop_last());
        } else if c == '|' {
            let pending = drain(st.operands, st.operators)->Ok_0.1;
            assert((group + pending).push(Operator::Alternation) =~= group + pending.push(
                Operator::Alternation,
            ));
        }
    }
}

/// What the parser makes of `input` it makes of `input` and a closing
/// parenthesis if an open parenthesis encloses all it has read.
proof fn lemma_enclosed_from(st: ParserView, input: Seq<char>)
    requires
        parse_from(st, input) is Ok,
    ensures
        parse_from(enclosed(st), input.push(')')) == parse_from(st, input),
    decreases input.len(),
{
    let outer = enclosed(st);
    let closed = input.push(')');
    if input.len() == 0 {
        assert(closed[0] == ')');
        assert(closed.drop_first() =~= Seq::empty());
        lemma_drain_enclosed(st.operands, st.operators);
        let (rest, pending) = drain(st.operands, st.operators)->Ok_0;
        assert(pending =~= Seq::empty());
        assert((seq![Operator::Group] + pending).drop_last() =~= Seq::empty());
        let after = step(outer, ')')->Ok_0;
        assert(after.operators =~= Seq::empty());
        assert(parse_from(after, closed.drop_first()) == finish(after));
    } else {
        lemma_step_enclosed(st, input[0]);
        assert(closed[0] == input[0]);
        assert(closed.drop_first() =~= input.drop_first().push(')'));
        lemma_enclosed_from(step(st, input[0])->Ok_0, input.drop_first());
    }
}

/// Parentheses around a whole pattern change nothing: if a pattern denotes
/// a tree, the pattern in parentheses denotes the same tree.
pub proof fn lemma_parentheses_around_pattern(pattern: Seq<char>)
    requires
        parse_pattern(pattern) is Ok,
    ensures
        parse_pattern(seq!['('] + pattern.push(')')) == parse_pattern(pattern),
{
    let wrapped = seq!['('] + pattern.push(')');
    assert(wrapped[0] == '(');
    assert(wrapped.drop_first() =~= pattern.push(')'));
    let opened = step(initial(), '(')->Ok_0;
    assert(opened.operators =~= seq![Operator::Group] + initial().operators);
    assert(opened == enclosed(initial()));
    lemma_enclosed_from(initial(), pattern);
}

/// The empty pattern denotes no tree.
pub proof fn lemma_empty_pattern()
    ensures
        parse_pattern(Seq::empty()) == Err::<ExprView, ParseError>(ParseError::EmptyPattern),
{
    assert(drain(initial().operands, initial().operators) == Ok::<
        (Seq<ExprView>, Seq<Operator>),
        ParseError,
    >((initial().operands, initial().operators)));
}

} // verus!
