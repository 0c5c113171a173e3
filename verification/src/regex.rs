//! A compiled pattern and the questions one asks of it.

use crate::compile::{compile, lemma_compile_is_well_formed};
use crate::expr::{fold_sequence, parse_pattern, Expr, ExprView, ParseError};
use crate::grammar::{atoms, is_atom, lemma_pattern_of_atoms};
use crate::language::{lemma_search_decides, tree_matches};
use crate::nfa::{encode, NfaView, NFA};
use crate::search::{accepts, offset_view, outcome, run};
use vstd::prelude::*;
use vstd::slice::slice_subrange;
use vstd::string::StringSliceAdditionalSpecFns;

verus! {

/// A pattern, compiled.
#[derive(PartialEq, Debug)]
pub struct Regex {
    nfa: NFA,
}

impl View for Regex {
    type V = NfaView;

    closed spec fn view(&self) -> NfaView {
        self.nfa@
    }
}

/// The automaton of `pattern`, or the reason why it has none.
pub open spec fn compile_pattern(pattern: Seq<char>) -> Result<NfaView, ParseError> {
    match parse_pattern(pattern) {
        Ok(tree) => Ok(compile(tree)),
        Err(e) => Err(e),
    }
}

/// No suffix of `text` that starts before `before` has a match at its start.
pub open spec fn no_match_before(nfa: NfaView, text: Seq<u8>, before: int) -> bool {
    forall|start: int| 0 <= start < before && start <= text.len() ==> outcome(
        nfa,
        #[trigger] text.skip(start),
    ) is None
}

impl Regex {
    /// The automaton of a compiled pattern can be run.
    #[verifier::type_invariant]
    spec fn can_run(self) -> bool {
        self.nfa@.well_formed()
    }

    /// Compiles `pattern`. The result holds the automaton of the tree that
    /// the pattern denotes; a pattern that denotes none is rejected with the
    /// parser's error.
    pub fn from(pattern: &str) -> (compiled: Result<Regex, ParseError>)
        ensures
            match compile_pattern(pattern@) {
                Ok(nfa) => compiled matches Ok(regex) && regex@ == nfa,
                Err(e) => compiled matches Err(err) && err == e,
            },
    {
        match Expr::parse(pattern) {
            Ok(expr) => Ok(Regex { nfa: NFA::from_expr(&expr) }),
            Err(e) => Err(e),
        }
    }

    /// Whether the pattern matches at the start of `text`: whether the
    /// automaton accepts a prefix of its bytes.
    pub fn is_match(&self, text: &str) -> (yes: bool)
        ensures
            yes == outcome(self@, text.spec_bytes()) is Some,
            yes == exists|end: int| accepts(self@, text.spec_bytes(), end),
    {
        let end = self.match_offset(text);
        proof {
            if let Some(k) = end {
                assert(accepts(self@, text.spec_bytes(), k as int));
            }
        }
        end.is_some()
    }

    /// The offset at which the match at the start of `text` ends, if the
    /// pattern matches there.
    pub fn match_offset(&self, text: &str) -> (end: Option<usize>)
        ensures
            offset_view(end) == outcome(self@, text.spec_bytes()),
            end matches Some(k) ==> k <= text.spec_bytes().len() && accepts(
                self@,
                text.spec_bytes(),
                k as int,
            ),
            end is None ==> forall|k: int| !accepts(self@, text.spec_bytes(), k),
    {
        proof {
            use_type_invariant(self);
        }
        run(&self.nfa, text.as_bytes())
    }

    /// The first place in `text` at which the pattern matches: the least
    /// offset at which a match starts, and the offset at which that match
    /// ends. Offsets count bytes. The pattern is tried at every offset up to
    /// the end of the text, where only the empty match is left.
    pub fn first(&self, text: &str) -> (found: Option<(usize, usize)>)
        ensures
            match found {
                Some((start, end)) => {
                    &&& start <= end <= text.spec_bytes().len()
                    &&& outcome(self@, text.spec_bytes().skip(start as int)) == Some(end - start)
                    &&& no_match_before(self@, text.spec_bytes(), start as int)
                },
                None => no_match_before(
                    self@,
                    text.spec_bytes(),
                    text.spec_bytes().len() as int + 1,
                ),
            },
    {
        proof {
            use_type_invariant(self);
        }
        let bytes = text.as_bytes();
        let len = bytes.len();
        let mut start: usize = 0;
        loop
            invariant
                self.nfa@.well_formed(),
                self@ == self.nfa@,
                bytes@ == text.spec_bytes(),
                len == bytes@.len(),
                start <= len,
                no_match_before(self@, bytes@, start as int),
            decreases len - start,
        {
            let rest = slice_subrange(bytes, start, len);
            assert(rest@ =~= bytes@.skip(start as int));
            match run(&self.nfa, rest) {
                Some(k) => {
                    return Some((start, start + k));
                },
                None => {},
            }
            if start == len {
                return None;
            }
            start += 1;
        }
    }
}

/// Compiling a pattern is a function of its characters: two compilations of
/// the same pattern hold the same automaton.
pub proof fn lemma_compilation_is_deterministic(first: Regex, second: Regex, pattern: Seq<char>)
    requires
        compile_pattern(pattern) == Ok::<NfaView, ParseError>(first@),
        compile_pattern(pattern) == Ok::<NfaView, ParseError>(second@),
    ensures
        first@ == second@,
{
}

/// The automaton of a pattern that parses can be run.
pub proof fn lemma_compiled_pattern_is_well_formed(pattern: Seq<char>)
    ensures
        compile_pattern(pattern) matches Ok(nfa) ==> nfa.well_formed() && nfa.states.len() > 0,
{
    if let Ok(tree) = parse_pattern(pattern) {
        lemma_compile_is_well_formed(tree);
    }
}

/// Every character of the pattern stands for itself.
pub open spec fn is_literal(pattern: Seq<char>) -> bool {
    forall|i: int| 0 <= i < pattern.len() ==> is_atom(#[trigger] pattern[i]) && pattern[i] != '.'
}

/// The tree of a row of literals matches the bytes of the literals and
/// nothing else.
proof fn lemma_literals_match_themselves(pattern: Seq<char>, s: Seq<u8>)
    requires
        pattern.len() > 0,
        is_literal(pattern),
    ensures
        tree_matches(fold_sequence(atoms(pattern)), s) <==> s == encode(pattern),
    decreases pattern.len(),
{
    let trees = atoms(pattern);
    let bytes = encode(pattern);
    assert(trees[0] == ExprView::Single(pattern[0]));
    if pattern.len() == 1 {
        assert(bytes =~= seq![pattern[0] as u8]);
    } else {
        let rest = pattern.drop_first();
        assert(trees.drop_first() =~= atoms(rest));
        assert(bytes.drop_first() =~= encode(rest));
        assert forall|i: int| 0 <= i < rest.len() implies is_atom(#[trigger] rest[i]) && rest[i]
            != '.' by {
            assert(rest[i] == pattern[i + 1]);
        }
        let tree = fold_sequence(trees);
        if tree_matches(tree, s) {
            let i = choose|i: int|
                0 <= i <= s.len() && tree_matches(trees[0], #[trigger] s.take(i))
                    && tree_matches(fold_sequence(atoms(rest)), s.skip(i));
            lemma_literals_match_themselves(rest, s.skip(i));
            assert(s.take(i).len() == 1);
            assert(s.take(i)[0] == pattern[0] as u8);
            assert(s =~= bytes) by {
                assert(s =~= s.take(i) + s.skip(i));
                assert(bytes =~= seq![bytes[0]] + bytes.drop_first());
            }
        }
        if s == bytes {
            lemma_literals_match_themselves(rest, s.skip(1));
            assert(s.skip(1) =~= bytes.drop_first());
            assert(s.take(1) =~= seq![pattern[0] as u8]);
            assert(tree_matches(trees[0], s.take(1)));
        }
    }
}

/// A pattern of literals matches at the start of exactly the texts that
/// start with the bytes of the pattern, and its match ends where they end.
pub proof fn lemma_literal_pattern_matches_itself(pattern: Seq<char>, text: Seq<u8>)
    requires
        pattern.len() > 0,
        is_literal(pattern),
    ensures
        compile_pattern(pattern) is Ok,
        outcome(compile_pattern(pattern)->Ok_0, text) == if encode(pattern).is_prefix_of(text) {
            Some(pattern.len() as int)
        } else {
            None
        },
{
    lemma_pattern_of_atoms(pattern);
    let tree = fold_sequence(atoms(pattern));
    let bytes = encode(pattern);
    lemma_search_decides(tree, text);
    if bytes.is_prefix_of(text) {
        assert(text.take(bytes.len() as int) =~= bytes);
        lemma_literals_match_themselves(pattern, text.take(bytes.len() as int));
    }
    if let Some(end) = outcome(compile(tree), text) {
        lemma_literals_match_themselves(pattern, text.take(end));
        assert(text.take(end).len() == end);
        assert(bytes =~= text.subrange(0, bytes.len() as int));
    }
}

} // verus!
