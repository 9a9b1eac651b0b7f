use vstd::prelude::*;
use vstd::string::StrSliceExecFns;

/// The pattern tree: pure data, plus its mathematical mirror.
pub mod ast;
/// The brute-force reference semantics and its agreement with the matcher.
pub mod denotation;
/// The state-set matcher.
pub mod matcher;
/// The recursive-descent parser.
pub mod parser;
/// The model: states, capture tables, and what matching one node yields.
pub mod semantics;

use crate::matcher::{match_node, pos_views};
use crate::parser::{fuel_alt, lemma_alt_at, spec_parse, Parser};
use crate::semantics::{end_positions, init_state, match_states};
use crate::ast::{spec_max_group_id, SpecRegex};

verus! {

/// Whether the pattern matches the input line: some start offset between 0
/// and the input length, inclusive, reaches at least one end position.
pub open spec fn spec_is_match(input: Seq<char>, pattern: Seq<char>) -> bool {
    exists|start: int|
        0 <= start <= input.len() && match_states(
            spec_parse(pattern),
            input,
            init_state(spec_parse(pattern), start),
        ).len() != 0
}

/// Compiles the pattern and tries it at every start offset, smallest
/// first; true as soon as any offset yields a non-empty result set.
pub fn is_match(input: &str, pattern: &str) -> (r: bool)
    requires
        pattern@.len() < usize::MAX,
    ensures
        r == spec_is_match(input@, pattern@),
{
    let mut p = Parser::new(pattern);
    let ast = p.parse();
    let ghost tree = spec_parse(pattern@);
    proof {
        lemma_alt_at(pattern@, 0, 1, fuel_alt(pattern@, 0), fuel_alt(pattern@, 0));
        assert(ast@ == tree);
        assert(spec_max_group_id(tree) < usize::MAX);
    }
    let n = input.unicode_len();
    let mut chars: Vec<char> = Vec::new();
    let mut i: usize = 0;
    proof {
        assert(chars@ =~= input@.take(0));
    }
    while i < n
        invariant
            i <= n,
            n == input@.len(),
            chars@ == input@.take(i as int),
        decreases n - i,
    {
        chars.push(input.get_char(i));
        proof {
            assert(chars@ =~= input@.take(i + 1));
        }
        i += 1;
    }
    proof {
        assert(chars@ =~= input@);
    }
    let mut start: usize = 0;
    while start < n
        invariant
            start <= n,
            n == input@.len(),
            chars@ == input@,
            ast@ == tree,
            tree == spec_parse(pattern@),
            spec_max_group_id(tree) < usize::MAX,
            forall|s: int|
                0 <= s < start ==> match_states(tree, input@, init_state(tree, s)).len() == 0,
        decreases n - start,
    {
        let ends = match_node(&ast, &chars, start);
        if ends.len() > 0 {
            proof {
                assert(pos_views(ends@).len() > 0);
                assert(match_states(tree, input@, init_state(tree, start as int)).len() != 0);
            }
            return true;
        }
        proof {
            assert(pos_views(ends@).len() == 0);
            assert(end_positions(match_states(tree, input@, init_state(tree, start as int))).len()
                == 0);
        }
        start += 1;
    }
    let ends = match_node(&ast, &chars, start);
    if ends.len() > 0 {
        proof {
            assert(pos_views(ends@).len() > 0);
            assert(match_states(tree, input@, init_state(tree, start as int)).len() != 0);
        }
        return true;
    }
    proof {
        assert(pos_views(ends@).len() == 0);
        assert(end_positions(match_states(tree, input@, init_state(tree, start as int))).len()
            == 0);
        assert forall|s: int| 0 <= s <= input@.len() implies match_states(
            tree,
            input@,
            init_state(tree, s),
        ).len() == 0 by {
            if s < start {
            } else {
                assert(s == start as int);
            }
        }
    }
    false
}

/// The empty pattern compiles to the empty concatenation, which matches
/// zero-width: every input is matched, already at start offset 0.
pub proof fn lemma_empty_pattern_matches(input: Seq<char>)
    ensures
        spec_is_match(input, Seq::<char>::empty()),
{
    let pat = Seq::<char>::empty();
    let tree = spec_parse(pat);
    assert(tree == SpecRegex::Sequence(Seq::<SpecRegex>::empty())) by {
        let first = crate::parser::parse_seq_at(pat, 0, 1, 4);
        assert(crate::parser::parse_seq_items(pat, 0, 1, 4).items =~= Seq::<SpecRegex>::empty());
        assert(first.node == SpecRegex::Sequence(Seq::<SpecRegex>::empty()));
        assert(first.pos == 0 && first.next_id == 1);
        let more = crate::parser::parse_alt_more(pat, seq![first.node], 0, 1, 4);
        assert(crate::parser::spec_peek(pat, 0) is None);
        assert(more.items == seq![first.node]);
        assert(more.items.len() == 1);
    }
    let st = init_state(tree, 0);
    assert(match_states(tree, input, st) == crate::semantics::seq_states(
        Seq::<SpecRegex>::empty(),
        input,
        seq![st],
    ));
    assert(match_states(tree, input, st) == seq![st]);
    assert(match_states(tree, input, st).len() != 0);
    assert(0 <= 0 <= input.len());
}

} // verus!
