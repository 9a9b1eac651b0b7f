use vstd::prelude::*;

use crate::ast::{RegexNode, RepeatKind};
use crate::ast::{lemma_view_list, max_group_id, spec_max_group_id, view_list, view_node, SpecRegex};
use crate::semantics::{
    advance_state, alt_states, canon_into, canon_states, end_positions, expand_states, has_pos,
    init_caps, init_state, insert_state, match_states, plus_states, seq_states, spec_is_digit,
    spec_is_word, wf_state, write_cap, SpecState,
};
use crate::semantics::{
    lemma_canon, lemma_distinct_positions_bound, lemma_insert_sorted, lemma_insert_state_at,
    lemma_match_states_ok, sorted_distinct, states_ok,
};

verus! {

/// One live state of the exploration: a position in the input and this
/// path's capture table.
pub struct MatchState {
    pub pos: usize,
    pub captures: Vec<Option<(usize, usize)>>,
}

pub open spec fn spec_cap_view(o: Option<(usize, usize)>) -> Option<(int, int)> {
    match o {
        Some((s, e)) => Some((s as int, e as int)),
        None => None,
    }
}

impl View for MatchState {
    type V = SpecState;

    open spec fn view(&self) -> SpecState {
        SpecState {
            pos: self.pos as int,
            caps: self.captures@.map(|i: int, o: Option<(usize, usize)>| spec_cap_view(o)),
        }
    }
}

/// The batch of states a vector holds, as the model sees it.
pub open spec fn st_views(v: Seq<MatchState>) -> Seq<SpecState> {
    v.map(|i: int, m: MatchState| m@)
}

fn clone_state(st: &MatchState) -> (r: MatchState)
    ensures
        r@ == st@,
{
    let mut captures: Vec<Option<(usize, usize)>> = Vec::new();
    let mut i: usize = 0;
    while i < st.captures.len()
        invariant
            i <= st.captures@.len(),
            captures@ == st.captures@.take(i as int),
        decreases st.captures@.len() - i,
    {
        captures.push(st.captures[i]);
        proof {
            assert(captures@ =~= st.captures@.take(i + 1));
        }
        i += 1;
    }
    proof {
        assert(st.captures@.take(st.captures@.len() as int) =~= st.captures@);
    }
    let r = MatchState { pos: st.pos, captures };
    proof {
        assert(r@ =~= st@);
    }
    r
}

pub(crate) fn is_digit_char(c: char) -> (r: bool)
    ensures
        r == spec_is_digit(c),
{
    '0' <= c && c <= '9'
}

fn is_word_char(c: char) -> (r: bool)
    ensures
        r == spec_is_word(c),
{
    c.is_alphanumeric() || c == '_'
}

fn vec_char_contains(chars: &Vec<char>, c: char) -> (r: bool)
    ensures
        r == chars@.contains(c),
{
    let mut i: usize = 0;
    while i < chars.len()
        invariant
            i <= chars@.len(),
            forall|j: int| 0 <= j < i ==> chars@[j] != c,
        decreases chars@.len() - i,
    {
        if chars[i] == c {
            return true;
        }
        i += 1;
    }
    false
}

/// Whether some state in the vector already ends at position `p`.
fn vec_has_pos(states: &Vec<MatchState>, p: usize) -> (r: bool)
    ensures
        r == has_pos(st_views(states@), p as int),
{
    let mut i: usize = 0;
    while i < states.len()
        invariant
            i <= states@.len(),
            forall|j: int| 0 <= j < i ==> st_views(states@)[j].pos != p,
        decreases states@.len() - i,
    {
        if states[i].pos == p {
            proof {
                assert(st_views(states@)[i as int].pos == p);
            }
            return true;
        }
        i += 1;
    }
    false
}

/// Character-for-character comparison of two spans of the input.
fn spans_equal(input: &[char], a: usize, b: usize, l: usize) -> (r: bool)
    requires
        a + l <= input@.len(),
        b + l <= input@.len(),
    ensures
        r == (input@.subrange(a as int, a + l) == input@.subrange(b as int, b + l)),
{
    let n: usize = input.len();
    let mut k: usize = 0;
    while k < l
        invariant
            k <= l,
            n == input@.len(),
            a + l <= n,
            b + l <= n,
            forall|j: int| 0 <= j < k ==> #[trigger] input@[a + j] == input@[b + j],
        decreases l - k,
    {
        if input[a + k] != input[b + k] {
            proof {
                let sa = input@.subrange(a as int, a + l);
                let sb = input@.subrange(b as int, b + l);
                assert(sa[k as int] != sb[k as int]);
            }
            return false;
        }
        k += 1;
    }
    proof {
        let sa = input@.subrange(a as int, a + l);
        let sb = input@.subrange(b as int, b + l);
        assert forall|j: int| 0 <= j < l implies sa[j] == sb[j] by {
            assert(input@[a + j] == input@[b + j]);
        }
        assert(sa =~= sb);
    }
    true
}

/// Deduplicates a batch by end position, first producer wins, survivors
/// ordered by position.
fn canonicalize(states: Vec<MatchState>) -> (out: Vec<MatchState>)
    ensures
        st_views(out@) == canon_states(st_views(states@)),
{
    let mut out: Vec<MatchState> = Vec::new();
    let ghost full = st_views(states@);
    let mut i: usize = 0;
    proof {
        assert(full.take(0) =~= Seq::<SpecState>::empty());
    }
    while i < states.len()
        invariant
            i <= states@.len(),
            full == st_views(states@),
            sorted_distinct(st_views(out@)),
            st_views(out@) == canon_into(Seq::empty(), full.take(i as int)),
        decreases states@.len() - i,
    {
        let ghost acc = st_views(out@);
        let st = clone_state(&states[i]);
        // find the insertion point
        let mut k: usize = 0;
        while k < out.len() && out[k].pos < st.pos
            invariant
                k <= out@.len(),
                st@ == full[i as int],
                forall|j: int| 0 <= j < k ==> st_views(out@)[j].pos < st@.pos,
            decreases out@.len() - k,
        {
            k += 1;
        }
        proof {
            lemma_insert_state_at(acc, st@, k as int);
        }
        if k < out.len() && out[k].pos == st.pos {
            // this end position is already taken; the earlier state survives
        } else {
            out.insert(k, st);
        }
        proof {
            lemma_insert_sorted(acc, full[i as int]);
            assert(st_views(out@) =~= insert_state(acc, full[i as int]));
            assert(full.take(i + 1) =~= full.take(i as int).push(full[i as int]));
            crate::semantics::lemma_canon_into_push(
                Seq::empty(),
                full.take(i as int),
                full[i as int],
            );
        }
        i += 1;
    }
    proof {
        assert(full.take(states@.len() as int) =~= full);
    }
    out
}

/// The empty result: no state survives.
fn no_states() -> (out: Vec<MatchState>)
    ensures
        st_views(out@) == Seq::<SpecState>::empty(),
{
    let out: Vec<MatchState> = Vec::new();
    proof {
        assert(st_views(out@) =~= Seq::<SpecState>::empty());
    }
    out
}

/// The singleton result holding the state unchanged (a zero-width match).
fn same_state(state: &MatchState) -> (out: Vec<MatchState>)
    ensures
        st_views(out@) == seq![state@],
{
    let out = vec![clone_state(state)];
    proof {
        assert(st_views(out@) =~= seq![state@]);
    }
    out
}

/// The singleton result one character further on (a single-character
/// match).
fn advanced_state(state: &MatchState, n: usize) -> (out: Vec<MatchState>)
    requires
        state.pos + n <= usize::MAX,
    ensures
        st_views(out@) == seq![advance_state(state@, n as int)],
{
    let mut next = clone_state(state);
    next.pos = next.pos + n;
    let out = vec![next];
    proof {
        assert(next@ =~= advance_state(state@, n as int));
        assert(st_views(out@) =~= seq![advance_state(state@, n as int)]);
    }
    out
}

/// Matches one node against one state, returning every state reachable by
/// consuming the node once. This is the heart of the matcher: a
/// breadth-style exploration that carries whole sets of states instead of
/// backtracking.
pub(crate) fn match_with_state(node: &RegexNode, input: &[char], state: &MatchState) -> (out: Vec<
    MatchState,
>)
    requires
        wf_state(state@, input@),
    ensures
        st_views(out@) == match_states(node@, input@, state@),
    decreases node, 0int,
{
    let n = input.len();
    match node {
        RegexNode::Literal(c) => {
            if state.pos < n && input[state.pos] == *c {
                advanced_state(state, 1)
            } else {
                no_states()
            }
        },
        RegexNode::AnyChar => {
            if state.pos < n {
                advanced_state(state, 1)
            } else {
                no_states()
            }
        },
        RegexNode::DigitClass => {
            if state.pos < n && is_digit_char(input[state.pos]) {
                advanced_state(state, 1)
            } else {
                no_states()
            }
        },
        RegexNode::WordClass => {
            if state.pos < n && is_word_char(input[state.pos]) {
                advanced_state(state, 1)
            } else {
                no_states()
            }
        },
        RegexNode::CharSet { chars, negated } => {
            if state.pos >= n {
                no_states()
            } else {
                let contains = vec_char_contains(chars, input[state.pos]);
                if (*negated && !contains) || (!*negated && contains) {
                    advanced_state(state, 1)
                } else {
                    no_states()
                }
            }
        },
        RegexNode::StartAnchor => {
            if state.pos == 0 {
                same_state(state)
            } else {
                no_states()
            }
        },
        RegexNode::EndAnchor => {
            if state.pos == n {
                same_state(state)
            } else {
                no_states()
            }
        },
        RegexNode::Group { id, node: inner } => {
            let start = state.pos;
            let inner_out = match_with_state(inner, input, state);
            let ghost ms = match_states(view_node(**inner), input@, state@);
            let ghost f = |i: int, ns: SpecState| write_cap(ns, *id as int, state@.pos);
            let mut out: Vec<MatchState> = Vec::new();
            let mut i: usize = 0;
            proof {
                assert(st_views(out@) =~= ms.map(f).take(0));
            }
            while i < inner_out.len()
                invariant
                    i <= inner_out@.len(),
                    st_views(inner_out@) == ms,
                    f == (|i: int, ns: SpecState| write_cap(ns, *id as int, state@.pos)),
                    start == state.pos,
                    st_views(out@) == ms.map(f).take(i as int),
                decreases inner_out@.len() - i,
            {
                let mut ns = clone_state(&inner_out[i]);
                if *id < ns.captures.len() {
                    let end = ns.pos;
                    ns.captures.set(*id, Some((start, end)));
                    proof {
                        assert(ns@.caps =~= ms[i as int].caps.update(
                            *id as int,
                            Some((start as int, ms[i as int].pos)),
                        ));
                        assert(ns@ =~= write_cap(ms[i as int], *id as int, state@.pos));
                    }
                } else {
                    proof {
                        assert(ns@ == ms[i as int]);
                        assert(ns@ =~= write_cap(ms[i as int], *id as int, state@.pos));
                    }
                }
                let ghost old_views = st_views(out@);
                let ghost nsv = ns@;
                out.push(ns);
                proof {
                    assert(st_views(out@) =~= old_views.push(nsv));
                    assert(f(i as int, ms[i as int]) == write_cap(
                        ms[i as int],
                        *id as int,
                        state@.pos,
                    ));
                    assert(ms.map(f)[i as int] == f(i as int, ms[i as int]));
                    assert(ms.map(f).take(i + 1) =~= ms.map(f).take(i as int).push(
                        ms.map(f)[i as int],
                    ));
                    assert(st_views(out@) =~= ms.map(f).take(i + 1));
                }
                i += 1;
            }
            proof {
                assert(ms.map(f).take(ms.len() as int) =~= ms.map(f));
            }
            out
        },
        RegexNode::Backreference { id } => {
            if *id >= state.captures.len() {
                no_states()
            } else {
                match state.captures[*id] {
                    Some((s, e)) => {
                        proof {
                            assert(state@.caps[*id as int] == spec_cap_view(
                                state.captures@[*id as int],
                            ));
                        }
                        let l = e - s;
                        if l <= n && state.pos <= n - l {
                            if spans_equal(input, s, state.pos, l) {
                                advanced_state(state, l)
                            } else {
                                no_states()
                            }
                        } else {
                            no_states()
                        }
                    },
                    None => no_states(),
                }
            }
        },
        RegexNode::Sequence(nodes) => match_sequence(nodes, input, state),
        RegexNode::Alternation(branches) => {
            let raw = match_alternation(branches, input, state);
            canonicalize(raw)
        },
        RegexNode::Repetition { node: inner, kind } => match kind {
            RepeatKind::ZeroOrOne => {
                let mut raw: Vec<MatchState> = Vec::new();
                raw.push(clone_state(state));
                let mut rest = match_with_state(inner, input, state);
                let ghost rest_views = st_views(rest@);
                raw.append(&mut rest);
                proof {
                    assert(st_views(raw@) =~= seq![state@] + rest_views);
                }
                canonicalize(raw)
            },
            RepeatKind::OneOrMore => match_plus(inner, input, state),
        },
    }
}

/// Matches one node from every state of a batch, concatenating the
/// reachable states in batch order.
fn match_list_expand(node: &RegexNode, input: &[char], states: &Vec<MatchState>) -> (out: Vec<
    MatchState,
>)
    requires
        forall|j: int| 0 <= j < states@.len() ==> wf_state(#[trigger] st_views(states@)[j], input@),
    ensures
        st_views(out@) == expand_states(node@, input@, st_views(states@)),
    decreases node, 1int,
{
    let ghost full = st_views(states@);
    let mut out: Vec<MatchState> = Vec::new();
    let mut j: usize = 0;
    proof {
        assert(st_views(out@) =~= Seq::<SpecState>::empty());
        assert(full.skip(0) =~= full);
    }
    while j < states.len()
        invariant
            j <= states@.len(),
            full == st_views(states@),
            forall|j2: int| 0 <= j2 < states@.len() ==> wf_state(#[trigger] full[j2], input@),
            expand_states(node@, input@, full) == st_views(out@) + expand_states(
                node@,
                input@,
                full.skip(j as int),
            ),
        decreases states@.len() - j,
    {
        let mut rs = match_with_state(node, input, &states[j]);
        let ghost rs_views = st_views(rs@);
        let ghost old_out = st_views(out@);
        out.append(&mut rs);
        proof {
            let rem = full.skip(j as int);
            assert(rem[0] == full[j as int]);
            assert(rem.drop_first() =~= full.skip(j + 1));
            assert(expand_states(node@, input@, rem) == match_states(node@, input@, full[j as int])
                + expand_states(node@, input@, full.skip(j + 1)));
            assert(st_views(out@) =~= old_out + rs_views);
            assert((old_out + rs_views) + expand_states(node@, input@, full.skip(j + 1)) =~= old_out
                + (rs_views + expand_states(node@, input@, full.skip(j + 1))));
        }
        j += 1;
    }
    proof {
        assert(full.skip(states@.len() as int) =~= Seq::<SpecState>::empty());
        assert(st_views(out@) + Seq::<SpecState>::empty() =~= st_views(out@));
    }
    out
}

/// Folds the children of a concatenation left to right over the batch of
/// live states, deduplicating after each child and stopping as soon as no
/// state survives.
fn match_sequence(nodes: &Vec<RegexNode>, input: &[char], state: &MatchState) -> (out: Vec<
    MatchState,
>)
    requires
        wf_state(state@, input@),
    ensures
        st_views(out@) == seq_states(view_list(nodes@), input@, seq![state@]),
    decreases nodes, 2int,
{
    let ghost specs = view_list(nodes@);
    let ghost p0 = state@.pos;
    let ghost clen = state@.caps.len() as int;
    proof {
        lemma_view_list(nodes@);
    }
    let mut states: Vec<MatchState> = Vec::new();
    states.push(clone_state(state));
    proof {
        assert(st_views(states@) =~= seq![state@]);
        assert(specs.skip(0) =~= specs);
        assert(states_ok(seq![state@], input@, p0, clen));
    }
    let mut i: usize = 0;
    while i < nodes.len()
        invariant
            i <= nodes@.len(),
            specs == view_list(nodes@),
            specs.len() == nodes@.len(),
            forall|k: int| 0 <= k < nodes@.len() ==> specs[k] == view_node(#[trigger] nodes@[k]),
            p0 == state@.pos,
            clen == state@.caps.len() as int,
            states@.len() > 0,
            states_ok(st_views(states@), input@, p0, clen),
            seq_states(specs, input@, seq![state@]) == seq_states(
                specs.skip(i as int),
                input@,
                st_views(states@),
            ),
        decreases nodes@.len() - i,
    {
        let ghost cur = st_views(states@);
        proof {
            assert(forall|j: int| 0 <= j < states@.len() ==> wf_state(#[trigger] cur[j], input@));
        }
        let raw = match_list_expand(&nodes[i], input, &states);
        let ghost raw_views = st_views(raw@);
        proof {
            let rem = specs.skip(i as int);
            assert(rem[0] == specs[i as int]);
            assert(rem.drop_first() =~= specs.skip(i + 1));
            lemma_canon(raw_views);
        }
        if raw.len() == 0 {
            proof {
                assert(raw_views.len() == 0);
                assert(canon_states(raw_views).len() == 0);
                assert(seq_states(specs.skip(i as int), input@, cur) == Seq::<SpecState>::empty());
            }
            return no_states();
        }
        states = canonicalize(raw);
        proof {
            assert(st_views(states@) == canon_states(raw_views));
            assert(st_views(states@).len() > 0);
            crate::semantics::lemma_expand_states_ok(specs[i as int], input@, cur, p0, clen);
            assert forall|k: int| 0 <= k < st_views(states@).len() implies wf_state(
                #[trigger] st_views(states@)[k],
                input@,
            ) && p0 <= st_views(states@)[k].pos && st_views(states@)[k].caps.len() == clen by {
                let x = st_views(states@)[k];
                assert(st_views(states@).contains(x));
                assert(raw_views.contains(x));
                let w = choose|w: int| 0 <= w < raw_views.len() && raw_views[w] == x;
            }
        }
        i += 1;
    }
    proof {
        assert(specs.skip(nodes@.len() as int) =~= Seq::<SpecRegex>::empty());
    }
    states
}

/// Matches every alternation branch independently from the same state,
/// concatenating the results in branch order.
fn match_alternation(branches: &Vec<RegexNode>, input: &[char], state: &MatchState) -> (out: Vec<
    MatchState,
>)
    requires
        wf_state(state@, input@),
    ensures
        st_views(out@) == alt_states(view_list(branches@), input@, state@),
    decreases branches, 2int,
{
    let ghost specs = view_list(branches@);
    proof {
        lemma_view_list(branches@);
    }
    let mut out: Vec<MatchState> = Vec::new();
    let mut i: usize = 0;
    proof {
        assert(st_views(out@) =~= Seq::<SpecState>::empty());
        assert(specs.skip(0) =~= specs);
    }
    while i < branches.len()
        invariant
            i <= branches@.len(),
            specs == view_list(branches@),
            specs.len() == branches@.len(),
            forall|k: int| 0 <= k < branches@.len() ==> specs[k] == view_node(#[trigger] branches@[k]),
            wf_state(state@, input@),
            alt_states(specs, input@, state@) == st_views(out@) + alt_states(
                specs.skip(i as int),
                input@,
                state@,
            ),
        decreases branches@.len() - i,
    {
        let mut rs = match_with_state(&branches[i], input, state);
        let ghost rs_views = st_views(rs@);
        let ghost old_out = st_views(out@);
        out.append(&mut rs);
        proof {
            let rem = specs.skip(i as int);
            assert(rem[0] == specs[i as int]);
            assert(rem.drop_first() =~= specs.skip(i + 1));
            assert(st_views(out@) =~= old_out + rs_views);
            assert((old_out + rs_views) + alt_states(specs.skip(i + 1), input@, state@) =~= old_out
                + (rs_views + alt_states(specs.skip(i + 1), input@, state@)));
        }
        i += 1;
    }
    proof {
        assert(specs.skip(branches@.len() as int) =~= Seq::<SpecRegex>::empty());
        assert(st_views(out@) + Seq::<SpecState>::empty() =~= st_views(out@));
    }
    out
}

/// The one-or-more fixed point as a work list. A state whose end position
/// was already reached is dropped unexpanded — the guard that keeps the
/// loop finite when the inner node can match without consuming — so each
/// round either retires a queue entry or claims a fresh position, of which
/// there are at most `input.len() + 1`.
fn match_plus(inner: &RegexNode, input: &[char], state: &MatchState) -> (out: Vec<MatchState>)
    requires
        wf_state(state@, input@),
    ensures
        st_views(out@) == plus_states(
            view_node(*inner),
            input@,
            Seq::<SpecState>::empty(),
            match_states(view_node(*inner), input@, state@),
            (input@.len() + 1) as nat,
        ),
    decreases inner, 2int,
{
    let ghost ispec = view_node(*inner);
    let ghost frontier0 = match_states(ispec, input@, state@);
    let ghost budget0 = (input@.len() + 1) as nat;
    let ghost p0 = state@.pos;
    let ghost clen = state@.caps.len() as int;
    let mut queue = match_with_state(inner, input, state);
    let mut results: Vec<MatchState> = Vec::new();
    let mut qi: usize = 0;
    proof {
        lemma_match_states_ok(ispec, input@, state@);
        assert(st_views(results@) =~= Seq::<SpecState>::empty());
        assert(st_views(queue@).skip(0) =~= st_views(queue@));
    }
    while qi < queue.len()
        invariant
            qi <= queue@.len(),
            ispec == view_node(*inner),
            frontier0 == match_states(ispec, input@, state@),
            budget0 == (input@.len() + 1) as nat,
            p0 == state@.pos,
            clen == state@.caps.len() as int,
            wf_state(state@, input@),
            results@.len() <= budget0,
            states_ok(st_views(results@), input@, p0, clen),
            states_ok(st_views(queue@), input@, p0, clen),
            forall|a: int, b: int|
                0 <= a < b < results@.len() ==> st_views(results@)[a].pos != st_views(
                    results@,
                )[b].pos,
            plus_states(ispec, input@, Seq::<SpecState>::empty(), frontier0, budget0)
                == plus_states(
                ispec,
                input@,
                st_views(results@),
                st_views(queue@).skip(qi as int),
                (budget0 - results@.len()) as nat,
            ),
        decreases budget0 - results@.len(), queue@.len() - qi,
    {
        let ghost rq = st_views(queue@).skip(qi as int);
        let ghost rr = st_views(results@);
        let ghost head = st_views(queue@)[qi as int];
        proof {
            assert(rq[0] == head);
            assert(rq.drop_first() =~= st_views(queue@).skip(qi + 1));
        }
        let p = queue[qi].pos;
        let seen = vec_has_pos(&results, p);
        proof {
            assert(head == queue@[qi as int]@);
            assert(head.pos == p as int);
        }
        if seen {
            qi += 1;
        } else {
            proof {
                // a fresh position: the budget cannot be exhausted, since all
                // positions reached lie in 0 ..= input.len()
                let rs = rr.push(head);
                assert(forall|a: int|
                    0 <= a < rs.len() ==> 0 <= #[trigger] rs[a].pos <= input@.len() as int);
                assert forall|a: int, b: int| 0 <= a < b < rs.len() implies rs[a].pos
                    != rs[b].pos by {
                    if b == rs.len() - 1 {
                        assert(!has_pos(rr, head.pos));
                        assert(rs[a] == rr[a]);
                    }
                }
                lemma_distinct_positions_bound(rs, input@.len() as int);
                assert(results@.len() < budget0);
            }
            let mut expansion = match_with_state(inner, input, &queue[qi]);
            let ghost exp_views = st_views(expansion@);
            results.push(clone_state(&queue[qi]));
            let ghost old_queue = st_views(queue@);
            queue.append(&mut expansion);
            qi += 1;
            proof {
                assert(st_views(results@) =~= rr.push(head));
                assert(st_views(queue@) =~= old_queue + exp_views);
                assert(st_views(queue@).skip(qi as int) =~= rq.drop_first() + exp_views);
                lemma_match_states_ok(ispec, input@, head);
                assert forall|k: int| 0 <= k < st_views(queue@).len() implies wf_state(
                    #[trigger] st_views(queue@)[k],
                    input@,
                ) && p0 <= st_views(queue@)[k].pos && st_views(queue@)[k].caps.len() == clen by {
                    if k < old_queue.len() {
                        assert(st_views(queue@)[k] == old_queue[k]);
                    } else {
                        assert(st_views(queue@)[k] == exp_views[k - old_queue.len()]);
                    }
                }
                assert forall|a: int, b: int|
                    0 <= a < b < st_views(results@).len() implies st_views(results@)[a].pos
                    != st_views(results@)[b].pos by {
                    if b == st_views(results@).len() - 1 {
                        assert(!has_pos(rr, head.pos));
                        assert(st_views(results@)[a] == rr[a]);
                    } else {
                        assert(st_views(results@)[a] == rr[a]);
                        assert(st_views(results@)[b] == rr[b]);
                    }
                }
            }
        }
    }
    proof {
        assert(st_views(queue@).skip(qi as int) =~= Seq::<SpecState>::empty());
    }
    results
}

/// The positions a vector of end offsets holds, as the model counts them.
pub open spec fn pos_views(v: Seq<usize>) -> Seq<int> {
    v.map(|i: int, e: usize| e as int)
}

/// Runs one match attempt: sizes a fresh capture table from the largest
/// group identifier in the tree, explores the tree from offset `start`,
/// and hands back every reachable end position, one entry per position.
pub fn match_node(node: &RegexNode, input: &[char], start: usize) -> (ends: Vec<usize>)
    requires
        start <= input@.len(),
        spec_max_group_id(node@) < usize::MAX,
    ensures
        pos_views(ends@) == end_positions(
            match_states(node@, input@, init_state(node@, start as int)),
        ),
{
    let max_id = max_group_id(node);
    let slots = max_id + 1;
    let mut captures: Vec<Option<(usize, usize)>> = Vec::new();
    while captures.len() < slots
        invariant
            captures@.len() <= slots,
            forall|j: int| 0 <= j < captures@.len() ==> captures@[j] is None,
        decreases slots - captures@.len(),
    {
        captures.push(None);
    }
    let init = MatchState { pos: start, captures };
    proof {
        assert(init@.caps =~= init_caps(spec_max_group_id(node@) + 1));
        assert(init@ =~= init_state(node@, start as int));
        assert(wf_state(init@, input@));
    }
    let out = match_with_state(node, input, &init);
    let ghost outs = st_views(out@);
    let mut ends: Vec<usize> = Vec::new();
    let mut i: usize = 0;
    proof {
        assert(pos_views(ends@) =~= end_positions(outs).take(0));
    }
    while i < out.len()
        invariant
            i <= out@.len(),
            outs == st_views(out@),
            pos_views(ends@) == end_positions(outs).take(i as int),
        decreases out@.len() - i,
    {
        let ghost oldp = pos_views(ends@);
        ends.push(out[i].pos);
        proof {
            assert(pos_views(ends@) =~= oldp.push(out@[i as int].pos as int));
            assert(outs[i as int] == out@[i as int]@);
            assert(end_positions(outs)[i as int] == outs[i as int].pos);
            assert(end_positions(outs).take(i + 1) =~= end_positions(outs).take(i as int).push(
                end_positions(outs)[i as int],
            ));
            assert(pos_views(ends@) =~= end_positions(outs).take(i + 1));
        }
        i += 1;
    }
    proof {
        assert(end_positions(outs).take(outs.len() as int) =~= end_positions(outs));
    }
    ends
}

} // verus!
