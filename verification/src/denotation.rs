use vstd::prelude::*;

use crate::ast::{RepeatKind, SpecRegex};
use crate::semantics::{
    alt_states, canon_states, expand_states, has_pos, match_states, plus_states, seq_states,
    spec_is_digit, spec_is_word, wf_state, SpecState,
};
use crate::semantics::{lemma_canon, lemma_distinct_positions_bound, lemma_match_states_ok};

verus! {

/// A tree that uses neither groups, backreferences nor anchors: matching
/// such a tree depends on positions alone.
pub open spec fn plain(n: SpecRegex) -> bool
    decreases n, 0int,
{
    match n {
        SpecRegex::Sequence(v) => plain_list(v),
        SpecRegex::Alternation(v) => plain_list(v),
        SpecRegex::Repetition { node, .. } => plain(*node),
        SpecRegex::Group { .. } => false,
        SpecRegex::Backreference { .. } => false,
        SpecRegex::StartAnchor => false,
        SpecRegex::EndAnchor => false,
        _ => true,
    }
}

pub open spec fn plain_list(v: Seq<SpecRegex>) -> bool
    decreases v, 1int,
{
    v.len() == 0 || (plain(v[0]) && plain_list(v.drop_first()))
}

/// The reference matcher: a brute-force recursive relation saying the node
/// can consume exactly the characters from `from` to `to`, with no state
/// sets and no deduplication.
pub open spec fn denote(n: SpecRegex, input: Seq<char>, from: int, to: int) -> bool
    decreases n, 0int,
{
    match n {
        SpecRegex::Literal(c) => 0 <= from < input.len() && input[from] == c && to == from + 1,
        SpecRegex::AnyChar => 0 <= from < input.len() && to == from + 1,
        SpecRegex::DigitClass => 0 <= from < input.len() && spec_is_digit(input[from]) && to == from
            + 1,
        SpecRegex::WordClass => 0 <= from < input.len() && spec_is_word(input[from]) && to == from
            + 1,
        SpecRegex::CharSet { chars, negated } => 0 <= from < input.len() && (chars.contains(
            input[from],
        ) != negated) && to == from + 1,
        SpecRegex::StartAnchor => from == 0 && to == from,
        SpecRegex::EndAnchor => from == input.len() && to == from,
        SpecRegex::Group { node, .. } => denote(*node, input, from, to),
        SpecRegex::Backreference { .. } => false,
        SpecRegex::Sequence(v) => denote_list(v, input, from, to),
        SpecRegex::Alternation(v) => denote_any(v, input, from, to),
        SpecRegex::Repetition { node, kind } => match kind {
            RepeatKind::ZeroOrOne => to == from || denote(*node, input, from, to),
            RepeatKind::OneOrMore => reaches_plus(*node, input, from, to),
        },
    }
}

/// A pure marker: the term the split-point quantifier below matches on.
pub open spec fn split_point(mid: int) -> bool {
    true
}

/// The nodes in order consume `from` to `to` with some split in between.
pub open spec fn denote_list(v: Seq<SpecRegex>, input: Seq<char>, from: int, to: int) -> bool
    decreases v, 1int,
{
    if v.len() == 0 {
        to == from
    } else {
        exists|mid: int|
            #[trigger] split_point(mid) && denote(v[0], input, from, mid) && denote_list(
                v.drop_first(),
                input,
                mid,
                to,
            )
    }
}

/// Some branch consumes `from` to `to`.
pub open spec fn denote_any(v: Seq<SpecRegex>, input: Seq<char>, from: int, to: int) -> bool
    decreases v, 1int,
{
    v.len() > 0 && (denote(v[0], input, from, to) || denote_any(v.drop_first(), input, from, to))
}

/// Every adjacent pair of the position chain is one application of the
/// node.
pub open spec fn chain_ok(n: SpecRegex, input: Seq<char>, ch: Seq<int>) -> bool
    decreases n, 1int,
{
    forall|i: int| 0 <= i < ch.len() - 1 ==> denote(n, input, #[trigger] ch[i], ch[i + 1])
}

/// The chain starts at `from`, ends at `to`, and has at least one step.
pub open spec fn chain_shape(ch: Seq<int>, from: int, to: int) -> bool {
    ch.len() >= 2 && ch[0] == from && ch[ch.len() - 1] == to
}

/// One or more applications of the node lead from `from` to `to`.
pub open spec fn reaches_plus(n: SpecRegex, input: Seq<char>, from: int, to: int) -> bool
    decreases n, 2int,
{
    exists|ch: Seq<int>| #[trigger] chain_shape(ch, from, to) && chain_ok(n, input, ch)
}

/// A single application is a two-position chain.
pub proof fn lemma_chain_two(n: SpecRegex, input: Seq<char>, a: int, b: int)
    requires
        denote(n, input, a, b),
    ensures
        reaches_plus(n, input, a, b),
{
    let ch = seq![a, b];
    assert(chain_ok(n, input, ch)) by {
        assert forall|i: int| 0 <= i < ch.len() - 1 implies denote(
            n,
            input,
            #[trigger] ch[i],
            ch[i + 1],
        ) by {
            assert(i == 0);
            assert(ch[0] == a && ch[1] == b);
        }
    }
    assert(chain_shape(ch, a, b));
}

/// One more application extends a chain.
pub proof fn lemma_chain_extend(n: SpecRegex, input: Seq<char>, a: int, b: int, q: int)
    requires
        reaches_plus(n, input, a, b),
        denote(n, input, b, q),
    ensures
        reaches_plus(n, input, a, q),
{
    let ch = choose|ch: Seq<int>| #[trigger] chain_shape(ch, a, b) && chain_ok(n, input, ch);
    let ch2 = ch.push(q);
    assert(chain_ok(n, input, ch2)) by {
        assert forall|i: int| 0 <= i < ch2.len() - 1 implies denote(
            n,
            input,
            #[trigger] ch2[i],
            ch2[i + 1],
        ) by {
            if i < ch.len() - 1 {
                assert(ch2[i] == ch[i] && ch2[i + 1] == ch[i + 1]);
            } else {
                assert(ch2[i] == ch[ch.len() - 1] && ch2[i + 1] == q);
            }
        }
    }
    assert(chain_shape(ch2, a, q));
}

/// Every state of the batch is well formed.
pub open spec fn all_wf(states: Seq<SpecState>, input: Seq<char>) -> bool {
    forall|k: int| 0 <= k < states.len() ==> wf_state(#[trigger] states[k], input)
}

/// For a plain tree, the state-set matcher reaches exactly the end
/// positions the brute-force relational matcher accepts — the state-set
/// optimisation changes no yes/no outcome.
pub proof fn lemma_plain_equivalence(n: SpecRegex, input: Seq<char>, st: SpecState, to: int)
    requires
        plain(n),
        wf_state(st, input),
    ensures
        has_pos(match_states(n, input, st), to) <==> denote(n, input, st.pos, to),
    decreases n, 0int, 0int, 0int,
{
    let ms = match_states(n, input, st);
    match n {
        SpecRegex::Sequence(v) => {
            assert(all_wf(seq![st], input)) by {
                assert(seq![st][0] == st);
            }
            lemma_plain_seq(v, input, seq![st], to);
            assert((exists|k: int|
                0 <= k < seq![st].len() && denote_list(v, input, seq![st][k].pos, to))
                <==> denote_list(v, input, st.pos, to)) by {
                if denote_list(v, input, st.pos, to) {
                    assert(seq![st][0].pos == st.pos);
                }
            }
        },
        SpecRegex::Alternation(v) => {
            lemma_plain_alt(v, input, st, to);
            lemma_canon(alt_states(v, input, st));
        },
        SpecRegex::Repetition { node, kind } => {
            let inner = *node;
            match kind {
                RepeatKind::ZeroOrOne => {
                    lemma_plain_equivalence(inner, input, st, to);
                    let raw = seq![st] + match_states(inner, input, st);
                    lemma_canon(raw);
                    assert(has_pos(raw, to) <==> (to == st.pos || has_pos(
                        match_states(inner, input, st),
                        to,
                    ))) by {
                        let sub = match_states(inner, input, st);
                        if has_pos(raw, to) {
                            let k = choose|k: int| 0 <= k < raw.len() && raw[k].pos == to;
                            if k == 0 {
                                assert(raw[0] == st);
                            } else {
                                assert(raw[k] == sub[k - 1]);
                                assert(has_pos(sub, to)) by {
                                    assert(sub[k - 1].pos == to);
                                }
                            }
                        }
                        if to == st.pos {
                            assert(raw[0].pos == to);
                        }
                        if has_pos(sub, to) {
                            let k = choose|k: int| 0 <= k < sub.len() && sub[k].pos == to;
                            assert(raw[k + 1].pos == to);
                        }
                    }
                },
                RepeatKind::OneOrMore => {
                    let frontier0 = match_states(inner, input, st);
                    let budget0 = input.len() + 1;
                    let fin = plus_states(inner, input, Seq::empty(), frontier0, budget0);
                    lemma_match_states_ok(inner, input, st);
                    assert(ms == fin);
                    assert(denote(n, input, st.pos, to) == reaches_plus(inner, input, st.pos, to));
                    // forward: everything reached has a chain
                    if has_pos(fin, to) {
                        assert(all_wf(frontier0, input));
                        assert forall|k: int| 0 <= k < frontier0.len() implies reaches_plus(
                            inner,
                            input,
                            st.pos,
                            #[trigger] frontier0[k].pos,
                        ) by {
                            lemma_plain_equivalence(inner, input, st, frontier0[k].pos);
                            assert(has_pos(frontier0, frontier0[k].pos)) by {
                                assert(frontier0[k].pos == frontier0[k].pos);
                            }
                            lemma_chain_two(inner, input, st.pos, frontier0[k].pos);
                        }
                        lemma_plus_sound(
                            inner,
                            input,
                            st.pos,
                            Seq::empty(),
                            frontier0,
                            budget0,
                            to,
                        );
                    }
                    // backward: walk the chain through the closed result
                    if denote(n, input, st.pos, to) {
                        assert(reaches_plus(inner, input, st.pos, to));
                        let ch = choose|ch: Seq<int>|
                            #[trigger] chain_shape(ch, st.pos, to) && chain_ok(inner, input, ch);
                        assert(chain_shape(ch, st.pos, to) && chain_ok(inner, input, ch));
                        lemma_chain_reach(inner, input, st, ch, ch.len() - 1);
                        assert(has_pos(fin, ch[ch.len() - 1]));
                    }
                },
            }
        },
        _ => {
            // the single-character nodes: at most one state comes out
            if ms.len() > 0 {
                assert(has_pos(ms, ms[0].pos)) by {
                    assert(ms[0].pos == ms[0].pos);
                }
            }
            if has_pos(ms, to) {
                let k = choose|k: int| 0 <= k < ms.len() && ms[k].pos == to;
                assert(k == 0);
            }
        },
    }
}

pub proof fn lemma_plain_expand(n: SpecRegex, input: Seq<char>, states: Seq<SpecState>, to: int)
    requires
        plain(n),
        all_wf(states, input),
    ensures
        has_pos(expand_states(n, input, states), to) <==> (exists|k: int|
            0 <= k < states.len() && denote(n, input, #[trigger] states[k].pos, to)),
    decreases n, 1int, states.len(), 0int,
{
    if states.len() > 0 {
        let head = states[0];
        let rest = states.drop_first();
        assert(all_wf(rest, input)) by {
            assert(forall|k: int| 0 <= k < rest.len() ==> rest[k] == states[k + 1]);
        }
        lemma_plain_equivalence(n, input, head, to);
        lemma_plain_expand(n, input, rest, to);
        let hs = match_states(n, input, head);
        let ts = expand_states(n, input, rest);
        let out = expand_states(n, input, states);
        assert(out == hs + ts);
        assert(has_pos(out, to) <==> (has_pos(hs, to) || has_pos(ts, to))) by {
            if has_pos(out, to) {
                let k = choose|k: int| 0 <= k < out.len() && out[k].pos == to;
                if k < hs.len() {
                    assert(hs[k].pos == to);
                } else {
                    assert(ts[k - hs.len()].pos == to);
                }
            }
            if has_pos(hs, to) {
                let k = choose|k: int| 0 <= k < hs.len() && hs[k].pos == to;
                assert(out[k].pos == to);
            }
            if has_pos(ts, to) {
                let k = choose|k: int| 0 <= k < ts.len() && ts[k].pos == to;
                assert(out[k + hs.len()].pos == to);
            }
        }
        assert((exists|k: int| 0 <= k < states.len() && denote(n, input, #[trigger] states[k].pos, to))
            <==> (denote(n, input, head.pos, to) || (exists|k: int|
            0 <= k < rest.len() && denote(n, input, #[trigger] rest[k].pos, to)))) by {
            if exists|k: int|
                0 <= k < states.len() && denote(n, input, #[trigger] states[k].pos, to) {
                let k = choose|k: int|
                    0 <= k < states.len() && denote(n, input, #[trigger] states[k].pos, to);
                if k > 0 {
                    assert(rest[k - 1] == states[k]);
                    assert(denote(n, input, rest[k - 1].pos, to));
                }
            }
            if exists|k: int| 0 <= k < rest.len() && denote(n, input, #[trigger] rest[k].pos, to) {
                let k = choose|k: int|
                    0 <= k < rest.len() && denote(n, input, #[trigger] rest[k].pos, to);
                assert(states[k + 1] == rest[k]);
                assert(denote(n, input, states[k + 1].pos, to));
            }
            if denote(n, input, head.pos, to) {
                assert(denote(n, input, states[0].pos, to));
            }
        }
    }
}

pub proof fn lemma_plain_seq(
    nodes: Seq<SpecRegex>,
    input: Seq<char>,
    states: Seq<SpecState>,
    to: int,
)
    requires
        plain_list(nodes),
        all_wf(states, input),
    ensures
        has_pos(seq_states(nodes, input, states), to) <==> (exists|k: int|
            0 <= k < states.len() && denote_list(nodes, input, #[trigger] states[k].pos, to)),
    decreases nodes, 2int, 0int, 0int,
{
    if nodes.len() == 0 {
        assert(seq_states(nodes, input, states) == states);
        if has_pos(states, to) {
            let k = choose|k: int| 0 <= k < states.len() && states[k].pos == to;
            assert(denote_list(nodes, input, states[k].pos, to));
        }
    } else {
        let head = nodes[0];
        let rest = nodes.drop_first();
        lemma_plain_expand(head, input, states, to);
        let raw = expand_states(head, input, states);
        lemma_canon(raw);
        let nxt = canon_states(raw);
        assert(all_wf(nxt, input)) by {
            assert forall|k: int| 0 <= k < nxt.len() implies wf_state(
                #[trigger] nxt[k],
                input,
            ) by {
                assert(nxt.contains(nxt[k]));
                assert(raw.contains(nxt[k]));
                let w = choose|w: int| 0 <= w < raw.len() && raw[w] == nxt[k];
                lemma_expand_wf_at(head, input, states, w);
            }
        }
        // the positions surviving deduplication are exactly the reachable mids
        assert(forall|mid: int| has_pos(nxt, mid) <==> has_pos(raw, mid));
        if nxt.len() == 0 {
            assert(seq_states(nodes, input, states) == Seq::<SpecState>::empty());
            if exists|k: int|
                0 <= k < states.len() && denote_list(nodes, input, #[trigger] states[k].pos, to) {
                let k = choose|k: int|
                    0 <= k < states.len() && denote_list(nodes, input, #[trigger] states[k].pos, to);
                let mid = choose|mid: int|
                    #[trigger] split_point(mid) && denote(nodes[0], input, states[k].pos, mid)
                        && denote_list(nodes.drop_first(), input, mid, to);
                lemma_plain_expand(head, input, states, mid);
                assert(has_pos(raw, mid)) by {
                    assert(denote(head, input, states[k].pos, mid));
                }
                assert(false);
            }
            if has_pos(Seq::<SpecState>::empty(), to) {
                let k = choose|k: int| 0 <= k < 0 && Seq::<SpecState>::empty()[k].pos == to;
                assert(false);
            }
        } else {
            assert(plain_list(rest));
            lemma_plain_seq(rest, input, nxt, to);
            assert(seq_states(nodes, input, states) == seq_states(rest, input, nxt));
            // tie the two existentials together
            assert((exists|k: int|
                0 <= k < nxt.len() && denote_list(rest, input, #[trigger] nxt[k].pos, to)) <==> (
            exists|k: int|
                0 <= k < states.len() && denote_list(nodes, input, #[trigger] states[k].pos, to)))
                by {
                if exists|k: int|
                    0 <= k < nxt.len() && denote_list(rest, input, #[trigger] nxt[k].pos, to) {
                    let k = choose|k: int|
                        0 <= k < nxt.len() && denote_list(rest, input, #[trigger] nxt[k].pos, to);
                    let mid = nxt[k].pos;
                    assert(has_pos(nxt, mid)) by {
                        assert(nxt[k].pos == mid);
                    }
                    assert(has_pos(raw, mid));
                    lemma_plain_expand(head, input, states, mid);
                    let k2 = choose|k2: int|
                        0 <= k2 < states.len() && denote(head, input, #[trigger] states[k2].pos, mid);
                    assert(denote_list(nodes, input, states[k2].pos, to)) by {
                        assert(split_point(mid));
                        assert(denote(nodes[0], input, states[k2].pos, mid));
                        assert(denote_list(nodes.drop_first(), input, mid, to));
                    }
                }
                if exists|k: int|
                    0 <= k < states.len() && denote_list(nodes, input, #[trigger] states[k].pos, to) {
                    let k = choose|k: int|
                        0 <= k < states.len() && denote_list(
                            nodes,
                            input,
                            #[trigger] states[k].pos,
                            to,
                        );
                    let mid = choose|mid: int|
                        #[trigger] split_point(mid) && denote(nodes[0], input, states[k].pos, mid)
                            && denote_list(nodes.drop_first(), input, mid, to);
                    lemma_plain_expand(head, input, states, mid);
                    assert(has_pos(raw, mid)) by {
                        assert(denote(head, input, states[k].pos, mid));
                    }
                    assert(has_pos(nxt, mid));
                    let k3 = choose|k3: int| 0 <= k3 < nxt.len() && nxt[k3].pos == mid;
                    assert(denote_list(rest, input, nxt[k3].pos, to));
                }
            }
        }
    }
}

/// A helper pinning one element of an expansion as well formed.
proof fn lemma_expand_wf_at(n: SpecRegex, input: Seq<char>, states: Seq<SpecState>, w: int)
    requires
        all_wf(states, input),
        0 <= w < expand_states(n, input, states).len(),
    ensures
        wf_state(expand_states(n, input, states)[w], input),
    decreases n, 1int, states.len(), 1int,
{
    if states.len() > 0 {
        let head = states[0];
        let rest = states.drop_first();
        let hs = match_states(n, input, head);
        let ts = expand_states(n, input, rest);
        assert(expand_states(n, input, states) == hs + ts);
        if w < hs.len() {
            lemma_match_states_ok(n, input, head);
            assert(expand_states(n, input, states)[w] == hs[w]);
        } else {
            assert(all_wf(rest, input)) by {
                assert(forall|k: int| 0 <= k < rest.len() ==> rest[k] == states[k + 1]);
            }
            lemma_expand_wf_at(n, input, rest, w - hs.len());
            assert(expand_states(n, input, states)[w] == ts[w - hs.len()]);
        }
    }
}

pub proof fn lemma_plain_alt(branches: Seq<SpecRegex>, input: Seq<char>, st: SpecState, to: int)
    requires
        plain_list(branches),
        wf_state(st, input),
    ensures
        has_pos(alt_states(branches, input, st), to) <==> denote_any(
            branches,
            input,
            st.pos,
            to,
        ),
    decreases branches, 2int, 0int, 0int,
{
    if branches.len() > 0 {
        let head = branches[0];
        let rest = branches.drop_first();
        lemma_plain_equivalence(head, input, st, to);
        lemma_plain_alt(rest, input, st, to);
        let hs = match_states(head, input, st);
        let ts = alt_states(rest, input, st);
        let out = alt_states(branches, input, st);
        assert(out == hs + ts);
        assert(has_pos(out, to) <==> (has_pos(hs, to) || has_pos(ts, to))) by {
            if has_pos(out, to) {
                let k = choose|k: int| 0 <= k < out.len() && out[k].pos == to;
                if k < hs.len() {
                    assert(hs[k].pos == to);
                } else {
                    assert(ts[k - hs.len()].pos == to);
                }
            }
            if has_pos(hs, to) {
                let k = choose|k: int| 0 <= k < hs.len() && hs[k].pos == to;
                assert(out[k].pos == to);
            }
            if has_pos(ts, to) {
                let k = choose|k: int| 0 <= k < ts.len() && ts[k].pos == to;
                assert(out[k + hs.len()].pos == to);
            }
        }
    }
}

/// Soundness of the work list: everything it retains is chain-reachable.
pub proof fn lemma_plus_sound(
    inner: SpecRegex,
    input: Seq<char>,
    from0: int,
    results: Seq<SpecState>,
    queue: Seq<SpecState>,
    budget: nat,
    to: int,
)
    requires
        plain(inner),
        all_wf(results, input),
        all_wf(queue, input),
        forall|k: int|
            0 <= k < results.len() ==> reaches_plus(inner, input, from0, #[trigger] results[k].pos),
        forall|k: int|
            0 <= k < queue.len() ==> reaches_plus(inner, input, from0, #[trigger] queue[k].pos),
        has_pos(plus_states(inner, input, results, queue, budget), to),
    ensures
        reaches_plus(inner, input, from0, to),
    decreases inner, 2int, budget, queue.len(),
{
    if queue.len() == 0 {
        let k = choose|k: int| 0 <= k < results.len() && results[k].pos == to;
    } else {
        let head = queue[0];
        let rest = queue.drop_first();
        assert(all_wf(rest, input) && forall|k: int|
            0 <= k < rest.len() ==> reaches_plus(inner, input, from0, #[trigger] rest[k].pos)) by {
            assert(forall|k: int| 0 <= k < rest.len() ==> rest[k] == queue[k + 1]);
        }
        if has_pos(results, head.pos) {
            lemma_plus_sound(inner, input, from0, results, rest, budget, to);
        } else if budget == 0 {
            let k = choose|k: int| 0 <= k < results.len() && results[k].pos == to;
        } else {
            let exp = match_states(inner, input, head);
            lemma_match_states_ok(inner, input, head);
            let nq = rest + exp;
            assert(all_wf(nq, input) && forall|k: int|
                0 <= k < nq.len() ==> reaches_plus(inner, input, from0, #[trigger] nq[k].pos)) by {
                assert forall|k: int| 0 <= k < nq.len() implies wf_state(#[trigger] nq[k], input)
                    && reaches_plus(inner, input, from0, nq[k].pos) by {
                    if k < rest.len() {
                        assert(nq[k] == rest[k]);
                    } else {
                        assert(nq[k] == exp[k - rest.len()]);
                        lemma_plain_equivalence(inner, input, head, nq[k].pos);
                        assert(has_pos(exp, nq[k].pos)) by {
                            assert(exp[k - rest.len()].pos == nq[k].pos);
                        }
                        lemma_chain_extend(inner, input, from0, head.pos, nq[k].pos);
                    }
                }
            }
            assert(all_wf(results.push(head), input) && forall|k: int|
                0 <= k < results.push(head).len() ==> reaches_plus(
                    inner,
                    input,
                    from0,
                    #[trigger] results.push(head)[k].pos,
                )) by {
                assert(forall|k: int|
                    0 <= k < results.len() ==> results.push(head)[k] == results[k]);
                assert(results.push(head)[results.len() as int] == head);
            }
            lemma_plus_sound(
                inner,
                input,
                from0,
                results.push(head),
                nq,
                (budget - 1) as nat,
                to,
            );
        }
    }
}

/// Completeness scaffolding: the work list keeps what it has seen, and the
/// final set is closed under one more application of the node.
pub proof fn lemma_plus_closed(
    inner: SpecRegex,
    input: Seq<char>,
    results: Seq<SpecState>,
    queue: Seq<SpecState>,
    budget: nat,
)
    requires
        plain(inner),
        all_wf(results, input),
        all_wf(queue, input),
        forall|a: int, b: int| 0 <= a < b < results.len() ==> results[a].pos != results[b].pos,
        budget >= input.len() + 1 - results.len(),
        forall|k: int, q: int|
            0 <= k < results.len() && #[trigger] denote(inner, input, results[k].pos, q)
                ==> has_pos(results, q) || has_pos(queue, q),
    ensures
        forall|p: int|
            has_pos(results, p) ==> has_pos(
                plus_states(inner, input, results, queue, budget),
                p,
            ),
        forall|p: int|
            has_pos(queue, p) ==> has_pos(plus_states(inner, input, results, queue, budget), p),
        forall|p: int, q: int|
            has_pos(#[trigger] plus_states(inner, input, results, queue, budget), p) && denote(
                inner,
                input,
                p,
                q,
            ) ==> has_pos(plus_states(inner, input, results, queue, budget), q),
    decreases inner, 2int, budget, queue.len(),
{
    let fin = plus_states(inner, input, results, queue, budget);
    if queue.len() == 0 {
        assert(fin == results);
        assert forall|p: int, q: int|
            has_pos(#[trigger] plus_states(inner, input, results, queue, budget), p) && denote(
                inner,
                input,
                p,
                q,
            ) implies has_pos(fin, q) by {
            let k = choose|k: int| 0 <= k < results.len() && results[k].pos == p;
            assert(denote(inner, input, results[k].pos, q));
            if has_pos(queue, q) {
                let w = choose|w: int| 0 <= w < queue.len() && queue[w].pos == q;
                assert(false);
            }
        }
    } else {
        let head = queue[0];
        let rest = queue.drop_first();
        assert(all_wf(rest, input)) by {
            assert(forall|k: int| 0 <= k < rest.len() ==> rest[k] == queue[k + 1]);
        }
        if has_pos(results, head.pos) {
            assert(fin == plus_states(inner, input, results, rest, budget));
            assert(forall|k: int, q: int|
                0 <= k < results.len() && #[trigger] denote(inner, input, results[k].pos, q)
                    ==> has_pos(results, q) || has_pos(rest, q)) by {
                assert forall|k: int, q: int|
                    0 <= k < results.len() && #[trigger] denote(inner, input, results[k].pos, q)
                        && !has_pos(results, q) implies has_pos(rest, q) by {
                    let w = choose|w: int| 0 <= w < queue.len() && queue[w].pos == q;
                    assert(w != 0);
                    assert(rest[w - 1].pos == q);
                }
            }
            lemma_plus_closed(inner, input, results, rest, budget);
            assert forall|p: int| has_pos(queue, p) implies has_pos(fin, p) by {
                let w = choose|w: int| 0 <= w < queue.len() && queue[w].pos == p;
                if w == 0 {
                    assert(has_pos(results, p));
                } else {
                    assert(rest[w - 1].pos == p);
                    assert(has_pos(rest, p));
                }
            }
        } else {
            // the budget cannot be exhausted: the retained positions are
            // distinct and all lie inside the input
            let grown = results.push(head);
            assert(forall|a: int, b: int|
                0 <= a < b < grown.len() ==> grown[a].pos != grown[b].pos) by {
                assert forall|a: int, b: int|
                    0 <= a < b < grown.len() implies grown[a].pos != grown[b].pos by {
                    if b == grown.len() - 1 {
                        assert(grown[a] == results[a]);
                        assert(grown[b] == head);
                    } else {
                        assert(grown[a] == results[a] && grown[b] == results[b]);
                    }
                }
            }
            assert(forall|a: int|
                0 <= a < grown.len() ==> 0 <= #[trigger] grown[a].pos <= input.len()) by {
                assert(forall|a: int| 0 <= a < results.len() ==> grown[a] == results[a]);
                assert(grown[grown.len() - 1] == head);
            }
            lemma_distinct_positions_bound(grown, input.len() as int);
            assert(budget >= 1);
            let exp = match_states(inner, input, head);
            lemma_match_states_ok(inner, input, head);
            let nq = rest + exp;
            assert(fin == plus_states(inner, input, grown, nq, (budget - 1) as nat));
            assert(all_wf(nq, input)) by {
                assert forall|k: int| 0 <= k < nq.len() implies wf_state(
                    #[trigger] nq[k],
                    input,
                ) by {
                    if k < rest.len() {
                        assert(nq[k] == rest[k]);
                    } else {
                        assert(nq[k] == exp[k - rest.len()]);
                    }
                }
            }
            assert(all_wf(grown, input)) by {
                assert(forall|k: int| 0 <= k < results.len() ==> grown[k] == results[k]);
                assert(grown[grown.len() - 1] == head);
            }
            assert(forall|k: int, q: int|
                0 <= k < grown.len() && #[trigger] denote(inner, input, grown[k].pos, q)
                    ==> has_pos(grown, q) || has_pos(nq, q)) by {
                assert forall|k: int, q: int|
                    0 <= k < grown.len() && #[trigger] denote(inner, input, grown[k].pos, q)
                        && !has_pos(grown, q) implies has_pos(nq, q) by {
                    if k < results.len() {
                        assert(grown[k] == results[k]);
                        assert(!has_pos(results, q)) by {
                            if has_pos(results, q) {
                                let w = choose|w: int|
                                    0 <= w < results.len() && results[w].pos == q;
                                assert(grown[w].pos == q);
                            }
                        }
                        assert(has_pos(queue, q));
                        let w = choose|w: int| 0 <= w < queue.len() && queue[w].pos == q;
                        if w == 0 {
                            assert(grown[grown.len() - 1].pos == q);
                            assert(false);
                        }
                        assert(rest[w - 1].pos == q);
                        assert(nq[w - 1].pos == q);
                    } else {
                        assert(grown[k] == head);
                        lemma_plain_equivalence(inner, input, head, q);
                        assert(has_pos(exp, q));
                        let w = choose|w: int| 0 <= w < exp.len() && exp[w].pos == q;
                        assert(nq[rest.len() + w].pos == q);
                    }
                }
            }
            lemma_plus_closed(inner, input, grown, nq, (budget - 1) as nat);
            assert forall|p: int| has_pos(results, p) implies has_pos(fin, p) by {
                let w = choose|w: int| 0 <= w < results.len() && results[w].pos == p;
                assert(grown[w].pos == p);
                assert(has_pos(grown, p));
            }
            assert forall|p: int| has_pos(queue, p) implies has_pos(fin, p) by {
                let w = choose|w: int| 0 <= w < queue.len() && queue[w].pos == p;
                if w == 0 {
                    assert(grown[grown.len() - 1].pos == p);
                    assert(has_pos(grown, p));
                } else {
                    assert(rest[w - 1].pos == p);
                    assert(nq[w - 1].pos == p);
                    assert(has_pos(nq, p));
                }
            }
        }
    }
}

/// Walking a chain: every position the chain passes, from the first
/// application on, ends up in the work list's result.
pub proof fn lemma_chain_reach(
    inner: SpecRegex,
    input: Seq<char>,
    st0: SpecState,
    ch: Seq<int>,
    i: int,
)
    requires
        plain(inner),
        wf_state(st0, input),
        chain_ok(inner, input, ch),
        ch.len() >= 2,
        ch[0] == st0.pos,
        1 <= i < ch.len(),
    ensures
        has_pos(
            plus_states(
                inner,
                input,
                Seq::empty(),
                match_states(inner, input, st0),
                input.len() + 1,
            ),
            ch[i],
        ),
    decreases inner, 3int, i, 0int,
{
    let frontier0 = match_states(inner, input, st0);
    let budget0 = input.len() + 1;
    lemma_match_states_ok(inner, input, st0);
    assert(all_wf(frontier0, input));
    lemma_plus_closed(inner, input, Seq::empty(), frontier0, budget0);
    if i == 1 {
        assert(denote(inner, input, ch[0], ch[1]));
        lemma_plain_equivalence(inner, input, st0, ch[1]);
        assert(has_pos(frontier0, ch[1]));
    } else {
        lemma_chain_reach(inner, input, st0, ch, i - 1);
        assert(denote(inner, input, ch[i - 1], ch[i]));
    }
}

} // verus!
