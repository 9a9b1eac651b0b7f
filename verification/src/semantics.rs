use vstd::prelude::*;

use crate::ast::{RepeatKind, SpecRegex};

verus! {

/// One matcher state: a candidate position in the input together with the
/// capture table. Slot `i` of the table holds the half-open span most
/// recently captured by group `i`, or `None` while that group has not
/// matched; slot 0 is never written and stands for "no group".
#[verifier::ext_equal]
pub struct SpecState {
    pub pos: int,
    pub caps: Seq<Option<(int, int)>>,
}

/// A state is well formed for an input when its position lies inside the
/// input (the position one past the last character included) and every
/// recorded span is an ordered pair of such positions.
pub open spec fn wf_state(st: SpecState, input: Seq<char>) -> bool {
    &&& 0 <= st.pos <= input.len()
    &&& forall|i: int|
        0 <= i < st.caps.len() ==> match #[trigger] st.caps[i] {
            Some((s, e)) => 0 <= s <= e <= input.len(),
            None => true,
        }
}

/// The state one or more characters further into the input, captures kept.
pub open spec fn advance_state(st: SpecState, n: int) -> SpecState {
    SpecState { pos: st.pos + n, caps: st.caps }
}

/// Records into slot `id` the span from `start` to the state's position,
/// overwriting any earlier span; a slot outside the table is left alone.
pub open spec fn write_cap(st: SpecState, id: int, start: int) -> SpecState {
    if 0 <= id < st.caps.len() {
        SpecState { pos: st.pos, caps: st.caps.update(id, Some((start, st.pos))) }
    } else {
        st
    }
}

/// A fresh capture table: one unset slot per identifier, slot 0 included.
pub open spec fn init_caps(slots: int) -> Seq<Option<(int, int)>> {
    Seq::new(slots as nat, |i: int| None)
}

/// The state a top-level match attempt starts from: the start offset and a
/// capture table sized by the largest group identifier in the tree.
pub open spec fn init_state(n: SpecRegex, start: int) -> SpecState {
    SpecState { pos: start, caps: init_caps(crate::ast::spec_max_group_id(n) + 1) }
}

/// The end positions of a batch of states, in batch order.
pub open spec fn end_positions(states: Seq<SpecState>) -> Seq<int> {
    states.map(|i: int, s: SpecState| s.pos)
}

/// Whether some state in the sequence ends at position `p`.
pub open spec fn has_pos(states: Seq<SpecState>, p: int) -> bool {
    exists|i: int| 0 <= i < states.len() && states[i].pos == p
}

/// One decimal digit, `0` through `9`.
pub open spec fn spec_is_digit(c: char) -> bool {
    '0' <= c && c <= '9'
}

/// What `char::is_alphanumeric` returns; a function of the character alone.
pub uninterp spec fn spec_alphanumeric(c: char) -> bool;

/// Relies on `char::is_alphanumeric` from std: whether the character is in
/// one of the Unicode `Alphabetic` or `Number` categories. The full table
/// is not restated here; the result is named `spec_alphanumeric` and
/// depends on the character alone.
pub assume_specification[ char::is_alphanumeric ](c: char) -> (r: bool)
    ensures
        r == spec_alphanumeric(c),
;

/// A word character: alphanumeric or underscore.
pub open spec fn spec_is_word(c: char) -> bool {
    spec_alphanumeric(c) || c == '_'
}

/// Inserts a state into a list kept sorted by position and holding at most
/// one state per position; when the position is already present the state
/// already held survives and the new one is dropped.
pub open spec fn insert_state(acc: Seq<SpecState>, st: SpecState) -> Seq<SpecState>
    decreases acc.len(),
{
    if acc.len() == 0 {
        seq![st]
    } else if acc[0].pos == st.pos {
        acc
    } else if st.pos < acc[0].pos {
        seq![st] + acc
    } else {
        seq![acc[0]] + insert_state(acc.drop_first(), st)
    }
}

pub open spec fn canon_into(acc: Seq<SpecState>, states: Seq<SpecState>) -> Seq<SpecState>
    decreases states.len(),
{
    if states.len() == 0 {
        acc
    } else {
        canon_into(insert_state(acc, states[0]), states.drop_first())
    }
}

/// Deduplicates a batch of states by end position — of two states that end
/// at the same position only the first produced survives — and orders the
/// survivors by position.
pub open spec fn canon_states(states: Seq<SpecState>) -> Seq<SpecState> {
    canon_into(Seq::empty(), states)
}

/// All states reachable by matching the node once from state `st`.
///
/// This is the state-set exploration: each construct takes every state it
/// is handed and returns every state reachable by consuming the construct
/// once, rather than picking one path and backtracking.
pub open spec fn match_states(n: SpecRegex, input: Seq<char>, st: SpecState) -> Seq<SpecState>
    decreases n, 0int, 0int, 0int,
{
    match n {
        SpecRegex::Literal(c) => {
            if 0 <= st.pos < input.len() && input[st.pos] == c {
                seq![advance_state(st, 1)]
            } else {
                Seq::empty()
            }
        },
        SpecRegex::AnyChar => {
            if 0 <= st.pos < input.len() {
                seq![advance_state(st, 1)]
            } else {
                Seq::empty()
            }
        },
        SpecRegex::DigitClass => {
            if 0 <= st.pos < input.len() && spec_is_digit(input[st.pos]) {
                seq![advance_state(st, 1)]
            } else {
                Seq::empty()
            }
        },
        SpecRegex::WordClass => {
            if 0 <= st.pos < input.len() && spec_is_word(input[st.pos]) {
                seq![advance_state(st, 1)]
            } else {
                Seq::empty()
            }
        },
        SpecRegex::CharSet { chars, negated } => {
            if 0 <= st.pos < input.len() && chars.contains(input[st.pos]) != negated {
                seq![advance_state(st, 1)]
            } else {
                Seq::empty()
            }
        },
        SpecRegex::StartAnchor => {
            if st.pos == 0 {
                seq![st]
            } else {
                Seq::empty()
            }
        },
        SpecRegex::EndAnchor => {
            if st.pos == input.len() {
                seq![st]
            } else {
                Seq::empty()
            }
        },
        SpecRegex::Group { id, node } => {
            match_states(*node, input, st).map(|i, ns: SpecState| write_cap(ns, id, st.pos))
        },
        SpecRegex::Backreference { id } => {
            if 0 <= id < st.caps.len() {
                match st.caps[id] {
                    Some((s, e)) => {
                        let l = e - s;
                        if st.pos + l <= input.len() && input.subrange(s, e) == input.subrange(
                            st.pos,
                            st.pos + l,
                        ) {
                            seq![advance_state(st, l)]
                        } else {
                            Seq::empty()
                        }
                    },
                    None => Seq::empty(),
                }
            } else {
                Seq::empty()
            }
        },
        SpecRegex::Sequence(nodes) => seq_states(nodes, input, seq![st]),
        SpecRegex::Alternation(branches) => canon_states(alt_states(branches, input, st)),
        SpecRegex::Repetition { node, kind } => match kind {
            RepeatKind::ZeroOrOne => canon_states(seq![st] + match_states(*node, input, st)),
            RepeatKind::OneOrMore => plus_states(
                *node,
                input,
                Seq::empty(),
                match_states(*node, input, st),
                input.len() + 1,
            ),
        },
    }
}

/// All states reachable by matching the node once from each of `states`,
/// concatenated in order.
pub open spec fn expand_states(n: SpecRegex, input: Seq<char>, states: Seq<SpecState>) -> Seq<
    SpecState,
>
    decreases n, 1int, states.len(), 0int,
{
    if states.len() == 0 {
        Seq::empty()
    } else {
        match_states(n, input, states[0]) + expand_states(n, input, states.drop_first())
    }
}

/// Folds a concatenation left to right over a set of states: after each
/// child only the deduplicated union of the states reachable through that
/// child survives, and an empty survivor set cuts the fold short.
pub open spec fn seq_states(nodes: Seq<SpecRegex>, input: Seq<char>, states: Seq<SpecState>) -> Seq<
    SpecState,
>
    decreases nodes, 0int, 0int, 0int,
{
    if nodes.len() == 0 {
        states
    } else {
        let nxt = canon_states(expand_states(nodes[0], input, states));
        if nxt.len() == 0 {
            Seq::empty()
        } else {
            seq_states(nodes.drop_first(), input, nxt)
        }
    }
}

/// States reachable through each alternation branch independently from the
/// same state, concatenated in branch order.
pub open spec fn alt_states(branches: Seq<SpecRegex>, input: Seq<char>, st: SpecState) -> Seq<
    SpecState,
>
    decreases branches, 0int, 0int, 0int,
{
    if branches.len() == 0 {
        Seq::empty()
    } else {
        match_states(branches[0], input, st) + alt_states(branches.drop_first(), input, st)
    }
}

/// The fixed point of one-or-more repetition, explored as a work list.
///
/// `results` accumulates one state per distinct end position; `queue` holds
/// the states still to examine. A queued state whose position was already
/// reached is dropped without being expanded again — this is the explicit
/// guard that keeps the loop finite even when the inner node can match
/// without consuming a character. `budget` bounds the number of new
/// positions still admissible; it never runs out when the starting state is
/// well formed, since positions never leave `0 ..= input.len()`.
pub open spec fn plus_states(
    inner: SpecRegex,
    input: Seq<char>,
    results: Seq<SpecState>,
    queue: Seq<SpecState>,
    budget: nat,
) -> Seq<SpecState>
    decreases inner, 2int, budget, queue.len(),
{
    if queue.len() == 0 {
        results
    } else {
        let st = queue[0];
        if has_pos(results, st.pos) {
            plus_states(inner, input, results, queue.drop_first(), budget)
        } else if budget == 0 {
            results
        } else {
            plus_states(
                inner,
                input,
                results.push(st),
                queue.drop_first() + match_states(inner, input, st),
                (budget - 1) as nat,
            )
        }
    }
}

/// A batch with strictly increasing positions: sorted, one state per
/// position.
pub open spec fn sorted_distinct(states: Seq<SpecState>) -> bool {
    forall|i: int, j: int| 0 <= i < j < states.len() ==> states[i].pos < states[j].pos
}

/// Every state that inserting yields was already held or is the new one.
pub proof fn lemma_insert_contains(acc: Seq<SpecState>, st: SpecState)
    ensures
        forall|x: SpecState| #[trigger]
            insert_state(acc, st).contains(x) ==> acc.contains(x) || x == st,
        insert_state(acc, st).len() >= 1,
    decreases acc.len(),
{
    let out = insert_state(acc, st);
    if acc.len() == 0 || acc[0].pos == st.pos || st.pos < acc[0].pos {
        assert forall|x: SpecState| #[trigger] out.contains(x) implies acc.contains(x)
            || x == st by {
            let i = choose|i: int| 0 <= i < out.len() && out[i] == x;
            if acc.len() > 0 && acc[0].pos != st.pos && st.pos < acc[0].pos && i > 0 {
                assert(acc[i - 1] == x);
            }
        }
    } else {
        let rest = acc.drop_first();
        lemma_insert_contains(rest, st);
        let sub = insert_state(rest, st);
        assert forall|x: SpecState| #[trigger] out.contains(x) implies acc.contains(x)
            || x == st by {
            let i = choose|i: int| 0 <= i < out.len() && out[i] == x;
            if i == 0 {
                assert(acc[0] == x);
            } else {
                assert(sub[i - 1] == x);
                assert(sub.contains(x));
                if rest.contains(x) {
                    let k = choose|k: int| 0 <= k < rest.len() && rest[k] == x;
                    assert(acc[k + 1] == x);
                }
            }
        }
    }
}

/// Inserting reaches exactly the old positions plus the new state's.
pub proof fn lemma_insert_has_pos(acc: Seq<SpecState>, st: SpecState, p: int)
    ensures
        has_pos(insert_state(acc, st), p) <==> (has_pos(acc, p) || p == st.pos),
    decreases acc.len(),
{
    let out = insert_state(acc, st);
    if acc.len() == 0 {
        assert(out[0] == st);
        if has_pos(out, p) {
            let i = choose|i: int| 0 <= i < out.len() && out[i].pos == p;
            assert(i == 0);
        }
    } else if acc[0].pos == st.pos {
        assert(has_pos(acc, st.pos)) by {
            assert(acc[0].pos == st.pos);
        }
    } else if st.pos < acc[0].pos {
        assert(out == seq![st] + acc);
        if has_pos(out, p) {
            let i = choose|i: int| 0 <= i < out.len() && out[i].pos == p;
            if i > 0 {
                assert(acc[i - 1].pos == p);
            }
        }
        if p == st.pos {
            assert(out[0].pos == p);
        }
        if has_pos(acc, p) {
            let i = choose|i: int| 0 <= i < acc.len() && acc[i].pos == p;
            assert(out[i + 1].pos == p);
        }
    } else {
        let rest = acc.drop_first();
        lemma_insert_has_pos(rest, st, p);
        let sub = insert_state(rest, st);
        assert(out == seq![acc[0]] + sub);
        if has_pos(out, p) {
            let i = choose|i: int| 0 <= i < out.len() && out[i].pos == p;
            if i == 0 {
                assert(acc[0].pos == p);
            } else {
                assert(has_pos(sub, p)) by {
                    assert(sub[i - 1].pos == p);
                }
                if has_pos(rest, p) {
                    let k = choose|k: int| 0 <= k < rest.len() && rest[k].pos == p;
                    assert(acc[k + 1].pos == p);
                }
            }
        }
        if p == acc[0].pos {
            assert(out[0].pos == p);
        } else if has_pos(acc, p) || p == st.pos {
            if has_pos(acc, p) {
                let k = choose|k: int| 0 <= k < acc.len() && acc[k].pos == p;
                assert(k != 0);
                assert(rest[k - 1].pos == p);
                assert(has_pos(rest, p));
            }
            assert(has_pos(sub, p));
            let k = choose|k: int| 0 <= k < sub.len() && sub[k].pos == p;
            assert(out[k + 1].pos == p);
        }
    }
}

/// On a sorted batch, inserting keeps the order, and an already taken
/// position leaves the batch unchanged.
pub proof fn lemma_insert_sorted(acc: Seq<SpecState>, st: SpecState)
    requires
        sorted_distinct(acc),
    ensures
        sorted_distinct(insert_state(acc, st)),
        has_pos(acc, st.pos) ==> insert_state(acc, st) == acc,
        !has_pos(acc, st.pos) ==> insert_state(acc, st).len() == acc.len() + 1,
    decreases acc.len(),
{
    let out = insert_state(acc, st);
    if acc.len() == 0 {
        assert(!has_pos(acc, st.pos));
    } else if acc[0].pos == st.pos {
        assert(has_pos(acc, st.pos)) by {
            assert(acc[0].pos == st.pos);
        }
    } else if st.pos < acc[0].pos {
        assert(out == seq![st] + acc);
        if has_pos(acc, st.pos) {
            let k = choose|k: int| 0 <= k < acc.len() && acc[k].pos == st.pos;
            assert(acc[0].pos <= acc[k].pos);
            assert(false);
        }
    } else {
        let rest = acc.drop_first();
        assert(sorted_distinct(rest)) by {
            assert(forall|i: int, j: int|
                0 <= i < j < rest.len() ==> rest[i] == acc[i + 1] && rest[j] == acc[j + 1]);
        }
        lemma_insert_sorted(rest, st);
        lemma_insert_contains(rest, st);
        let sub = insert_state(rest, st);
        assert(out == seq![acc[0]] + sub);
        assert forall|i: int, j: int| 0 <= i < j < out.len() implies out[i].pos < out[j].pos by {
            if i == 0 {
                assert(out[j] == sub[j - 1]);
                assert(sub.contains(sub[j - 1])) by {
                    assert(sub[j - 1] == sub[j - 1]);
                }
                if sub[j - 1] == st {
                    assert(acc[0].pos < st.pos);
                } else {
                    assert(rest.contains(sub[j - 1]));
                    let k = choose|k: int| 0 <= k < rest.len() && rest[k] == sub[j - 1];
                    assert(acc[0].pos < acc[k + 1].pos);
                }
            } else {
                assert(out[i] == sub[i - 1] && out[j] == sub[j - 1]);
            }
        }
        assert(has_pos(acc, st.pos) <==> has_pos(rest, st.pos)) by {
            if has_pos(acc, st.pos) {
                let k = choose|k: int| 0 <= k < acc.len() && acc[k].pos == st.pos;
                assert(k != 0);
                assert(rest[k - 1].pos == st.pos);
            }
            if has_pos(rest, st.pos) {
                let k = choose|k: int| 0 <= k < rest.len() && rest[k].pos == st.pos;
                assert(acc[k + 1].pos == st.pos);
            }
        }
        if has_pos(acc, st.pos) {
            assert(out =~= acc);
        }
    }
}

/// Where the new state lands: at the first index whose position is not
/// below the new one — or nowhere, when that index already carries the
/// same position.
pub proof fn lemma_insert_state_at(acc: Seq<SpecState>, st: SpecState, k: int)
    requires
        sorted_distinct(acc),
        0 <= k <= acc.len(),
        forall|j: int| 0 <= j < k ==> acc[j].pos < st.pos,
        k < acc.len() ==> acc[k].pos >= st.pos,
    ensures
        insert_state(acc, st) == if k < acc.len() && acc[k].pos == st.pos {
            acc
        } else {
            acc.insert(k, st)
        },
    decreases acc.len(),
{
    if acc.len() == 0 {
        assert(insert_state(acc, st) =~= acc.insert(0, st));
    } else if k == 0 {
        if acc[0].pos == st.pos {
        } else {
            assert(st.pos < acc[0].pos);
            assert(insert_state(acc, st) =~= acc.insert(0, st));
        }
    } else {
        assert(acc[0].pos < st.pos);
        let rest = acc.drop_first();
        assert(sorted_distinct(rest)) by {
            assert(forall|i: int, j: int|
                0 <= i < j < rest.len() ==> rest[i] == acc[i + 1] && rest[j] == acc[j + 1]);
        }
        assert(forall|j: int| 0 <= j < k - 1 ==> #[trigger] rest[j].pos == acc[j + 1].pos);
        lemma_insert_state_at(rest, st, k - 1);
        if k < acc.len() && acc[k].pos == st.pos {
            assert(rest[k - 1].pos == st.pos);
            assert(insert_state(acc, st) =~= acc);
        } else {
            assert(insert_state(rest, st) == rest.insert(k - 1, st));
            assert(insert_state(acc, st) =~= acc.insert(k, st));
        }
    }
}

/// Lifts `lemma_insert_state` over a whole batch: deduplication keeps the
/// positions reached, keeps every survivor a member of what went in, and
/// never invents a state.
pub proof fn lemma_canon_into(acc: Seq<SpecState>, states: Seq<SpecState>)
    requires
        sorted_distinct(acc),
    ensures
        sorted_distinct(canon_into(acc, states)),
        forall|x: SpecState| #[trigger]
            canon_into(acc, states).contains(x) ==> acc.contains(x) || states.contains(x),
        forall|p: int|
            has_pos(canon_into(acc, states), p) <==> (has_pos(acc, p) || has_pos(states, p)),
        canon_into(acc, states).len() <= acc.len() + states.len(),
        canon_into(acc, states).len() >= acc.len(),
    decreases states.len(),
{
    if states.len() > 0 {
        let st = states[0];
        let rest = states.drop_first();
        lemma_insert_contains(acc, st);
        lemma_insert_sorted(acc, st);
        let ins = insert_state(acc, st);
        assert(ins.len() <= acc.len() + 1) by {
            lemma_insert_has_pos(acc, st, st.pos);
            if has_pos(acc, st.pos) {
            }
        }
        assert(ins.len() >= acc.len()) by {
            if has_pos(acc, st.pos) {
            }
        }
        lemma_canon_into(ins, rest);
        let out = canon_into(acc, states);
        assert forall|x: SpecState| #[trigger] out.contains(x) implies acc.contains(x)
            || states.contains(x) by {
            if ins.contains(x) {
                if x == st {
                    assert(states[0] == x);
                }
            } else {
                let k = choose|k: int| 0 <= k < rest.len() && rest[k] == x;
                assert(states[k + 1] == x);
            }
        }
        assert forall|p: int| has_pos(out, p) implies (has_pos(acc, p) || has_pos(states, p)) by {
            lemma_insert_has_pos(acc, st, p);
            if has_pos(ins, p) {
                if p == st.pos {
                    assert(states[0].pos == p);
                }
            } else {
                let k = choose|k: int| 0 <= k < rest.len() && rest[k].pos == p;
                assert(states[k + 1].pos == p);
            }
        }
        assert forall|p: int| (has_pos(acc, p) || has_pos(states, p)) implies has_pos(out, p) by {
            lemma_insert_has_pos(acc, st, p);
            if has_pos(states, p) && p != st.pos {
                let k = choose|k: int| 0 <= k < states.len() && states[k].pos == p;
                assert(k != 0);
                assert(rest[k - 1].pos == p);
                assert(has_pos(rest, p));
            }
        }
    }
}

/// Deduplicating one more state at the end is one more insertion.
pub proof fn lemma_canon_into_push(acc: Seq<SpecState>, s: Seq<SpecState>, x: SpecState)
    ensures
        canon_into(acc, s.push(x)) == insert_state(canon_into(acc, s), x),
    decreases s.len(),
{
    if s.len() == 0 {
        assert(s.push(x)[0] == x);
        assert(s.push(x).drop_first() =~= Seq::<SpecState>::empty());
        assert(canon_into(acc, s.push(x)) == canon_into(
            insert_state(acc, x),
            Seq::<SpecState>::empty(),
        ));
        assert(canon_into(insert_state(acc, x), Seq::<SpecState>::empty()) == insert_state(acc, x));
        assert(canon_into(acc, s) == acc);
    } else {
        assert(s.push(x)[0] == s[0]);
        assert(s.push(x).drop_first() =~= s.drop_first().push(x));
        lemma_canon_into_push(insert_state(acc, s[0]), s.drop_first(), x);
        assert(canon_into(acc, s.push(x)) == canon_into(
            insert_state(acc, s[0]),
            s.drop_first().push(x),
        ));
        assert(canon_into(acc, s) == canon_into(insert_state(acc, s[0]), s.drop_first()));
    }
}

/// `lemma_canon_into` specialised to the common entry point.
pub proof fn lemma_canon(states: Seq<SpecState>)
    ensures
        sorted_distinct(canon_states(states)),
        forall|x: SpecState| #[trigger] canon_states(states).contains(x) ==> states.contains(x),
        forall|p: int| has_pos(canon_states(states), p) <==> has_pos(states, p),
        canon_states(states).len() <= states.len(),
        canon_states(states).len() == 0 <==> states.len() == 0,
{
    lemma_canon_into(Seq::empty(), states);
    if states.len() > 0 {
        assert(has_pos(states, states[0].pos));
    }
}

/// Every state of `outs` is well formed, has not moved backwards past
/// `p0`, and keeps a capture table of `clen` slots.
pub open spec fn states_ok(outs: Seq<SpecState>, input: Seq<char>, p0: int, clen: int) -> bool {
    forall|i: int|
        0 <= i < outs.len() ==> wf_state(#[trigger] outs[i], input) && p0 <= outs[i].pos
            && outs[i].caps.len() == clen
}

/// Matching from a well-formed state only yields well-formed states: the
/// position never moves backwards and never leaves the input, and the
/// capture table keeps its size.
pub proof fn lemma_match_states_ok(n: SpecRegex, input: Seq<char>, st: SpecState)
    requires
        wf_state(st, input),
    ensures
        states_ok(match_states(n, input, st), input, st.pos, st.caps.len() as int),
    decreases n, 0int, 0int, 0int,
{
    let clen = st.caps.len() as int;
    match n {
        SpecRegex::Group { id, node } => {
            lemma_match_states_ok(*node, input, st);
            let ms = match_states(*node, input, st);
            let out = match_states(n, input, st);
            assert(out == ms.map(|i, ns: SpecState| write_cap(ns, id, st.pos)));
            assert forall|i: int| 0 <= i < out.len() implies wf_state(#[trigger] out[i], input)
                && st.pos <= out[i].pos && out[i].caps.len() == clen by {
                assert(out[i] == write_cap(ms[i], id, st.pos));
                let ns = ms[i];
                if 0 <= id < ns.caps.len() {
                    let w = write_cap(ns, id, st.pos);
                    assert forall|j: int|
                        0 <= j < w.caps.len() implies match #[trigger] w.caps[j] {
                        Some((s, e)) => 0 <= s <= e <= input.len(),
                        None => true,
                    } by {
                        if j != id {
                            assert(w.caps[j] == ns.caps[j]);
                        }
                    }
                }
            }
        },
        SpecRegex::Sequence(nodes) => {
            lemma_seq_states_ok(nodes, input, seq![st], st.pos, clen);
        },
        SpecRegex::Alternation(branches) => {
            lemma_alt_states_ok(branches, input, st);
            let raw = alt_states(branches, input, st);
            lemma_canon(raw);
            let out = canon_states(raw);
            assert forall|i: int| 0 <= i < out.len() implies wf_state(#[trigger] out[i], input)
                && st.pos <= out[i].pos && out[i].caps.len() == clen by {
                assert(out.contains(out[i]));
                assert(raw.contains(out[i]));
                let k = choose|k: int| 0 <= k < raw.len() && raw[k] == out[i];
            }
        },
        SpecRegex::Repetition { node, kind } => match kind {
            RepeatKind::ZeroOrOne => {
                lemma_match_states_ok(*node, input, st);
                let raw = seq![st] + match_states(*node, input, st);
                assert(states_ok(raw, input, st.pos, clen)) by {
                    assert forall|i: int|
                        0 <= i < raw.len() implies wf_state(#[trigger] raw[i], input) && st.pos
                        <= raw[i].pos && raw[i].caps.len() == clen by {
                        if i > 0 {
                            assert(raw[i] == match_states(*node, input, st)[i - 1]);
                        }
                    }
                }
                lemma_canon(raw);
                let out = canon_states(raw);
                assert forall|i: int| 0 <= i < out.len() implies wf_state(#[trigger] out[i], input)
                    && st.pos <= out[i].pos && out[i].caps.len() == clen by {
                    assert(out.contains(out[i]));
                    assert(raw.contains(out[i]));
                    let k = choose|k: int| 0 <= k < raw.len() && raw[k] == out[i];
                }
            },
            RepeatKind::OneOrMore => {
                lemma_match_states_ok(*node, input, st);
                lemma_plus_states_ok(
                    *node,
                    input,
                    Seq::empty(),
                    match_states(*node, input, st),
                    input.len() + 1,
                    st.pos,
                    clen,
                );
            },
        },
        _ => {},
    }
}

pub proof fn lemma_expand_states_ok(
    n: SpecRegex,
    input: Seq<char>,
    states: Seq<SpecState>,
    p0: int,
    clen: int,
)
    requires
        states_ok(states, input, p0, clen),
    ensures
        states_ok(expand_states(n, input, states), input, p0, clen),
    decreases n, 1int, states.len(), 0int,
{
    if states.len() > 0 {
        let head = states[0];
        assert(wf_state(head, input));
        lemma_match_states_ok(n, input, head);
        let hs = match_states(n, input, head);
        let rest = states.drop_first();
        assert(states_ok(rest, input, p0, clen)) by {
            assert(forall|i: int| 0 <= i < rest.len() ==> rest[i] == states[i + 1]);
        }
        lemma_expand_states_ok(n, input, rest, p0, clen);
        let ts = expand_states(n, input, rest);
        let out = expand_states(n, input, states);
        assert(out == hs + ts);
        assert forall|i: int| 0 <= i < out.len() implies wf_state(#[trigger] out[i], input) && p0
            <= out[i].pos && out[i].caps.len() == clen by {
            if i < hs.len() {
                assert(out[i] == hs[i]);
            } else {
                assert(out[i] == ts[i - hs.len()]);
            }
        }
    }
}

pub proof fn lemma_seq_states_ok(
    nodes: Seq<SpecRegex>,
    input: Seq<char>,
    states: Seq<SpecState>,
    p0: int,
    clen: int,
)
    requires
        states_ok(states, input, p0, clen),
    ensures
        states_ok(seq_states(nodes, input, states), input, p0, clen),
    decreases nodes, 0int, 0int, 0int,
{
    if nodes.len() > 0 {
        lemma_expand_states_ok(nodes[0], input, states, p0, clen);
        let raw = expand_states(nodes[0], input, states);
        lemma_canon(raw);
        let nxt = canon_states(raw);
        assert(states_ok(nxt, input, p0, clen)) by {
            assert forall|i: int| 0 <= i < nxt.len() implies wf_state(#[trigger] nxt[i], input)
                && p0 <= nxt[i].pos && nxt[i].caps.len() == clen by {
                assert(nxt.contains(nxt[i]));
                assert(raw.contains(nxt[i]));
                let k = choose|k: int| 0 <= k < raw.len() && raw[k] == nxt[i];
            }
        }
        if nxt.len() != 0 {
            lemma_seq_states_ok(nodes.drop_first(), input, nxt, p0, clen);
        }
    }
}

pub proof fn lemma_alt_states_ok(branches: Seq<SpecRegex>, input: Seq<char>, st: SpecState)
    requires
        wf_state(st, input),
    ensures
        states_ok(alt_states(branches, input, st), input, st.pos, st.caps.len() as int),
    decreases branches, 0int, 0int, 0int,
{
    let clen = st.caps.len() as int;
    if branches.len() > 0 {
        lemma_match_states_ok(branches[0], input, st);
        lemma_alt_states_ok(branches.drop_first(), input, st);
        let hs = match_states(branches[0], input, st);
        let ts = alt_states(branches.drop_first(), input, st);
        let out = alt_states(branches, input, st);
        assert(out == hs + ts);
        assert forall|i: int| 0 <= i < out.len() implies wf_state(#[trigger] out[i], input)
            && st.pos <= out[i].pos && out[i].caps.len() == clen by {
            if i < hs.len() {
                assert(out[i] == hs[i]);
            } else {
                assert(out[i] == ts[i - hs.len()]);
            }
        }
    }
}

pub proof fn lemma_plus_states_ok(
    inner: SpecRegex,
    input: Seq<char>,
    results: Seq<SpecState>,
    queue: Seq<SpecState>,
    budget: nat,
    p0: int,
    clen: int,
)
    requires
        states_ok(results, input, p0, clen),
        states_ok(queue, input, p0, clen),
    ensures
        states_ok(plus_states(inner, input, results, queue, budget), input, p0, clen),
    decreases inner, 2int, budget, queue.len(),
{
    if queue.len() > 0 {
        let st = queue[0];
        let rest = queue.drop_first();
        assert(states_ok(rest, input, p0, clen)) by {
            assert(forall|i: int| 0 <= i < rest.len() ==> rest[i] == queue[i + 1]);
        }
        if has_pos(results, st.pos) {
            lemma_plus_states_ok(inner, input, results, rest, budget, p0, clen);
        } else if budget == 0 {
        } else {
            assert(wf_state(st, input));
            lemma_match_states_ok(inner, input, st);
            let exp = match_states(inner, input, st);
            let nq = rest + exp;
            assert(states_ok(nq, input, p0, clen)) by {
                assert forall|i: int| 0 <= i < nq.len() implies wf_state(#[trigger] nq[i], input)
                    && p0 <= nq[i].pos && nq[i].caps.len() == clen by {
                    if i < rest.len() {
                        assert(nq[i] == rest[i]);
                    } else {
                        assert(nq[i] == exp[i - rest.len()]);
                    }
                }
            }
            assert(states_ok(results.push(st), input, p0, clen)) by {
                assert(forall|i: int|
                    0 <= i < results.len() ==> results.push(st)[i] == results[i]);
                assert(results.push(st)[results.len() as int] == st);
            }
            lemma_plus_states_ok(
                inner,
                input,
                results.push(st),
                nq,
                (budget - 1) as nat,
                p0,
                clen,
            );
        }
    }
}

/// No more sorted-distinct states fit than there are admissible positions.
pub proof fn lemma_distinct_positions_bound(states: Seq<SpecState>, bound: int)
    requires
        bound >= 0,
        forall|i: int, j: int| 0 <= i < j < states.len() ==> states[i].pos != states[j].pos,
        forall|i: int| 0 <= i < states.len() ==> 0 <= #[trigger] states[i].pos <= bound,
    ensures
        states.len() <= bound + 1,
{
    let ps = states.map(|i: int, s: SpecState| s.pos);
    assert(ps.no_duplicates());
    ps.unique_seq_to_set();
    assert(ps.to_set().subset_of(vstd::set_lib::set_int_range(0, bound + 1))) by {
        assert forall|p: int| ps.to_set().contains(p) implies vstd::set_lib::set_int_range(
            0,
            bound + 1,
        ).contains(p) by {
            let i = choose|i: int| 0 <= i < ps.len() && ps[i] == p;
            assert(states[i].pos == p);
        }
    }
    vstd::set_lib::lemma_int_range(0, bound + 1);
    vstd::set_lib::lemma_len_subset(ps.to_set(), vstd::set_lib::set_int_range(0, bound + 1));
}

} // verus!
