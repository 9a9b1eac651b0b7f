use vstd::prelude::*;
use vstd::pervasive::unreached;
use vstd::string::StrSliceExecFns;

use crate::ast::{lemma_view_list, max_group_id_list, spec_max_group_id, view_list, view_node};
use crate::ast::{RegexNode, RepeatKind, SpecRegex};
use crate::matcher::is_digit_char;
use crate::semantics::spec_is_digit;

verus! {

/// Result of parsing one construct: the tree built, the position after it,
/// and the next free group identifier.
pub struct SpecParse {
    pub node: SpecRegex,
    pub pos: int,
    pub next_id: int,
}

/// Result of parsing a list of constructs (a sequence's items or an
/// alternation's branches).
pub struct SpecParseList {
    pub items: Seq<SpecRegex>,
    pub pos: int,
    pub next_id: int,
}

/// Result of reading the member characters of a character set.
pub struct SpecClass {
    pub chars: Seq<char>,
    pub pos: int,
}

/// The character under the cursor, if any.
pub open spec fn spec_peek(p: Seq<char>, pos: int) -> Option<char> {
    if 0 <= pos < p.len() {
        Some(p[pos])
    } else {
        None
    }
}

// The recursive-descent grammar, written as one spec function per grammar
// production. Each function threads the cursor and the next free group
// identifier, and consumes `fuel` on every inner call; the fuel amounts
// below are always enough, so the parse never reaches a fuel of zero (the
// lemmas further down prove the result does not depend on the exact
// amount).
pub open spec fn fuel_alt(p: Seq<char>, pos: int) -> nat {
    (4 * (p.len() - pos) + 5) as nat
}

pub open spec fn fuel_alt_more(p: Seq<char>, pos: int) -> nat {
    (4 * (p.len() - pos) + 1) as nat
}

pub open spec fn fuel_seq(p: Seq<char>, pos: int) -> nat {
    (4 * (p.len() - pos) + 4) as nat
}

pub open spec fn fuel_repeat(p: Seq<char>, pos: int) -> nat {
    (4 * (p.len() - pos) + 3) as nat
}

pub open spec fn fuel_atom(p: Seq<char>, pos: int) -> nat {
    (4 * (p.len() - pos) + 2) as nat
}

pub open spec fn fuel_class(p: Seq<char>, pos: int) -> nat {
    (p.len() - pos + 2) as nat
}

pub open spec fn fuel_class_chars(p: Seq<char>, pos: int) -> nat {
    (p.len() - pos + 1) as nat
}

/// `alternation := sequence ('|' sequence)*`; a single branch collapses to
/// that branch, so no one-branch alternation node ever appears.
pub open spec fn parse_alt_at(p: Seq<char>, pos: int, id: int, fuel: nat) -> SpecParse
    decreases fuel, 0int,
{
    if fuel == 0 {
        SpecParse { node: SpecRegex::Sequence(Seq::empty()), pos, next_id: id }
    } else {
        let first = parse_seq_at(p, pos, id, (fuel - 1) as nat);
        let more = parse_alt_more(
            p,
            seq![first.node],
            first.pos,
            first.next_id,
            (fuel - 1) as nat,
        );
        if more.items.len() == 1 {
            SpecParse { node: more.items[0], pos: more.pos, next_id: more.next_id }
        } else {
            SpecParse {
                node: SpecRegex::Alternation(more.items),
                pos: more.pos,
                next_id: more.next_id,
            }
        }
    }
}

/// The `('|' sequence)*` tail of an alternation, accumulating branches.
pub open spec fn parse_alt_more(
    p: Seq<char>,
    branches: Seq<SpecRegex>,
    pos: int,
    id: int,
    fuel: nat,
) -> SpecParseList
    decreases fuel, 0int,
{
    if fuel == 0 {
        SpecParseList { items: branches, pos, next_id: id }
    } else if spec_peek(p, pos) == Some('|') {
        let nxt = parse_seq_at(p, pos + 1, id, (fuel - 1) as nat);
        parse_alt_more(p, branches.push(nxt.node), nxt.pos, nxt.next_id, (fuel - 1) as nat)
    } else {
        SpecParseList { items: branches, pos, next_id: id }
    }
}

/// `sequence := repetition*`, stopping at `)`, `|` or the end.
pub open spec fn parse_seq_at(p: Seq<char>, pos: int, id: int, fuel: nat) -> SpecParse
    decreases fuel, 1int,
{
    let r = parse_seq_items(p, pos, id, fuel);
    SpecParse { node: SpecRegex::Sequence(r.items), pos: r.pos, next_id: r.next_id }
}

pub open spec fn parse_seq_items(p: Seq<char>, pos: int, id: int, fuel: nat) -> SpecParseList
    decreases fuel, 0int,
{
    if fuel == 0 {
        SpecParseList { items: Seq::empty(), pos, next_id: id }
    } else if 0 <= pos < p.len() && p[pos] != ')' && p[pos] != '|' {
        let r = parse_repeat_at(p, pos, id, (fuel - 1) as nat);
        let rest = parse_seq_items(p, r.pos, r.next_id, (fuel - 1) as nat);
        SpecParseList {
            items: seq![r.node] + rest.items,
            pos: rest.pos,
            next_id: rest.next_id,
        }
    } else {
        SpecParseList { items: Seq::empty(), pos, next_id: id }
    }
}

/// `repetition := atom ('?' | '+')?`; the quantifier binds to exactly the
/// preceding atom.
pub open spec fn parse_repeat_at(p: Seq<char>, pos: int, id: int, fuel: nat) -> SpecParse
    decreases fuel, 0int,
{
    if fuel == 0 {
        SpecParse { node: SpecRegex::Sequence(Seq::empty()), pos, next_id: id }
    } else {
        let a = parse_atom_at(p, pos, id, (fuel - 1) as nat);
        if spec_peek(p, a.pos) == Some('?') {
            SpecParse {
                node: SpecRegex::Repetition {
                    node: Box::new(a.node),
                    kind: RepeatKind::ZeroOrOne,
                },
                pos: a.pos + 1,
                next_id: a.next_id,
            }
        } else if spec_peek(p, a.pos) == Some('+') {
            SpecParse {
                node: SpecRegex::Repetition {
                    node: Box::new(a.node),
                    kind: RepeatKind::OneOrMore,
                },
                pos: a.pos + 1,
                next_id: a.next_id,
            }
        } else {
            a
        }
    }
}

/// `atom := '(' alternation ')' | '[' '^'? members ']' | '\' escape
///        | '.' | '^' | '$' | literal`.
///
/// A group takes its identifier before its contents are parsed, so nested
/// groups get larger identifiers than the group enclosing them; a missing
/// `)` or `]` is accepted permissively; a trailing lone `\` is the literal
/// backslash.
pub open spec fn parse_atom_at(p: Seq<char>, pos: int, id: int, fuel: nat) -> SpecParse
    decreases fuel, 0int,
{
    if fuel == 0 {
        SpecParse { node: SpecRegex::Sequence(Seq::empty()), pos, next_id: id }
    } else {
        match spec_peek(p, pos) {
            None => SpecParse { node: SpecRegex::Sequence(Seq::empty()), pos, next_id: id },
            Some(c) => {
                if c == '(' {
                    let inner = parse_alt_at(p, pos + 1, id + 1, (fuel - 1) as nat);
                    let close = if spec_peek(p, inner.pos) == Some(')') {
                        inner.pos + 1
                    } else {
                        inner.pos
                    };
                    SpecParse {
                        node: SpecRegex::Group { id: id, node: Box::new(inner.node) },
                        pos: close,
                        next_id: inner.next_id,
                    }
                } else if c == '[' {
                    parse_class_at(p, pos, id, (fuel - 1) as nat)
                } else if c == '\\' {
                    match spec_peek(p, pos + 1) {
                        Some(e) => {
                            if e == 'd' {
                                SpecParse { node: SpecRegex::DigitClass, pos: pos + 2, next_id: id }
                            } else if e == 'w' {
                                SpecParse { node: SpecRegex::WordClass, pos: pos + 2, next_id: id }
                            } else if spec_is_digit(e) && e != '0' {
                                SpecParse {
                                    node: SpecRegex::Backreference {
                                        id: (e as int) - ('0' as int),
                                    },
                                    pos: pos + 2,
                                    next_id: id,
                                }
                            } else {
                                SpecParse { node: SpecRegex::Literal(e), pos: pos + 2, next_id: id }
                            }
                        },
                        None => SpecParse {
                            node: SpecRegex::Literal('\\'),
                            pos: pos + 1,
                            next_id: id,
                        },
                    }
                } else if c == '.' {
                    SpecParse { node: SpecRegex::AnyChar, pos: pos + 1, next_id: id }
                } else if c == '^' {
                    SpecParse { node: SpecRegex::StartAnchor, pos: pos + 1, next_id: id }
                } else if c == '$' {
                    SpecParse { node: SpecRegex::EndAnchor, pos: pos + 1, next_id: id }
                } else {
                    SpecParse { node: SpecRegex::Literal(c), pos: pos + 1, next_id: id }
                }
            },
        }
    }
}

/// A character set: `[`, an optional `^`, the member characters read
/// verbatim up to the first `]` or the end of the pattern.
pub open spec fn parse_class_at(p: Seq<char>, pos: int, id: int, fuel: nat) -> SpecParse
    decreases fuel, 1int,
{
    if fuel == 0 {
        SpecParse { node: SpecRegex::Sequence(Seq::empty()), pos, next_id: id }
    } else {
        let pos1 = if 0 <= pos < p.len() {
            pos + 1
        } else {
            pos
        };
        let negated = spec_peek(p, pos1) == Some('^');
        let pos2 = if negated {
            pos1 + 1
        } else {
            pos1
        };
        let cc = parse_class_chars(p, pos2, (fuel - 1) as nat);
        let pos3 = if spec_peek(p, cc.pos) == Some(']') {
            cc.pos + 1
        } else {
            cc.pos
        };
        SpecParse {
            node: SpecRegex::CharSet { chars: cc.chars, negated },
            pos: pos3,
            next_id: id,
        }
    }
}

pub open spec fn parse_class_chars(p: Seq<char>, pos: int, fuel: nat) -> SpecClass
    decreases fuel, 0int,
{
    if fuel == 0 {
        SpecClass { chars: Seq::empty(), pos }
    } else if 0 <= pos < p.len() && p[pos] != ']' {
        let rest = parse_class_chars(p, pos + 1, (fuel - 1) as nat);
        SpecClass { chars: seq![p[pos]] + rest.chars, pos: rest.pos }
    } else {
        SpecClass { chars: Seq::empty(), pos }
    }
}

/// The tree a pattern compiles to. Compiling is a function of the pattern
/// text alone, so compiling the same text twice yields the same tree, with
/// the same group identifiers.
pub open spec fn spec_parse(pattern: Seq<char>) -> SpecRegex {
    parse_alt_at(pattern, 0, 1, fuel_alt(pattern, 0)).node
}

/// Compiling is deterministic: two trees compiled from the same pattern
/// text have the same structure and the same group-identifier assignment.
/// Each call of `Parser::parse` on a fresh parser ensures its result views
/// to `spec_parse` of the pattern, a function of the text alone, so any two
/// such trees agree.
pub proof fn lemma_parse_deterministic(t1: RegexNode, t2: RegexNode, pattern: Seq<char>)
    requires
        t1@ == spec_parse(pattern),
        t2@ == spec_parse(pattern),
    ensures
        t1@ == t2@,
{
}

// Any fuel at or above the stated amount gives the same parse, the cursor
// only moves forward and never past the end, the next free group
// identifier only grows, and every group identifier inside the tree stays
// below the next free one. One lemma per production, proved together.
pub proof fn lemma_alt_at(p: Seq<char>, pos: int, id: int, f1: nat, f2: nat)
    requires
        0 <= pos <= p.len(),
        1 <= id,
        f1 >= fuel_alt(p, pos),
        f2 >= fuel_alt(p, pos),
    ensures
        parse_alt_at(p, pos, id, f1) == parse_alt_at(p, pos, id, f2),
        pos <= parse_alt_at(p, pos, id, f1).pos <= p.len(),
        id <= parse_alt_at(p, pos, id, f1).next_id,
        spec_max_group_id(parse_alt_at(p, pos, id, f1).node) < parse_alt_at(
            p,
            pos,
            id,
            f1,
        ).next_id,
    decreases f1, 0int,
{
    lemma_seq_at(p, pos, id, (f1 - 1) as nat, (f2 - 1) as nat);
    let first = parse_seq_at(p, pos, id, (f1 - 1) as nat);
    let branches = seq![first.node];
    assert(forall|j: int|
        0 <= j < branches.len() ==> spec_max_group_id(#[trigger] branches[j]) < first.next_id);
    lemma_alt_more(p, branches, first.pos, first.next_id, (f1 - 1) as nat, (f2 - 1) as nat);
    let more = parse_alt_more(p, branches, first.pos, first.next_id, (f1 - 1) as nat);
    if more.items.len() == 1 {
        assert(spec_max_group_id(more.items[0]) < more.next_id);
    } else {
        crate::ast::lemma_max_group_list_lt(more.items, more.next_id);
    }
}

pub proof fn lemma_alt_more(
    p: Seq<char>,
    branches: Seq<SpecRegex>,
    pos: int,
    id: int,
    f1: nat,
    f2: nat,
)
    requires
        0 <= pos <= p.len(),
        1 <= id,
        f1 >= fuel_alt_more(p, pos),
        f2 >= fuel_alt_more(p, pos),
        forall|j: int|
            0 <= j < branches.len() ==> spec_max_group_id(#[trigger] branches[j]) < id,
    ensures
        parse_alt_more(p, branches, pos, id, f1) == parse_alt_more(p, branches, pos, id, f2),
        pos <= parse_alt_more(p, branches, pos, id, f1).pos <= p.len(),
        id <= parse_alt_more(p, branches, pos, id, f1).next_id,
        parse_alt_more(p, branches, pos, id, f1).items.len() >= branches.len(),
        forall|j: int|
            0 <= j < parse_alt_more(p, branches, pos, id, f1).items.len()
                ==> spec_max_group_id(
                #[trigger] parse_alt_more(p, branches, pos, id, f1).items[j],
            ) < parse_alt_more(p, branches, pos, id, f1).next_id,
    decreases f1, 0int,
{
    if spec_peek(p, pos) == Some('|') {
        lemma_seq_at(p, pos + 1, id, (f1 - 1) as nat, (f2 - 1) as nat);
        let nxt = parse_seq_at(p, pos + 1, id, (f1 - 1) as nat);
        let pushed = branches.push(nxt.node);
        assert forall|j: int| 0 <= j < pushed.len() implies spec_max_group_id(
            #[trigger] pushed[j],
        ) < nxt.next_id by {
            if j < branches.len() {
                assert(pushed[j] == branches[j]);
            } else {
                assert(pushed[j] == nxt.node);
            }
        }
        lemma_alt_more(p, pushed, nxt.pos, nxt.next_id, (f1 - 1) as nat, (f2 - 1) as nat);
    }
}

pub proof fn lemma_seq_at(p: Seq<char>, pos: int, id: int, f1: nat, f2: nat)
    requires
        0 <= pos <= p.len(),
        1 <= id,
        f1 >= fuel_seq(p, pos),
        f2 >= fuel_seq(p, pos),
    ensures
        parse_seq_at(p, pos, id, f1) == parse_seq_at(p, pos, id, f2),
        pos <= parse_seq_at(p, pos, id, f1).pos <= p.len(),
        id <= parse_seq_at(p, pos, id, f1).next_id,
        spec_max_group_id(parse_seq_at(p, pos, id, f1).node) < parse_seq_at(
            p,
            pos,
            id,
            f1,
        ).next_id,
    decreases f1, 1int,
{
    lemma_seq_items(p, pos, id, f1, f2);
    let r = parse_seq_items(p, pos, id, f1);
    crate::ast::lemma_max_group_list_lt(r.items, r.next_id);
}

pub proof fn lemma_seq_items(p: Seq<char>, pos: int, id: int, f1: nat, f2: nat)
    requires
        0 <= pos <= p.len(),
        1 <= id,
        f1 >= fuel_seq(p, pos),
        f2 >= fuel_seq(p, pos),
    ensures
        parse_seq_items(p, pos, id, f1) == parse_seq_items(p, pos, id, f2),
        pos <= parse_seq_items(p, pos, id, f1).pos <= p.len(),
        id <= parse_seq_items(p, pos, id, f1).next_id,
        forall|j: int|
            0 <= j < parse_seq_items(p, pos, id, f1).items.len() ==> spec_max_group_id(
                #[trigger] parse_seq_items(p, pos, id, f1).items[j],
            ) < parse_seq_items(p, pos, id, f1).next_id,
    decreases f1, 0int,
{
    if 0 <= pos < p.len() && p[pos] != ')' && p[pos] != '|' {
        lemma_repeat_at(p, pos, id, (f1 - 1) as nat, (f2 - 1) as nat);
        let r = parse_repeat_at(p, pos, id, (f1 - 1) as nat);
        lemma_seq_items(p, r.pos, r.next_id, (f1 - 1) as nat, (f2 - 1) as nat);
        let rest = parse_seq_items(p, r.pos, r.next_id, (f1 - 1) as nat);
        let items = seq![r.node] + rest.items;
        assert forall|j: int| 0 <= j < items.len() implies spec_max_group_id(
            #[trigger] items[j],
        ) < rest.next_id by {
            if j == 0 {
                assert(items[0] == r.node);
            } else {
                assert(items[j] == rest.items[j - 1]);
            }
        }
    }
}

pub proof fn lemma_repeat_at(p: Seq<char>, pos: int, id: int, f1: nat, f2: nat)
    requires
        0 <= pos <= p.len(),
        1 <= id,
        f1 >= fuel_repeat(p, pos),
        f2 >= fuel_repeat(p, pos),
    ensures
        parse_repeat_at(p, pos, id, f1) == parse_repeat_at(p, pos, id, f2),
        pos <= parse_repeat_at(p, pos, id, f1).pos <= p.len(),
        pos < p.len() ==> pos + 1 <= parse_repeat_at(p, pos, id, f1).pos,
        id <= parse_repeat_at(p, pos, id, f1).next_id,
        spec_max_group_id(parse_repeat_at(p, pos, id, f1).node) < parse_repeat_at(
            p,
            pos,
            id,
            f1,
        ).next_id,
    decreases f1, 0int,
{
    lemma_atom_at(p, pos, id, (f1 - 1) as nat, (f2 - 1) as nat);
}

pub proof fn lemma_atom_at(p: Seq<char>, pos: int, id: int, f1: nat, f2: nat)
    requires
        0 <= pos <= p.len(),
        1 <= id,
        f1 >= fuel_atom(p, pos),
        f2 >= fuel_atom(p, pos),
    ensures
        parse_atom_at(p, pos, id, f1) == parse_atom_at(p, pos, id, f2),
        pos <= parse_atom_at(p, pos, id, f1).pos <= p.len(),
        pos < p.len() ==> pos + 1 <= parse_atom_at(p, pos, id, f1).pos,
        id <= parse_atom_at(p, pos, id, f1).next_id,
        spec_max_group_id(parse_atom_at(p, pos, id, f1).node) < parse_atom_at(
            p,
            pos,
            id,
            f1,
        ).next_id,
    decreases f1, 0int,
{
    assert(max_group_id_list(Seq::empty()) == 0);
    match spec_peek(p, pos) {
        None => {
            assert(spec_max_group_id(SpecRegex::Sequence(Seq::empty())) == 0);
        },
        Some(c) => {
            if c == '(' {
                lemma_alt_at(p, pos + 1, id + 1, (f1 - 1) as nat, (f2 - 1) as nat);
                let inner = parse_alt_at(p, pos + 1, id + 1, (f1 - 1) as nat);
                let g = SpecRegex::Group { id: id, node: Box::new(inner.node) };
                assert(spec_max_group_id(g) < inner.next_id);
            } else if c == '[' {
                lemma_class_at(p, pos, id, (f1 - 1) as nat, (f2 - 1) as nat);
            } else {
                assert(spec_max_group_id(SpecRegex::Sequence(Seq::empty())) == 0);
            }
        },
    }
}

pub proof fn lemma_class_at(p: Seq<char>, pos: int, id: int, f1: nat, f2: nat)
    requires
        0 <= pos <= p.len(),
        1 <= id,
        f1 >= fuel_class(p, pos),
        f2 >= fuel_class(p, pos),
    ensures
        parse_class_at(p, pos, id, f1) == parse_class_at(p, pos, id, f2),
        pos <= parse_class_at(p, pos, id, f1).pos <= p.len(),
        pos < p.len() ==> pos + 1 <= parse_class_at(p, pos, id, f1).pos,
        parse_class_at(p, pos, id, f1).next_id == id,
        spec_max_group_id(parse_class_at(p, pos, id, f1).node) < id + 1,
    decreases f1, 1int,
{
    let pos1 = if 0 <= pos < p.len() {
        pos + 1
    } else {
        pos
    };
    let negated = spec_peek(p, pos1) == Some('^');
    let pos2 = if negated {
        pos1 + 1
    } else {
        pos1
    };
    lemma_class_chars(p, pos2, (f1 - 1) as nat, (f2 - 1) as nat);
}

/// Builds a literal node; the contract carries its view.
fn lit_node(c: char) -> (node: RegexNode)
    ensures
        node@ == SpecRegex::Literal(c),
{
    RegexNode::Literal(c)
}

/// The parser: walks the pattern text once, left to right, building the
/// tree; group identifiers are handed out in the order groups open.
pub struct Parser<'a> {
    pub pattern: &'a str,
    pub pos: usize,
    next_group_id: usize,
}

impl<'a> Parser<'a> {
    /// The parser state the methods below keep up: the cursor inside the
    /// pattern, and never more identifiers handed out than characters
    /// passed (each group consumed its `(` first).
    pub closed spec fn wf(&self) -> bool {
        &&& self.pos <= self.pattern@.len()
        &&& self.pattern@.len() < usize::MAX
        &&& 1 <= self.next_group_id
        &&& self.next_group_id <= self.pos + 1
    }

    /// The next group identifier to be handed out.
    pub closed spec fn spec_next(&self) -> int {
        self.next_group_id as int
    }

    /// The pattern text being parsed.
    pub closed spec fn spec_pattern(&self) -> Seq<char> {
        self.pattern@
    }

    /// The cursor: how many characters have been consumed.
    pub closed spec fn spec_pos(&self) -> int {
        self.pos as int
    }

    /// Creates a parser at the start of the pattern, with group
    /// identifiers starting at 1.
    pub fn new(pattern: &'a str) -> (p: Self)
        requires
            pattern@.len() < usize::MAX,
        ensures
            p.wf(),
            p.spec_pattern() == pattern@,
            p.spec_pos() == 0,
            p.spec_next() == 1,
    {
        Self { pattern, pos: 0, next_group_id: 1 }
    }

    /// Hands out the next group identifier.
    fn alloc_group_id(&mut self) -> (id: usize)
        requires
            old(self).wf(),
            old(self).spec_next() <= old(self).pos as int,
        ensures
            final(self).wf(),
            final(self).pattern@ == old(self).pattern@,
            final(self).pos == old(self).pos,
            id as int == old(self).spec_next(),
            final(self).spec_next() == old(self).spec_next() + 1,
    {
        let id = self.next_group_id;
        self.next_group_id = self.next_group_id + 1;
        id
    }

    /// The character under the cursor, without moving.
    fn peek(&self) -> (c: Option<char>)
        ensures
            c == spec_peek(self.pattern@, self.pos as int),
    {
        if self.pos < self.pattern.unicode_len() {
            Some(self.pattern.get_char(self.pos))
        } else {
            None
        }
    }

    /// Consumes and returns the character under the cursor, if any.
    fn advance(&mut self) -> (c: Option<char>)
        ensures
            final(self).pattern@ == old(self).pattern@,
            final(self).spec_next() == old(self).spec_next(),
            c == spec_peek(old(self).pattern@, old(self).pos as int),
            c is Some ==> final(self).pos == old(self).pos + 1,
            c is None ==> final(self).pos == old(self).pos,
    {
        let l = self.pattern.unicode_len();
        if self.pos < l {
            let ch = self.pattern.get_char(self.pos);
            self.pos = self.pos + 1;
            Some(ch)
        } else {
            None
        }
    }

    /// Consumes the character under the cursor when it is the expected
    /// one; reports whether it did.
    fn expect(&mut self, expected: char) -> (r: bool)
        ensures
            final(self).pattern@ == old(self).pattern@,
            final(self).spec_next() == old(self).spec_next(),
            r == (spec_peek(old(self).pattern@, old(self).pos as int) == Some(expected)),
            r ==> final(self).pos == old(self).pos + 1,
            !r ==> final(self).pos == old(self).pos,
    {
        let c = self.peek();
        match c {
            Some(ch) => {
                if ch == expected {
                    let consumed = self.advance();
                    true
                } else {
                    false
                }
            },
            None => false,
        }
    }

    /// Compiles the whole pattern into a tree. The parser is total: a
    /// malformed pattern (an unclosed group or set, a stray quantifier
    /// target) still compiles, permissively, rather than failing.
    pub fn parse(&mut self) -> (node: RegexNode)
        requires
            old(self).wf(),
        ensures
            final(self).wf(),
            final(self).spec_pattern() == old(self).spec_pattern(),
            node@ == parse_alt_at(
                old(self).spec_pattern(),
                old(self).spec_pos(),
                old(self).spec_next(),
                fuel_alt(old(self).spec_pattern(), old(self).spec_pos()),
            ).node,
            final(self).spec_pos() == parse_alt_at(
                old(self).spec_pattern(),
                old(self).spec_pos(),
                old(self).spec_next(),
                fuel_alt(old(self).spec_pattern(), old(self).spec_pos()),
            ).pos,
            final(self).spec_next() == parse_alt_at(
                old(self).spec_pattern(),
                old(self).spec_pos(),
                old(self).spec_next(),
                fuel_alt(old(self).spec_pattern(), old(self).spec_pos()),
            ).next_id,
            final(self).spec_next() <= usize::MAX,
    {
        self.parse_alt()
    }

    /// `alternation := sequence ('|' sequence)*`.
    #[verifier::loop_isolation(false)]
    fn parse_alt(&mut self) -> (node: RegexNode)
        requires
            old(self).wf(),
        ensures
            final(self).wf(),
            final(self).pattern@ == old(self).pattern@,
            old(self).pos <= final(self).pos,
            node@ == parse_alt_at(
                old(self).pattern@,
                old(self).pos as int,
                old(self).spec_next(),
                fuel_alt(old(self).pattern@, old(self).pos as int),
            ).node,
            final(self).pos as int == parse_alt_at(
                old(self).pattern@,
                old(self).pos as int,
                old(self).spec_next(),
                fuel_alt(old(self).pattern@, old(self).pos as int),
            ).pos,
            final(self).spec_next() == parse_alt_at(
                old(self).pattern@,
                old(self).pos as int,
                old(self).spec_next(),
                fuel_alt(old(self).pattern@, old(self).pos as int),
            ).next_id,
        decreases self.pattern@.len() - self.pos, 4int,
    {
        let ghost p = self.pattern@;
        let ghost pos0 = self.pos as int;
        let ghost id0 = self.spec_next();
        let ghost goal = parse_alt_at(p, pos0, id0, fuel_alt(p, pos0));
        let mut branches: Vec<RegexNode> = Vec::new();
        let first = self.parse_seq();
        branches.push(first);
        let ghost fsp = parse_seq_at(p, pos0, id0, fuel_seq(p, pos0));
        let ghost target = parse_alt_more(
            p,
            seq![fsp.node],
            fsp.pos,
            fsp.next_id,
            (fuel_alt(p, pos0) - 1) as nat,
        );
        proof {
            assert((fuel_alt(p, pos0) - 1) as nat == fuel_seq(p, pos0));
            lemma_view_list(branches@);
            assert(view_list(branches@) =~= seq![fsp.node]);
            lemma_seq_at(p, pos0, id0, fuel_seq(p, pos0), fuel_seq(p, pos0));
            lemma_alt_more(
                p,
                seq![fsp.node],
                fsp.pos,
                fsp.next_id,
                (fuel_alt(p, pos0) - 1) as nat,
                fuel_alt_more(p, fsp.pos),
            );
        }
        let mut done = false;
        while !done
            invariant
                self.wf(),
                self.pattern@ == p,
                pos0 <= self.pos,
                branches@.len() >= 1,
                forall|j: int|
                    0 <= j < branches@.len() ==> spec_max_group_id(
                        view_node(#[trigger] branches@[j]),
                    ) < self.spec_next(),
                target == parse_alt_more(
                    p,
                    view_list(branches@),
                    self.pos as int,
                    self.spec_next(),
                    fuel_alt_more(p, self.pos as int),
                ),
                done ==> spec_peek(p, self.pos as int) != Some('|'),
            decreases (if done { 0int } else { 1int }), p.len() - self.pos,
        {
            let c = self.peek();
            let is_bar = match c {
                Some(ch) => ch == '|',
                None => false,
            };
            if !is_bar {
                done = true;
                continue;
            }
            let ghost pre = *self;
            let consumed = self.advance();
            let nxt = self.parse_seq();
            let ghost nsp = parse_seq_at(p, pre.pos + 1, pre.spec_next(), fuel_seq(p, pre.pos + 1));
            let ghost old_branches = branches@;
            branches.push(nxt);
            proof {
                // one unfolding of the tail of the alternation
                let fm = fuel_alt_more(p, pre.pos as int);
                assert((fm - 1) as nat == fuel_seq(p, pre.pos + 1));
                lemma_seq_at(p, pre.pos + 1, pre.spec_next(), fuel_seq(p, pre.pos + 1), fuel_seq(p, pre.pos + 1));
                assert(view_list(branches@) =~= view_list(old_branches).push(view_node(nxt))) by {
                    assert(branches@.drop_last() =~= old_branches);
                    assert(branches@.last() == nxt);
                }
                assert forall|j: int| 0 <= j < view_list(branches@).len() implies spec_max_group_id(
                    #[trigger] view_list(branches@)[j],
                ) < nsp.next_id by {
                    lemma_view_list(branches@);
                    lemma_view_list(old_branches);
                    if j < old_branches.len() {
                        assert(view_list(branches@)[j] == view_node(old_branches[j]));
                    } else {
                        assert(view_list(branches@)[j] == view_node(nxt));
                    }
                }
                lemma_alt_more(
                    p,
                    view_list(branches@),
                    nsp.pos,
                    nsp.next_id,
                    (fm - 1) as nat,
                    fuel_alt_more(p, nsp.pos),
                );
                lemma_view_list(branches@);
            }
        }
        proof {
            // the tail is exhausted: the accumulated branches are final
            assert(goal == if target.items.len() == 1 {
                SpecParse { node: target.items[0], pos: target.pos, next_id: target.next_id }
            } else {
                SpecParse {
                    node: SpecRegex::Alternation(target.items),
                    pos: target.pos,
                    next_id: target.next_id,
                }
            });
            assert(target.items == view_list(branches@));
            lemma_view_list(branches@);
        }
        if branches.len() == 1 {
            let ghost old_branches = branches@;
            let node = match branches.pop() {
                Some(n) => n,
                None => unreached(),
            };
            proof {
                lemma_view_list(old_branches);
                assert(old_branches[0] == node);
                assert(view_list(old_branches)[0] == view_node(node));
                assert(node@ == target.items[0]);
            }
            node
        } else {
            RegexNode::Alternation(branches)
        }
    }

    /// `sequence := repetition*`, stopping at `)`, `|` or the end.
    #[verifier::loop_isolation(false)]
    fn parse_seq(&mut self) -> (node: RegexNode)
        requires
            old(self).wf(),
        ensures
            final(self).wf(),
            final(self).pattern@ == old(self).pattern@,
            old(self).pos <= final(self).pos,
            node@ == parse_seq_at(
                old(self).pattern@,
                old(self).pos as int,
                old(self).spec_next(),
                fuel_seq(old(self).pattern@, old(self).pos as int),
            ).node,
            final(self).pos as int == parse_seq_at(
                old(self).pattern@,
                old(self).pos as int,
                old(self).spec_next(),
                fuel_seq(old(self).pattern@, old(self).pos as int),
            ).pos,
            final(self).spec_next() == parse_seq_at(
                old(self).pattern@,
                old(self).pos as int,
                old(self).spec_next(),
                fuel_seq(old(self).pattern@, old(self).pos as int),
            ).next_id,
        decreases self.pattern@.len() - self.pos, 3int,
    {
        let ghost p = self.pattern@;
        let ghost pos0 = self.pos as int;
        let ghost id0 = self.spec_next();
        let ghost goal = parse_seq_items(p, pos0, id0, fuel_seq(p, pos0));
        let mut nodes: Vec<RegexNode> = Vec::new();
        proof {
            lemma_view_list(nodes@);
            assert(view_list(nodes@) =~= Seq::<SpecRegex>::empty());
        }
        let mut done = false;
        while !done
            invariant
                self.wf(),
                self.pattern@ == p,
                pos0 <= self.pos,
                ({
                    let rest = parse_seq_items(
                        p,
                        self.pos as int,
                        self.spec_next(),
                        fuel_seq(p, self.pos as int),
                    );
                    goal.items == view_list(nodes@) + rest.items && goal.pos == rest.pos
                        && goal.next_id == rest.next_id
                }),
                done ==> goal.items == view_list(nodes@) && goal.pos == self.pos as int
                    && goal.next_id == self.spec_next(),
            decreases (if done { 0int } else { 1int }), p.len() - self.pos,
        {
            let c = self.peek();
            let stop = match c {
                None => true,
                Some(ch) => ch == ')' || ch == '|',
            };
            if stop {
                proof {
                    let rest = parse_seq_items(
                        p,
                        self.pos as int,
                        self.spec_next(),
                        fuel_seq(p, self.pos as int),
                    );
                    assert(rest.items =~= Seq::<SpecRegex>::empty());
                    assert(view_list(nodes@) + rest.items =~= view_list(nodes@));
                }
                done = true;
                continue;
            }
            let ghost pre = *self;
            let n = self.parse_repeat();
            let ghost rsp = parse_repeat_at(
                p,
                pre.pos as int,
                pre.spec_next(),
                fuel_repeat(p, pre.pos as int),
            );
            let ghost old_nodes = nodes@;
            nodes.push(n);
            proof {
                let fs = fuel_seq(p, pre.pos as int);
                assert((fs - 1) as nat == fuel_repeat(p, pre.pos as int));
                lemma_repeat_at(
                    p,
                    pre.pos as int,
                    pre.spec_next(),
                    fuel_repeat(p, pre.pos as int),
                    fuel_repeat(p, pre.pos as int),
                );
                lemma_seq_items(p, rsp.pos, rsp.next_id, (fs - 1) as nat, fuel_seq(p, rsp.pos));
                assert(view_list(nodes@) =~= view_list(old_nodes).push(view_node(n))) by {
                    assert(nodes@.drop_last() =~= old_nodes);
                    assert(nodes@.last() == n);
                }
                let rest_new = parse_seq_items(
                    p,
                    self.pos as int,
                    self.spec_next(),
                    fuel_seq(p, self.pos as int),
                );
                assert(goal.items =~= view_list(nodes@) + rest_new.items) by {
                    assert(view_list(old_nodes) + (seq![rsp.node] + rest_new.items)
                        =~= (view_list(old_nodes).push(rsp.node)) + rest_new.items);
                }
            }
        }
        let node = RegexNode::Sequence(nodes);
        proof {
            assert(node@ == SpecRegex::Sequence(view_list(nodes@)));
        }
        node
    }

    /// `repetition := atom ('?' | '+')?`.
    fn parse_repeat(&mut self) -> (node: RegexNode)
        requires
            old(self).wf(),
        ensures
            final(self).wf(),
            final(self).pattern@ == old(self).pattern@,
            old(self).pos <= final(self).pos,
            node@ == parse_repeat_at(
                old(self).pattern@,
                old(self).pos as int,
                old(self).spec_next(),
                fuel_repeat(old(self).pattern@, old(self).pos as int),
            ).node,
            final(self).pos as int == parse_repeat_at(
                old(self).pattern@,
                old(self).pos as int,
                old(self).spec_next(),
                fuel_repeat(old(self).pattern@, old(self).pos as int),
            ).pos,
            final(self).spec_next() == parse_repeat_at(
                old(self).pattern@,
                old(self).pos as int,
                old(self).spec_next(),
                fuel_repeat(old(self).pattern@, old(self).pos as int),
            ).next_id,
        decreases self.pattern@.len() - self.pos, 2int,
    {
        let ghost p = self.pattern@;
        let ghost pos0 = self.pos as int;
        let ghost id0 = self.spec_next();
        let atom = self.parse_atom();
        proof {
            assert((fuel_repeat(p, pos0) - 1) as nat == fuel_atom(p, pos0));
        }
        let c = self.peek();
        let is_quest = match c {
            Some(ch) => ch == '?',
            None => false,
        };
        let is_plus = match c {
            Some(ch) => ch == '+',
            None => false,
        };
        if is_quest {
            let consumed = self.advance();
            RegexNode::Repetition { node: Box::new(atom), kind: RepeatKind::ZeroOrOne }
        } else if is_plus {
            let consumed = self.advance();
            RegexNode::Repetition { node: Box::new(atom), kind: RepeatKind::OneOrMore }
        } else {
            atom
        }
    }

    /// `atom := '(' alternation ')' | '[' '^'? members ']' | '\' escape
    ///        | '.' | '^' | '$' | literal`.
    fn parse_atom(&mut self) -> (node: RegexNode)
        requires
            old(self).wf(),
        ensures
            final(self).wf(),
            final(self).pattern@ == old(self).pattern@,
            old(self).pos <= final(self).pos,
            node@ == parse_atom_at(
                old(self).pattern@,
                old(self).pos as int,
                old(self).spec_next(),
                fuel_atom(old(self).pattern@, old(self).pos as int),
            ).node,
            final(self).pos as int == parse_atom_at(
                old(self).pattern@,
                old(self).pos as int,
                old(self).spec_next(),
                fuel_atom(old(self).pattern@, old(self).pos as int),
            ).pos,
            final(self).spec_next() == parse_atom_at(
                old(self).pattern@,
                old(self).pos as int,
                old(self).spec_next(),
                fuel_atom(old(self).pattern@, old(self).pos as int),
            ).next_id,
        decreases self.pattern@.len() - self.pos, 1int,
    {
        let ghost p = self.pattern@;
        let ghost pos0 = self.pos as int;
        let ghost id0 = self.spec_next();
        let c = self.peek();
        let at_end = match c {
            Some(_) => false,
            None => true,
        };
        if at_end {
            let node = RegexNode::Sequence(Vec::new());
            proof {
                lemma_view_list(Seq::<RegexNode>::empty());
                assert(view_list(Seq::<RegexNode>::empty()) =~= Seq::<SpecRegex>::empty());
                assert(node@ == SpecRegex::Sequence(view_list(Seq::<RegexNode>::empty())));
                assert(node@ == parse_atom_at(p, pos0, id0, fuel_atom(p, pos0)).node);
            }
            node
        } else {
            let a = match c {
                Some(x) => x,
                None => unreached(),
            };
            proof {
                assert(spec_peek(p, pos0) == Some(a));
            }
            if a == '(' {
                let consumed = self.advance();
                let id = self.alloc_group_id();
                let inner = self.parse_alt();
                proof {
                    assert((fuel_atom(p, pos0) - 1) as nat == fuel_alt(p, pos0 + 1));
                }
                let closed = self.expect(')');
                let node = RegexNode::Group { id, node: Box::new(inner) };
                proof {
                    let ispec = parse_alt_at(p, pos0 + 1, id0 + 1, (fuel_atom(p, pos0) - 1) as nat);
                    assert(inner@ == ispec.node);
                    assert(node@ == SpecRegex::Group { id: id as int, node: Box::new(inner@) });
                    assert(parse_atom_at(p, pos0, id0, fuel_atom(p, pos0)).node
                        == SpecRegex::Group { id: id0, node: Box::new(ispec.node) });
                }
                node
            } else if a == '[' {
                let node = self.parse_char_class();
                proof {
                    lemma_class_at(
                        p,
                        pos0,
                        id0,
                        (fuel_atom(p, pos0) - 1) as nat,
                        fuel_class(p, pos0),
                    );
                }
                node
            } else if a == '\\' {
                let consumed = self.advance();
                let e = self.advance();
                let esc_end = match e {
                    Some(_) => false,
                    None => true,
                };
                if esc_end {
                    let node = RegexNode::Literal('\\');
                    proof {
                        assert(node@ == parse_atom_at(p, pos0, id0, fuel_atom(p, pos0)).node);
                    }
                    node
                } else {
                    let ch = match e {
                        Some(x) => x,
                        None => unreached(),
                    };
                    proof {
                        assert(spec_peek(p, pos0 + 1) == Some(ch));
                    }
                    if ch == 'd' {
                        let node = RegexNode::DigitClass;
                        proof {
                            assert(node@ == parse_atom_at(p, pos0, id0, fuel_atom(p, pos0)).node);
                        }
                        node
                    } else if ch == 'w' {
                        let node = RegexNode::WordClass;
                        proof {
                            assert(node@ == parse_atom_at(p, pos0, id0, fuel_atom(p, pos0)).node);
                        }
                        node
                    } else if is_digit_char(ch) && ch != '0' {
                        let id = (ch as u32 - '0' as u32) as usize;
                        let node = RegexNode::Backreference { id };
                        proof {
                            assert(id as int == ch as int - '0' as int);
                            assert(node@ == parse_atom_at(p, pos0, id0, fuel_atom(p, pos0)).node);
                        }
                        node
                    } else {
                        let node = lit_node(ch);
                        proof {
                            assert(parse_atom_at(p, pos0, id0, fuel_atom(p, pos0)).node
                                == SpecRegex::Literal(ch));
                        }
                        node
                    }
                }
            } else if a == '.' {
                let consumed = self.advance();
                let node = RegexNode::AnyChar;
                proof {
                    assert(node@ == parse_atom_at(p, pos0, id0, fuel_atom(p, pos0)).node);
                }
                node
            } else if a == '^' {
                let consumed = self.advance();
                let node = RegexNode::StartAnchor;
                proof {
                    assert(node@ == parse_atom_at(p, pos0, id0, fuel_atom(p, pos0)).node);
                }
                node
            } else if a == '$' {
                let consumed = self.advance();
                let node = RegexNode::EndAnchor;
                proof {
                    assert(node@ == parse_atom_at(p, pos0, id0, fuel_atom(p, pos0)).node);
                }
                node
            } else {
                let consumed = self.advance();
                let node = lit_node(a);
                proof {
                    assert(parse_atom_at(p, pos0, id0, fuel_atom(p, pos0)).node
                        == SpecRegex::Literal(a));
                }
                node
            }
        }
    }

    /// `'[' '^'? members ']'`: the members are read verbatim up to the
    /// first `]`; a set left unclosed runs to the end of the pattern.
    #[verifier::loop_isolation(false)]
    fn parse_char_class(&mut self) -> (node: RegexNode)
        requires
            old(self).wf(),
        ensures
            final(self).wf(),
            final(self).pattern@ == old(self).pattern@,
            old(self).pos <= final(self).pos,
            node@ == parse_class_at(
                old(self).pattern@,
                old(self).pos as int,
                old(self).spec_next(),
                fuel_class(old(self).pattern@, old(self).pos as int),
            ).node,
            final(self).pos as int == parse_class_at(
                old(self).pattern@,
                old(self).pos as int,
                old(self).spec_next(),
                fuel_class(old(self).pattern@, old(self).pos as int),
            ).pos,
            final(self).spec_next() == parse_class_at(
                old(self).pattern@,
                old(self).pos as int,
                old(self).spec_next(),
                fuel_class(old(self).pattern@, old(self).pos as int),
            ).next_id,
        decreases self.pattern@.len() - self.pos, 0int,
    {
        let ghost p = self.pattern@;
        let ghost pos0 = self.pos as int;
        let ghost id0 = self.spec_next();
        let consumed = self.advance();  // consume '['
        let negated = {
            let c = self.peek();
            let is_caret = match c {
                Some(ch) => ch == '^',
                None => false,
            };
            if is_caret {
                let consumed = self.advance();
                true
            } else {
                false
            }
        };
        let ghost pos2 = self.pos as int;
        let ghost goal = parse_class_chars(p, pos2, fuel_class_chars(p, pos2));
        proof {
            lemma_class_chars(
                p,
                pos2,
                (fuel_class(p, pos0) - 1) as nat,
                fuel_class_chars(p, pos2),
            );
        }
        let mut chars_in_class: Vec<char> = Vec::new();
        let mut done = false;
        while !done
            invariant
                self.wf(),
                self.pattern@ == p,
                pos2 <= self.pos,
                self.spec_next() == id0,
                ({
                    let rest = parse_class_chars(
                        p,
                        self.pos as int,
                        fuel_class_chars(p, self.pos as int),
                    );
                    goal.chars == chars_in_class@ + rest.chars && goal.pos == rest.pos
                }),
                done ==> goal.chars == chars_in_class@ && goal.pos == self.pos as int,
            decreases (if done { 0int } else { 1int }), p.len() - self.pos,
        {
            let c = self.peek();
            let stop = match c {
                None => true,
                Some(ch) => ch == ']',
            };
            if stop {
                proof {
                    let rest = parse_class_chars(
                        p,
                        self.pos as int,
                        fuel_class_chars(p, self.pos as int),
                    );
                    assert(rest.chars =~= Seq::<char>::empty());
                    assert(chars_in_class@ + rest.chars =~= chars_in_class@);
                }
                done = true;
                continue;
            }
            let ch = match c {
                Some(ch) => ch,
                None => unreached(),
            };
            let ghost old_chars = chars_in_class@;
            let consumed = self.advance();
            chars_in_class.push(ch);
            proof {
                let fc = fuel_class_chars(p, self.pos - 1);
                assert((fc - 1) as nat == fuel_class_chars(p, self.pos as int));
                let rest_new = parse_class_chars(
                    p,
                    self.pos as int,
                    fuel_class_chars(p, self.pos as int),
                );
                assert(old_chars + (seq![ch] + rest_new.chars) =~= chars_in_class@
                    + rest_new.chars);
            }
        }
        let closed = self.expect(']');
        let node = RegexNode::CharSet { chars: chars_in_class, negated };
        proof {
            assert(node@ == SpecRegex::CharSet { chars: chars_in_class@, negated });
        }
        node
    }
}

pub proof fn lemma_class_chars(p: Seq<char>, pos: int, f1: nat, f2: nat)
    requires
        0 <= pos <= p.len(),
        f1 >= fuel_class_chars(p, pos),
        f2 >= fuel_class_chars(p, pos),
    ensures
        parse_class_chars(p, pos, f1) == parse_class_chars(p, pos, f2),
        pos <= parse_class_chars(p, pos, f1).pos <= p.len(),
    decreases f1, 0int,
{
    if 0 <= pos < p.len() && p[pos] != ']' {
        lemma_class_chars(p, pos + 1, (f1 - 1) as nat, (f2 - 1) as nat);
    }
}

/// The consecutive identifiers from `lo` up to, excluding, `hi`.
pub open spec fn id_run(lo: int, hi: int) -> Seq<int> {
    Seq::new(
        if hi >= lo {
            (hi - lo) as nat
        } else {
            0
        },
        |i: int| lo + i,
    )
}

proof fn lemma_id_run_concat(lo: int, mid: int, hi: int)
    requires
        lo <= mid <= hi,
    ensures
        id_run(lo, mid) + id_run(mid, hi) == id_run(lo, hi),
{
    assert(id_run(lo, mid) + id_run(mid, hi) =~= id_run(lo, hi));
}

proof fn lemma_id_run_cons(lo: int, hi: int)
    requires
        lo < hi,
    ensures
        seq![lo] + id_run(lo + 1, hi) == id_run(lo, hi),
{
    assert(seq![lo] + id_run(lo + 1, hi) =~= id_run(lo, hi));
}

proof fn lemma_id_run_empty(lo: int)
    ensures
        id_run(lo, lo) == Seq::<int>::empty(),
{
    assert(id_run(lo, lo) =~= Seq::<int>::empty());
}

// The parser hands group identifiers out in source order, one at a time:
// the compiled tree carries, in the order groups open, exactly the
// consecutive identifiers from the first free one up to the next free one.
pub proof fn lemma_alt_ids(p: Seq<char>, pos: int, id: int, f: nat)
    requires
        0 <= pos <= p.len(),
        1 <= id,
        f >= fuel_alt(p, pos),
    ensures
        crate::ast::ids_preorder(parse_alt_at(p, pos, id, f).node) == id_run(
            id,
            parse_alt_at(p, pos, id, f).next_id,
        ),
    decreases f, 0int,
{
    lemma_seq_at(p, pos, id, (f - 1) as nat, (f - 1) as nat);
    lemma_seq_ids(p, pos, id, (f - 1) as nat);
    let first = parse_seq_at(p, pos, id, (f - 1) as nat);
    let branches = seq![first.node];
    assert(crate::ast::ids_list(branches) == id_run(id, first.next_id)) by {
        assert(branches.drop_first() =~= Seq::<SpecRegex>::empty());
        assert(crate::ast::ids_list(branches) == crate::ast::ids_preorder(first.node)
            + crate::ast::ids_list(Seq::<SpecRegex>::empty()));
        assert(crate::ast::ids_preorder(first.node) + Seq::<int>::empty()
            =~= crate::ast::ids_preorder(first.node));
    }
    assert(forall|j: int|
        0 <= j < branches.len() ==> spec_max_group_id(#[trigger] branches[j]) < first.next_id);
    lemma_alt_more(p, branches, first.pos, first.next_id, (f - 1) as nat, (f - 1) as nat);
    lemma_alt_more_ids(p, branches, first.pos, first.next_id, (f - 1) as nat, id);
    let more = parse_alt_more(p, branches, first.pos, first.next_id, (f - 1) as nat);
    if more.items.len() == 1 {
        assert(crate::ast::ids_preorder(more.items[0]) == crate::ast::ids_list(more.items)) by {
            assert(more.items.drop_first() =~= Seq::<SpecRegex>::empty());
            assert(crate::ast::ids_list(more.items) == crate::ast::ids_preorder(more.items[0])
                + crate::ast::ids_list(Seq::<SpecRegex>::empty()));
            assert(crate::ast::ids_preorder(more.items[0]) + Seq::<int>::empty()
                =~= crate::ast::ids_preorder(more.items[0]));
        }
    }
}

pub proof fn lemma_alt_more_ids(
    p: Seq<char>,
    branches: Seq<SpecRegex>,
    pos: int,
    id: int,
    f: nat,
    lo: int,
)
    requires
        0 <= pos <= p.len(),
        1 <= lo <= id,
        f >= fuel_alt_more(p, pos),
        crate::ast::ids_list(branches) == id_run(lo, id),
        forall|j: int|
            0 <= j < branches.len() ==> spec_max_group_id(#[trigger] branches[j]) < id,
    ensures
        crate::ast::ids_list(parse_alt_more(p, branches, pos, id, f).items) == id_run(
            lo,
            parse_alt_more(p, branches, pos, id, f).next_id,
        ),
    decreases f, 0int,
{
    if spec_peek(p, pos) == Some('|') {
        lemma_seq_at(p, pos + 1, id, (f - 1) as nat, (f - 1) as nat);
        lemma_seq_ids(p, pos + 1, id, (f - 1) as nat);
        let nxt = parse_seq_at(p, pos + 1, id, (f - 1) as nat);
        let pushed = branches.push(nxt.node);
        crate::ast::lemma_ids_list_push(branches, nxt.node);
        lemma_id_run_concat(lo, id, nxt.next_id);
        assert(crate::ast::ids_list(pushed) == id_run(lo, nxt.next_id));
        assert forall|j: int| 0 <= j < pushed.len() implies spec_max_group_id(
            #[trigger] pushed[j],
        ) < nxt.next_id by {
            if j < branches.len() {
                assert(pushed[j] == branches[j]);
            } else {
                assert(pushed[j] == nxt.node);
            }
        }
        lemma_alt_more_ids(p, pushed, nxt.pos, nxt.next_id, (f - 1) as nat, lo);
    }
}

pub proof fn lemma_seq_ids(p: Seq<char>, pos: int, id: int, f: nat)
    requires
        0 <= pos <= p.len(),
        1 <= id,
        f >= fuel_seq(p, pos),
    ensures
        crate::ast::ids_preorder(parse_seq_at(p, pos, id, f).node) == id_run(
            id,
            parse_seq_at(p, pos, id, f).next_id,
        ),
    decreases f, 1int,
{
    lemma_seq_items_ids(p, pos, id, f);
}

pub proof fn lemma_seq_items_ids(p: Seq<char>, pos: int, id: int, f: nat)
    requires
        0 <= pos <= p.len(),
        1 <= id,
        f >= fuel_seq(p, pos),
    ensures
        crate::ast::ids_list(parse_seq_items(p, pos, id, f).items) == id_run(
            id,
            parse_seq_items(p, pos, id, f).next_id,
        ),
    decreases f, 0int,
{
    if 0 <= pos < p.len() && p[pos] != ')' && p[pos] != '|' {
        lemma_repeat_at(p, pos, id, (f - 1) as nat, (f - 1) as nat);
        lemma_repeat_ids(p, pos, id, (f - 1) as nat);
        let r = parse_repeat_at(p, pos, id, (f - 1) as nat);
        lemma_seq_items(p, r.pos, r.next_id, (f - 1) as nat, (f - 1) as nat);
        lemma_seq_items_ids(p, r.pos, r.next_id, (f - 1) as nat);
        let rest = parse_seq_items(p, r.pos, r.next_id, (f - 1) as nat);
        let items = seq![r.node] + rest.items;
        assert(items[0] == r.node);
        assert(items.drop_first() =~= rest.items);
        assert(crate::ast::ids_list(items) == crate::ast::ids_preorder(r.node)
            + crate::ast::ids_list(rest.items));
        lemma_id_run_concat(id, r.next_id, rest.next_id);
    } else {
        lemma_id_run_empty(id);
    }
}

pub proof fn lemma_repeat_ids(p: Seq<char>, pos: int, id: int, f: nat)
    requires
        0 <= pos <= p.len(),
        1 <= id,
        f >= fuel_repeat(p, pos),
    ensures
        crate::ast::ids_preorder(parse_repeat_at(p, pos, id, f).node) == id_run(
            id,
            parse_repeat_at(p, pos, id, f).next_id,
        ),
    decreases f, 0int,
{
    lemma_atom_at(p, pos, id, (f - 1) as nat, (f - 1) as nat);
    lemma_atom_ids(p, pos, id, (f - 1) as nat);
}

pub proof fn lemma_atom_ids(p: Seq<char>, pos: int, id: int, f: nat)
    requires
        0 <= pos <= p.len(),
        1 <= id,
        f >= fuel_atom(p, pos),
    ensures
        crate::ast::ids_preorder(parse_atom_at(p, pos, id, f).node) == id_run(
            id,
            parse_atom_at(p, pos, id, f).next_id,
        ),
    decreases f, 0int,
{
    let a = parse_atom_at(p, pos, id, f);
    match spec_peek(p, pos) {
        None => {
            lemma_id_run_empty(id);
            assert(a.node == SpecRegex::Sequence(Seq::empty()));
            assert(crate::ast::ids_preorder(a.node) == crate::ast::ids_list(
                Seq::<SpecRegex>::empty(),
            ));
        },
        Some(c) => {
            if c == '(' {
                lemma_alt_at(p, pos + 1, id + 1, (f - 1) as nat, (f - 1) as nat);
                lemma_alt_ids(p, pos + 1, id + 1, (f - 1) as nat);
                let inner = parse_alt_at(p, pos + 1, id + 1, (f - 1) as nat);
                lemma_id_run_cons(id, inner.next_id);
                let g = SpecRegex::Group { id: id, node: Box::new(inner.node) };
                assert(a.node == g && a.next_id == inner.next_id);
                assert(crate::ast::ids_preorder(g) == seq![id] + crate::ast::ids_preorder(
                    inner.node,
                ));
                assert(crate::ast::ids_preorder(a.node) == id_run(id, a.next_id));
            } else if c == '[' {
                lemma_class_at(p, pos, id, (f - 1) as nat, (f - 1) as nat);
                let r = parse_class_at(p, pos, id, (f - 1) as nat);
                assert((f - 1) as nat != 0);
                assert(r.node is CharSet);
                lemma_id_run_empty(id);
                assert(crate::ast::ids_preorder(a.node) == id_run(id, a.next_id));
            } else {
                lemma_id_run_empty(id);
                assert(crate::ast::ids_preorder(a.node) == id_run(id, a.next_id));
            }
        },
    }
}

/// Group identifiers are unique, strictly increasing in the order groups
/// open — source-text left to right, outer before inner — and contiguous
/// starting at 1: the compiled tree lists them, in open order, as exactly
/// the run 1, 2, 3, …
pub proof fn lemma_group_ids_in_order(pattern: Seq<char>)
    ensures
        crate::ast::ids_preorder(spec_parse(pattern)) == id_run(
            1,
            parse_alt_at(pattern, 0, 1, fuel_alt(pattern, 0)).next_id,
        ),
{
    lemma_alt_ids(pattern, 0, 1, fuel_alt(pattern, 0));
}

} // verus!
