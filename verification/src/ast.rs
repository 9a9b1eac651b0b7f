use vstd::prelude::*;

verus! {

/// Kind of a postfix repetition quantifier.
#[derive(Debug, Clone, Copy)]
pub enum RepeatKind {
    /// The `?` quantifier: the inner node matches zero times or once.
    ZeroOrOne,
    /// The `+` quantifier: the inner node matches one or more times.
    OneOrMore,
}

/// One node of a compiled pattern tree.
///
/// A pattern is a single rooted tree; every node owns its children, so the
/// tree is immutable once built and contains no sharing and no cycles.
#[derive(Debug)]
pub enum RegexNode {
    /// Ordered concatenation of the child nodes, e.g. `abc`.
    Sequence(Vec<RegexNode>),
    /// Ordered list of alternative branches, e.g. `a|b`.
    Alternation(Vec<RegexNode>),
    /// A postfix quantifier applied to one node, e.g. `a?` or `a+`.
    Repetition { node: Box<RegexNode>, kind: RepeatKind },
    /// A capturing group with its identifier, e.g. `(abc)`.
    Group { id: usize, node: Box<RegexNode> },
    /// A backreference to an earlier group's captured span, e.g. `\1`.
    Backreference { id: usize },
    /// The `^` anchor: zero-width, holds only at position zero.
    StartAnchor,
    /// The `$` anchor: zero-width, holds only at the end of the input.
    EndAnchor,
    /// The `.` atom: matches one arbitrary character.
    AnyChar,
    /// The `\d` atom: matches one decimal digit.
    DigitClass,
    /// The `\w` atom: matches one alphanumeric character or `_`.
    WordClass,
    /// An explicit character set, e.g. `[abc]` or `[^abc]`.
    CharSet { chars: Vec<char>, negated: bool },
    /// Exactly one specific character.
    Literal(char),
}

/// The mathematical shape of a pattern tree: the same constructors as
/// `RegexNode`, with children as `Seq` and identifiers as `int`, so that
/// contracts and lemmas can build and take apart trees in spec code.
pub enum SpecRegex {
    Sequence(Seq<SpecRegex>),
    Alternation(Seq<SpecRegex>),
    Repetition { node: Box<SpecRegex>, kind: RepeatKind },
    Group { id: int, node: Box<SpecRegex> },
    Backreference { id: int },
    StartAnchor,
    EndAnchor,
    AnyChar,
    DigitClass,
    WordClass,
    CharSet { chars: Seq<char>, negated: bool },
    Literal(char),
}

pub open spec fn view_node(n: RegexNode) -> SpecRegex
    decreases n, 0int,
{
    match n {
        RegexNode::Sequence(v) => SpecRegex::Sequence(view_list(v@)),
        RegexNode::Alternation(v) => SpecRegex::Alternation(view_list(v@)),
        RegexNode::Repetition { node, kind } => SpecRegex::Repetition {
            node: Box::new(view_node(*node)),
            kind: kind,
        },
        RegexNode::Group { id, node } => SpecRegex::Group {
            id: id as int,
            node: Box::new(view_node(*node)),
        },
        RegexNode::Backreference { id } => SpecRegex::Backreference { id: id as int },
        RegexNode::StartAnchor => SpecRegex::StartAnchor,
        RegexNode::EndAnchor => SpecRegex::EndAnchor,
        RegexNode::AnyChar => SpecRegex::AnyChar,
        RegexNode::DigitClass => SpecRegex::DigitClass,
        RegexNode::WordClass => SpecRegex::WordClass,
        RegexNode::CharSet { chars, negated } => SpecRegex::CharSet { chars: chars@, negated },
        RegexNode::Literal(c) => SpecRegex::Literal(c),
    }
}

pub open spec fn view_list(v: Seq<RegexNode>) -> Seq<SpecRegex>
    decreases v, 1int,
{
    if v.len() == 0 {
        Seq::empty()
    } else {
        view_list(v.drop_last()).push(view_node(v.last()))
    }
}

impl View for RegexNode {
    type V = SpecRegex;

    open spec fn view(&self) -> SpecRegex {
        view_node(*self)
    }
}

/// `view_list` maps `view_node` over the elements, keeping length and order.
pub proof fn lemma_view_list(v: Seq<RegexNode>)
    ensures
        view_list(v).len() == v.len(),
        forall|i: int| 0 <= i < v.len() ==> view_list(v)[i] == view_node(#[trigger] v[i]),
    decreases v.len(),
{
    if v.len() > 0 {
        lemma_view_list(v.drop_last());
        assert forall|i: int| 0 <= i < v.len() implies view_list(v)[i] == view_node(
            #[trigger] v[i],
        ) by {
            if i < v.len() - 1 {
                assert(v.drop_last()[i] == v[i]);
            }
        }
    }
}

/// The largest group identifier contained in the subtree, 0 when it holds
/// no group; the matcher sizes the capture table from it.
pub open spec fn spec_max_group_id(n: SpecRegex) -> int
    decreases n, 0int,
{
    match n {
        SpecRegex::Sequence(v) => max_group_id_list(v),
        SpecRegex::Alternation(v) => max_group_id_list(v),
        SpecRegex::Repetition { node, .. } => spec_max_group_id(*node),
        SpecRegex::Group { id, node } => {
            let inner = spec_max_group_id(*node);
            if id >= inner {
                id
            } else {
                inner
            }
        },
        _ => 0,
    }
}

pub open spec fn max_group_id_list(v: Seq<SpecRegex>) -> int
    decreases v, 1int,
{
    if v.len() == 0 {
        0int
    } else {
        let head = spec_max_group_id(v[0]);
        let rest = max_group_id_list(v.drop_first());
        if head >= rest {
            head
        } else {
            rest
        }
    }
}

/// Every group identifier in the subtree, listed in the order the parser
/// opens groups: outer before inner, left before right.
pub open spec fn ids_preorder(n: SpecRegex) -> Seq<int>
    decreases n, 0int,
{
    match n {
        SpecRegex::Sequence(v) => ids_list(v),
        SpecRegex::Alternation(v) => ids_list(v),
        SpecRegex::Repetition { node, .. } => ids_preorder(*node),
        SpecRegex::Group { id, node } => seq![id] + ids_preorder(*node),
        _ => Seq::empty(),
    }
}

pub open spec fn ids_list(v: Seq<SpecRegex>) -> Seq<int>
    decreases v, 1int,
{
    if v.len() == 0 {
        Seq::empty()
    } else {
        ids_preorder(v[0]) + ids_list(v.drop_first())
    }
}

/// One more tree at the end contributes its identifiers at the end.
pub proof fn lemma_ids_list_push(v: Seq<SpecRegex>, x: SpecRegex)
    ensures
        ids_list(v.push(x)) == ids_list(v) + ids_preorder(x),
    decreases v.len(),
{
    if v.len() == 0 {
        assert(v.push(x)[0] == x);
        assert(v.push(x).drop_first() =~= Seq::<SpecRegex>::empty());
        assert(ids_list(v.push(x)) == ids_preorder(x) + ids_list(Seq::<SpecRegex>::empty()));
        assert(ids_preorder(x) + Seq::<int>::empty() =~= ids_preorder(x));
        assert(ids_list(v) + ids_preorder(x) =~= ids_preorder(x));
    } else {
        assert(v.push(x)[0] == v[0]);
        assert(v.push(x).drop_first() =~= v.drop_first().push(x));
        lemma_ids_list_push(v.drop_first(), x);
        assert(ids_list(v.push(x)) == ids_preorder(v[0]) + (ids_list(v.drop_first())
            + ids_preorder(x)));
        assert(ids_preorder(v[0]) + (ids_list(v.drop_first()) + ids_preorder(x)) =~= (ids_preorder(
            v[0],
        ) + ids_list(v.drop_first())) + ids_preorder(x));
    }
}

/// A bound that holds of every element of a list holds of the list's
/// largest group identifier.
pub proof fn lemma_max_group_list_lt(v: Seq<SpecRegex>, b: int)
    requires
        b >= 1,
        forall|j: int| 0 <= j < v.len() ==> spec_max_group_id(#[trigger] v[j]) < b,
    ensures
        max_group_id_list(v) < b,
    decreases v.len(),
{
    if v.len() > 0 {
        let rest = v.drop_first();
        assert(forall|j: int| 0 <= j < rest.len() ==> rest[j] == v[j + 1]);
        lemma_max_group_list_lt(rest, b);
    }
}

/// Computes the largest group identifier in the tree by recursive descent.
pub(crate) fn max_group_id(node: &RegexNode) -> (m: usize)
    ensures
        m as int == spec_max_group_id(node@),
    decreases node,
{
    match node {
        RegexNode::Sequence(v) => max_group_id_of_list(v),
        RegexNode::Alternation(v) => max_group_id_of_list(v),
        RegexNode::Repetition { node, .. } => max_group_id(node),
        RegexNode::Group { id, node } => {
            let inner = max_group_id(node);
            if *id >= inner {
                *id
            } else {
                inner
            }
        },
        _ => 0,
    }
}

fn max_group_id_of_list(v: &Vec<RegexNode>) -> (m: usize)
    ensures
        m as int == max_group_id_list(view_list(v@)),
    decreases v,
{
    proof {
        lemma_view_list(v@);
    }
    let mut m: usize = 0;
    let mut i: usize = v.len();
    while i > 0
        invariant
            i <= v@.len(),
            m as int == max_group_id_list(view_list(v@).skip(i as int)),
        decreases i,
    {
        i = i - 1;
        let head = max_group_id(&v[i]);
        proof {
            lemma_view_list(v@);
            assert(view_list(v@).skip(i as int).drop_first() =~= view_list(v@).skip(i + 1));
            assert(view_list(v@).skip(i as int)[0] == view_node(v@[i as int]));
        }
        if head >= m {
            m = head;
        }
    }
    proof {
        assert(view_list(v@).skip(0) =~= view_list(v@));
    }
    m
}

} // verus!
