use regexline::ast::{RegexNode, RepeatKind};
use regexline::is_match;
use regexline::matcher::match_node;
use regexline::parser::Parser;

#[test]
fn literal_and_quantifiers_match() {
    assert!(is_match("aaabc", "a+b?c"));
}

#[test]
fn one_or_more_needs_at_least_one() {
    assert!(!is_match("bc", "a+b?c"));
}

#[test]
fn alternation_matches_present_branch() {
    assert!(is_match("I have a dog", "cat|dog"));
}

#[test]
fn alternation_rejects_absent_branches() {
    assert!(!is_match("I have a fish", "cat|dog"));
}

#[test]
fn negated_set_rejects_member() {
    assert!(!is_match("a", "[^aeiou]"));
}

#[test]
fn negated_set_accepts_non_member() {
    assert!(is_match("xyz", "[^aeiou]"));
}

#[test]
fn positive_set_membership() {
    assert!(is_match("cab", "[abc]"));
    assert!(!is_match("xyz", "[abc]"));
}

#[test]
fn backreference_requires_equal_span() {
    assert!(is_match("cat and cat", "(cat) and \\1"));
    assert!(!is_match("cat and dog", "(cat) and \\1"));
}

#[test]
fn anchors_pin_whole_input() {
    assert!(is_match("abc", "^abc$"));
    assert!(!is_match("xabc", "^abc$"));
    assert!(!is_match("abcx", "^abc$"));
    assert!(!is_match("ab", "^abc$"));
}

#[test]
fn empty_pattern_matches_everything() {
    assert!(is_match("", ""));
    assert!(is_match("anything", ""));
}

#[test]
fn compiling_twice_gives_identical_trees() {
    let mut p1 = Parser::new("a(b|c)+[^x]\\1$");
    let t1 = p1.parse();
    let mut p2 = Parser::new("a(b|c)+[^x]\\1$");
    let t2 = p2.parse();
    assert_eq!(format!("{:?}", t1), format!("{:?}", t2));
}

#[test]
fn group_ids_outer_then_inner() {
    let mut p = Parser::new("(a(b)c)");
    let tree = p.parse();
    let top = match tree {
        RegexNode::Sequence(mut items) => {
            assert_eq!(items.len(), 1);
            items.pop().unwrap()
        }
        other => panic!("expected top-level sequence, got {:?}", other),
    };
    match top {
        RegexNode::Group { id, node } => {
            assert_eq!(id, 1);
            match *node {
                RegexNode::Sequence(items) => {
                    assert_eq!(items.len(), 3);
                    match &items[1] {
                        RegexNode::Group { id, .. } => assert_eq!(*id, 2),
                        other => panic!("expected inner group, got {:?}", other),
                    }
                }
                other => panic!("expected sequence inside group, got {:?}", other),
            }
        }
        other => panic!("expected outer group, got {:?}", other),
    }
}

#[test]
fn sibling_groups_count_left_to_right() {
    let mut p = Parser::new("(a)(b)");
    let tree = p.parse();
    match tree {
        RegexNode::Sequence(items) => {
            assert_eq!(items.len(), 2);
            match (&items[0], &items[1]) {
                (RegexNode::Group { id: a, .. }, RegexNode::Group { id: b, .. }) => {
                    assert_eq!(*a, 1);
                    assert_eq!(*b, 2);
                }
                other => panic!("expected two groups, got {:?}", other),
            }
        }
        other => panic!("expected sequence, got {:?}", other),
    }
}

#[test]
fn quantifier_binds_to_one_atom() {
    let mut p = Parser::new("ab+");
    let tree = p.parse();
    match tree {
        RegexNode::Sequence(items) => {
            assert_eq!(items.len(), 2);
            match &items[0] {
                RegexNode::Literal(c) => assert_eq!(*c, 'a'),
                other => panic!("expected literal, got {:?}", other),
            }
            match &items[1] {
                RegexNode::Repetition { node, kind } => {
                    assert!(matches!(kind, RepeatKind::OneOrMore));
                    match node.as_ref() {
                        RegexNode::Literal(c) => assert_eq!(*c, 'b'),
                        other => panic!("expected literal under +, got {:?}", other),
                    }
                }
                other => panic!("expected repetition, got {:?}", other),
            }
        }
        other => panic!("expected sequence, got {:?}", other),
    }
}

#[test]
fn match_node_reports_end_positions() {
    let mut p = Parser::new("ab");
    let tree = p.parse();
    let input: Vec<char> = "ab".chars().collect();
    let ends = match_node(&tree, &input, 0);
    assert_eq!(ends, vec![2]);
}

#[test]
fn match_node_collects_every_end_of_a_repetition() {
    let mut p = Parser::new("a+");
    let tree = p.parse();
    let input: Vec<char> = "aaa".chars().collect();
    let mut ends = match_node(&tree, &input, 0);
    ends.sort();
    assert_eq!(ends, vec![1, 2, 3]);
}

#[test]
fn match_node_empty_when_nothing_matches() {
    let mut p = Parser::new("z");
    let tree = p.parse();
    let input: Vec<char> = "abc".chars().collect();
    assert!(match_node(&tree, &input, 0).is_empty());
    assert!(match_node(&tree, &input, 3).is_empty());
}

#[test]
fn dot_needs_one_character() {
    assert!(is_match("x", "."));
    assert!(!is_match("", "."));
}

#[test]
fn digit_class_scenarios() {
    assert!(is_match("5", "\\d"));
    assert!(!is_match("x", "\\d"));
    assert!(is_match("year 2024", "\\d\\d\\d\\d"));
}

#[test]
fn word_class_scenarios() {
    assert!(is_match("a", "\\w"));
    assert!(is_match("_", "\\w"));
    assert!(is_match("7", "\\w"));
    assert!(!is_match("--- ---", "\\w"));
}

#[test]
fn escaped_metacharacters_are_literals() {
    assert!(is_match("a.b", "a\\.b"));
    assert!(!is_match("axb", "a\\.b"));
    assert!(is_match("a+", "a\\+"));
}

#[test]
fn trailing_backslash_is_a_literal_backslash() {
    assert!(is_match("a\\", "a\\"));
    assert!(!is_match("ab", "a\\"));
}

#[test]
fn unterminated_set_runs_to_end_of_pattern() {
    assert!(is_match("b", "[abc"));
    assert!(!is_match("x", "[abc"));
}

#[test]
fn unterminated_group_is_accepted() {
    assert!(is_match("ab", "(ab"));
    assert!(!is_match("ba ba", "(ab"));
}

#[test]
fn empty_set_matches_nothing() {
    assert!(!is_match("a", "[]"));
    assert!(!is_match("", "[]"));
}

#[test]
fn negated_empty_set_matches_any_character() {
    assert!(is_match("a", "[^]"));
    assert!(!is_match("", "[^]"));
}

#[test]
fn backreference_to_absent_group_never_matches() {
    assert!(!is_match("8", "\\8"));
    assert!(!is_match("", "\\8"));
    assert!(!is_match("anything at all", "x\\8"));
}

#[test]
fn backreference_inside_repetition() {
    assert!(is_match("abab", "(ab)\\1"));
    assert!(!is_match("abba", "(ab)\\1"));
}

#[test]
fn group_under_one_or_more() {
    assert!(is_match("abab", "(ab)+"));
    assert!(is_match("aba", "(ab)+"));
    assert!(!is_match("ba", "^(ab)+"));
}

#[test]
fn zero_or_one_matches_zero_width() {
    assert!(is_match("", "a?"));
    assert!(is_match("b", "a?"));
}

#[test]
fn zero_width_one_or_more_terminates_and_matches() {
    // the inner group consumes nothing; the fixed-point guard must stop
    assert!(is_match("", "()+"));
    assert!(is_match("xyz", "()+"));
}

#[test]
fn empty_alternation_branch_matches_zero_width() {
    assert!(is_match("", "x|"));
    assert!(is_match("y", "x|"));
}

#[test]
fn single_branch_collapses_without_alternation_node() {
    let mut p = Parser::new("ab");
    let tree = p.parse();
    assert!(matches!(tree, RegexNode::Sequence(_)));
}

#[test]
fn anchors_inside_longer_patterns() {
    assert!(is_match("hello world", "^hello"));
    assert!(!is_match("say hello", "^hello"));
    assert!(is_match("say hello", "hello$"));
    assert!(!is_match("hello world", "hello$"));
}

#[test]
fn unanchored_search_tries_every_offset() {
    assert!(is_match("xxabyy", "ab"));
    assert!(is_match("zzz5", "\\d"));
    assert!(!is_match("zzzz", "\\d"));
}

#[test]
fn nested_repetition_and_alternation() {
    assert!(is_match("acbcb", "a(cb)+"));
    assert!(is_match("dog and cat", "(cat|dog) and (cat|dog)"));
    assert!(!is_match("dog and fox", "(cat|dog) and (cat|dog)"));
}

#[test]
fn characters_beyond_ascii_count_as_one() {
    assert!(is_match("h\u{e9}llo", "h.llo"));
    assert!(is_match("na\u{ef}ve", "^na..e$"));
}

#[test]
fn word_class_accepts_unicode_letters() {
    assert!(is_match("\u{e9}", "\\w"));
}
