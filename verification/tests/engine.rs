use std::cmp::Ordering;

use regex_engine::SyntaxError;
use regex_engine::dfa::DfaBTree;
use regex_engine::matcher::Regex;
use regex_engine::nfa::Nfas;
use regex_engine::nfa::Transform;
use regex_engine::postfix::to_suffix;

fn compile(pattern: &str) -> Regex {
    Regex::new(pattern).expect("pattern should compile")
}

#[test]
fn union_laws() {
    let mut m = compile("a|b");
    assert_eq!(m.bfs_match("a"), true);
    assert_eq!(m.bfs_match("b"), true);
    assert_eq!(m.bfs_match("c"), false);
}

#[test]
fn closure_laws() {
    let mut star = compile("a*");
    assert_eq!(star.bfs_match(""), true);
    assert_eq!(star.bfs_match("aaaa"), true);
    let mut plus = compile("a+");
    assert_eq!(plus.bfs_match(""), false);
    assert_eq!(plus.bfs_match("a"), true);
    assert_eq!(plus.bfs_match("aaa"), true);
}

#[test]
fn concatenation_and_optional() {
    let mut m = compile("ab?c");
    assert_eq!(m.bfs_match("ac"), true);
    assert_eq!(m.bfs_match("abc"), true);
    assert_eq!(m.bfs_match("abbc"), false);
}

#[test]
fn full_string_semantics() {
    let mut m = compile("a");
    assert_eq!(m.bfs_match("a"), true);
    assert_eq!(m.bfs_match("ab"), false);
    assert_eq!(m.bfs_match(""), false);
}

#[test]
fn unbalanced_parenthesis_is_a_syntax_error() {
    assert_eq!(Regex::new("(a").err(), Some(SyntaxError::UnbalancedParenthesis));
    assert_eq!(Regex::new("a)").err(), Some(SyntaxError::UnbalancedParenthesis));
}

#[test]
fn missing_operand_is_a_syntax_error() {
    assert_eq!(Regex::new("*").err(), Some(SyntaxError::MissingOperand));
    assert_eq!(Regex::new("|a").err(), Some(SyntaxError::MissingOperand));
}

#[test]
fn empty_pattern_is_malformed() {
    assert_eq!(Regex::new("").err(), Some(SyntaxError::MalformedExpression));
}

#[test]
fn matching_is_deterministic_across_cache_states() {
    // the DFA cache grows between calls, but the outcome never changes
    let mut m = compile("(a|b)*c");
    let first = m.bfs_match("abac");
    assert_eq!(first, true);
    assert_eq!(m.bfs_match("abd"), false);
    assert_eq!(m.bfs_match(""), false);
    assert_eq!(m.bfs_match("abac"), first);
    assert_eq!(m.bfs_match("c"), true);
    assert_eq!(m.bfs_match("abac"), first);
}

#[test]
fn nested_groups_and_operators() {
    let mut m = compile("((a|b)c)*");
    assert_eq!(m.bfs_match(""), true);
    assert_eq!(m.bfs_match("ac"), true);
    assert_eq!(m.bfs_match("bcac"), true);
    assert_eq!(m.bfs_match("ab"), false);
    assert_eq!(m.bfs_match("ca"), false);
}

#[test]
fn postfix_conversion_inserts_concatenation() {
    let toks = to_suffix("ab|c").expect("balanced");
    let text: String = toks.into_iter().collect();
    assert_eq!(text, "ab.c|");
    let toks2 = to_suffix("a(bc)*").expect("balanced");
    let text2: String = toks2.into_iter().collect();
    assert_eq!(text2, "abc.*.");
}

#[test]
fn intern_is_idempotent() {
    let mut tree = DfaBTree::new();
    let mut key1: Vec<usize> = vec![0, 2, 5];
    let h1 = tree.or_insert(&mut key1);
    let mut key1_again: Vec<usize> = vec![0, 2, 5];
    let h2 = tree.or_insert(&mut key1_again);
    assert_eq!(h1, h2);
    assert_eq!(tree.states.len(), 1);
    let mut key2: Vec<usize> = vec![0, 2];
    let h3 = tree.or_insert(&mut key2);
    assert_ne!(h1, h3);
    assert_eq!(tree.states.len(), 2);
    let mut key2_again: Vec<usize> = vec![0, 2];
    assert_eq!(tree.or_insert(&mut key2_again), h3);
    assert_eq!(tree.states.len(), 2);
}

#[test]
fn interning_splays_the_handle_to_the_root() {
    let mut tree = DfaBTree::new();
    let mut a: Vec<usize> = vec![4];
    let ha = tree.or_insert(&mut a);
    assert_eq!(tree.root, Some(ha));
    let mut b: Vec<usize> = vec![1];
    let hb = tree.or_insert(&mut b);
    assert_eq!(tree.root, Some(hb));
    let mut c: Vec<usize> = vec![9];
    let hc = tree.or_insert(&mut c);
    assert_eq!(tree.root, Some(hc));
    // a lookup hit is splayed to the root as well
    let mut a_again: Vec<usize> = vec![4];
    assert_eq!(tree.or_insert(&mut a_again), ha);
    assert_eq!(tree.root, Some(ha));
}

#[test]
fn in_order_walk_is_strictly_increasing() {
    let mut tree = DfaBTree::new();
    let keys: Vec<Vec<usize>> = vec![
        vec![3, 4, 9],
        vec![1],
        vec![0, 2],
        vec![7],
        vec![0, 1, 2, 3],
        vec![2],
        vec![0, 3],
    ];
    for k in keys {
        let mut key = k.clone();
        tree.or_insert(&mut key);
    }
    let walk = tree.in_order_handles();
    assert_eq!(walk.len(), tree.states.len());
    for w in walk.windows(2) {
        let a = &tree.states[w[0]].nfa_nodes;
        let b = &tree.states[w[1]].nfa_nodes;
        assert_eq!(DfaBTree::list_cmp(a, b), Ordering::Less);
    }
}

#[test]
fn list_cmp_orders_by_length_then_contents() {
    let short: Vec<usize> = vec![9, 9];
    let long: Vec<usize> = vec![0, 0, 0];
    assert_eq!(DfaBTree::list_cmp(&short, &long), Ordering::Less);
    assert_eq!(DfaBTree::list_cmp(&long, &short), Ordering::Greater);
    let a: Vec<usize> = vec![1, 2, 3];
    let b: Vec<usize> = vec![1, 2, 4];
    assert_eq!(DfaBTree::list_cmp(&a, &b), Ordering::Less);
    assert_eq!(DfaBTree::list_cmp(&b, &a), Ordering::Greater);
    assert_eq!(DfaBTree::list_cmp(&a, &a.clone()), Ordering::Equal);
}

#[test]
fn unit_fragment_shape() {
    let mut arena = Nfas::new();
    let frag = arena.new_unit(Transform::Trans('x'));
    assert_eq!(arena.nodes.len(), 2);
    assert_eq!(frag.start, 0);
    assert_eq!(frag.end, 1);
    assert!(!arena.nodes[frag.start].is_end);
    assert!(arena.nodes[frag.end].is_end);
}

#[test]
fn characters_outside_the_alphabet_reject() {
    let mut m = compile("ab*");
    assert_eq!(m.bfs_match("ab"), true);
    assert_eq!(m.bfs_match("az"), false);
    assert_eq!(m.bfs_match("zb"), false);
}

#[test]
fn longer_alternation() {
    let mut m = compile("ab|cd|e");
    assert_eq!(m.bfs_match("ab"), true);
    assert_eq!(m.bfs_match("cd"), true);
    assert_eq!(m.bfs_match("e"), true);
    assert_eq!(m.bfs_match("ac"), false);
    assert_eq!(m.bfs_match("abe"), false);
}

#[test]
fn concat_links_left_exit_to_right_entry() {
    let mut arena = Nfas::new();
    let left = arena.new_unit(Transform::Trans('a'));
    let right = arena.new_unit(Transform::Trans('b'));
    let joined = arena.concat(left, right);
    assert_eq!(joined.start, left.start);
    assert_eq!(joined.end, right.end);
    // the left exit stops being terminal and flows on over an epsilon edge
    assert!(!arena.nodes[left.end].is_end);
    let edge = arena.nodes[left.end].edge1.expect("epsilon link");
    assert_eq!(edge.to, right.start);
    assert!(matches!(edge.trans, Transform::Epsilon));
}

#[test]
fn union_allocates_fresh_entry_and_exit() {
    let mut arena = Nfas::new();
    let a = arena.new_unit(Transform::Trans('a'));
    let b = arena.new_unit(Transform::Trans('b'));
    let either = arena.union(a, b);
    assert_eq!(arena.nodes.len(), 6);
    assert!(arena.nodes[either.end].is_end);
    assert!(!arena.nodes[a.end].is_end);
    assert!(!arena.nodes[b.end].is_end);
}

#[test]
fn single_node_fragment() {
    let mut arena = Nfas::new();
    let frag = arena.init_nfa();
    assert_eq!(frag.start, frag.end);
    assert_eq!(arena.nodes.len(), 1);
}
