use mytableau::prop_tree::Concept;
use mytableau::prop_tree::PropTree;
use mytableau::prop_tree::Proposition;
use mytableau::truth_tree::TruthTree;

const BUDGET: usize = 10_000;

fn read_all(lines: &[&str], table: &mut TruthTree) -> Vec<PropTree> {
    lines.iter().map(|line| PropTree::from_string(line, table).unwrap()).collect()
}

/// Whether the sentences cannot hold together.
fn closes(lines: &[&str]) -> Option<bool> {
    let mut table = TruthTree::new();
    let leaf = read_all(lines, &mut table);
    table.prove(leaf, BUDGET)
}

/// Whether the sentence holds whatever its atoms mean: its negation has no
/// open branch.
fn valid(line: &str) -> Option<bool> {
    let mut table = TruthTree::new();
    let tree = PropTree::from_string(line, &mut table).unwrap().negate();
    table.prove(vec![tree], BUDGET)
}

#[test]
fn excluded_middle_is_valid() {
    assert_eq!(valid("|(a !(a))"), Some(true));
    assert_eq!(closes(&["|(a !(a))"]), Some(false));
}

#[test]
fn contraposition_is_valid() {
    assert_eq!(valid("=(>(a b) >(!(b) !(a)))"), Some(true));
    assert_eq!(closes(&["=(>(a b) >(!(b) !(a)))"]), Some(false));
}

#[test]
fn disjunction_that_fails_with_both_atoms_false() {
    // b or (b and not a) or a is false where a and b both are
    assert_eq!(valid("|(b |(&(b !(a)) a))"), Some(false));
    assert_eq!(closes(&["|(b |(&(b !(a)) a))"]), Some(false));
    assert_eq!(closes(&["|(b |(&(b !(a)) a))", "!(a)", "!(b)"]), Some(true));
}

#[test]
fn atom_with_negated_disjunction_closes() {
    assert_eq!(closes(&["&(a !(|(a b)))"]), Some(true));
    assert_eq!(valid("&(a !(|(a b)))"), Some(false));
}

#[test]
fn disjunction_with_a_counterexample_is_not_valid() {
    // a true, b and c false
    assert_eq!(valid("|(&(a c) |(!(a) b))"), Some(false));
    assert_eq!(closes(&["|(&(a c) |(!(a) b))"]), Some(false));
    assert_eq!(closes(&["|(&(a c) |(!(a) b))", "a", "!(b)", "!(c)"]), Some(true));
}

#[test]
fn universal_restriction_follows_a_role() {
    assert_eq!(closes(&["r(a b)", "@(r c)", "!(c)"]), Some(true));
    assert_eq!(closes(&["r(a b)", "@(r c)"]), Some(false));
    // another role is not followed
    assert_eq!(closes(&["s(a b)", "@(r c)", "!(c)"]), Some(false));
    // a negated role assertion is not followed
    assert_eq!(closes(&["!(r(a b))", "@(r c)", "!(c)"]), Some(false));
}

#[test]
fn universal_restriction_of_an_individual_follows_its_roles_only() {
    let mut table = TruthTree::new();
    let role = PropTree::from_string("r(a b)", &mut table).unwrap();
    let (a, b) = match role.root {
        Proposition::ARole(true, _, a, b) => (a, b),
        other => panic!("{:?}", other),
    };
    let not_c = PropTree::from_string("!(c)", &mut table).unwrap();
    let mut all = PropTree::from_string("@(r c)", &mut table).unwrap();
    all.root = Proposition::AConcept(a);
    let leaf = vec![role.clone(), all.clone(), not_c.clone()];
    assert_eq!(table.prove(leaf, BUDGET), Some(true));
    all.root = Proposition::AConcept(b);
    let leaf = vec![role, all, not_c];
    assert_eq!(table.prove(leaf, BUDGET), Some(false));
}

#[test]
fn existential_restriction_makes_two_new_individuals() {
    let mut table = TruthTree::new();
    let leaf = read_all(&["#(r c)"], &mut table);
    let before = table.last_symbol();
    assert_eq!(table.prove(leaf, BUDGET), Some(false));
    assert_eq!(table.last_symbol(), before + 2);
    assert_eq!(table.get_name(before + 1), format!("autoname{}", before + 1));
    assert_eq!(table.get_name(before + 2), format!("autoname{}", before + 2));
}

#[test]
fn existential_and_universal_restriction_meet() {
    assert_eq!(closes(&["&(#(r c) @(r !(c)))"]), Some(true));
    assert_eq!(closes(&["&(#(r c) @(s !(c)))"]), Some(false));
    assert_eq!(valid(">(@(r c) !(#(r !(c))))"), Some(true));
}

#[test]
fn role_assertions_contradict_by_polarity() {
    assert_eq!(closes(&["r(a b)", "!(r(a b))"]), Some(true));
    assert_eq!(closes(&["r(a b)", "!(r(b a))"]), Some(false));
    assert_eq!(closes(&["r(a b)", "r(a b)"]), Some(false));
}

#[test]
fn concept_assertions_contradict_on_the_same_individual() {
    let mut table = TruthTree::new();
    let ca = PropTree::from_string("C(a)", &mut table).unwrap();
    let not_ca = ca.clone().negate();
    let mut not_cb = not_ca.clone();
    not_cb.root = Proposition::AConcept(1000);
    assert_eq!(table.prove(vec![ca.clone(), not_ca], BUDGET), Some(true));
    assert_eq!(table.prove(vec![ca, not_cb], BUDGET), Some(false));
}

#[test]
fn top_and_bottom() {
    assert_eq!(closes(&["Top"]), Some(false));
    assert_eq!(closes(&["Bottom"]), Some(true));
    assert_eq!(closes(&["!(Top)"]), Some(true));
    assert_eq!(closes(&["!(Bottom)"]), Some(false));
    assert_eq!(closes(&["&(Top a)"]), Some(false));
    assert_eq!(closes(&["|(Bottom !(Top))"]), Some(true));
    assert_eq!(closes(&["a", "!(Bottom)", "!(a)"]), Some(true));
}

#[test]
fn nothing_to_expand_is_open() {
    assert_eq!(closes(&[]), Some(false));
}

#[test]
fn a_search_without_steps_has_no_verdict() {
    let mut table = TruthTree::new();
    assert_eq!(table.prove(Vec::new(), 0), None);
    let leaf = read_all(&["&(a !(a))"], &mut table);
    assert_eq!(table.prove(leaf.clone(), 1), None);
    assert_eq!(table.prove(leaf.clone(), 2), None);
    assert_eq!(table.prove(leaf.clone(), 3), Some(true));
    assert_eq!(table.prove(leaf, 4), Some(true));
}

#[test]
fn prove_recurse_returns_the_steps_left() {
    let mut table = TruthTree::new();
    let leaf = read_all(&["&(a !(a))"], &mut table);
    // one frame for the conjunction, one below !a, one below a
    assert_eq!(table.prove_recurse(None, leaf.clone(), 10), (Some(true), 7));
    assert_eq!(table.prove_recurse(None, leaf, 2), (None, 0));
    assert_eq!(table.prove_recurse(None, Vec::new(), 5), (Some(false), 4));
}

#[test]
fn branch_store_keeps_what_was_put_on_a_branch() {
    let mut table = TruthTree::new();
    let a = PropTree::from_string("a", &mut table).unwrap();
    let not_a = PropTree::from_string("!(a)", &mut table).unwrap();
    let role = PropTree::from_string("r(x y)", &mut table).unwrap();
    let other = PropTree::from_string("r(x z)", &mut table).unwrap();
    let (r, x, y, z) = match (role.root, other.root) {
        (Proposition::ARole(_, r, x, y), Proposition::ARole(_, _, _, z)) => (r, x, y, z),
        _ => unreachable!(),
    };
    let n0 = table.push_node(None, a);
    let n1 = table.push_node(Some(n0), role);
    let n2 = table.push_node(Some(n1), other);
    let n3 = table.push_node(Some(n2), not_a.clone());
    let n4 = table.push_node(Some(n0), not_a);
    assert_eq!((n0, n1, n2, n3, n4), (0, 1, 2, 3, 4));
    for id in [n0, n1, n2, n3, n4] {
        match table.parent(id) {
            Some(above) => assert!(above < id),
            None => assert_eq!(id, n0),
        }
    }
    assert_eq!(table.parent(n0), None);
    assert_eq!(table.parent(n3), Some(n2));
    assert_eq!(table.parent(n4), Some(n0));
    assert!(!table.upmatch(n0));
    assert!(!table.upmatch(n2));
    assert!(table.upmatch(n3));
    assert!(table.upmatch(n4));
    assert_eq!(table.upmatch_role(n3, (true, r, None)), vec![z, y]);
    assert_eq!(table.upmatch_role(n3, (true, r, Some(x))), vec![z, y]);
    assert_eq!(table.upmatch_role(n3, (true, r, Some(y))), Vec::<usize>::new());
    assert_eq!(table.upmatch_role(n3, (false, r, None)), Vec::<usize>::new());
    assert_eq!(table.upmatch_role(n1, (true, r, None)), vec![y]);
    assert_eq!(table.upmatch_role(n4, (true, r, None)), Vec::<usize>::new());
}

#[test]
fn a_negation_whose_operand_stands_apart_is_expanded() {
    // built by hand: the operand of the outer Not is not the node before it
    let mut table = TruthTree::new();
    let a = table.alloc_aid(Some("a".to_string()));
    let mut tree = PropTree::new(&Proposition::TConcept);
    let atom = tree.push_node(Concept::Atom(a));
    let not = tree.push_node(Concept::Not(atom));
    let or = tree.push_node(Concept::Or(atom, not));
    tree.push_node(Concept::Atom(a));
    tree.push_node(Concept::Not(or));
    assert_eq!(tree.to_string(&table), "!|(a !a)");
    assert_eq!(table.prove(vec![tree], BUDGET), Some(true));
}
