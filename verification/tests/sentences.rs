use mytableau::parser::ParseError;
use mytableau::prop_tree::Concept;
use mytableau::prop_tree::PropTree;
use mytableau::prop_tree::Proposition;
use mytableau::truth_tree::TruthTree;

fn read(text: &str, table: &mut TruthTree) -> PropTree {
    PropTree::from_string(text, table).unwrap()
}

fn shape(tree: &PropTree) -> Vec<Concept> {
    tree.nodes.iter().map(|node| node.data).collect()
}

#[test]
fn test_from_string_to_string() {
    let mut table = TruthTree::new();
    assert_eq!(read("!(&(a b))", &mut table).to_string(&table), "!&(a b)");
    // ABox role
    let mut table = TruthTree::new();
    assert_eq!(read("a(b c)", &mut table).to_string(&table), "a(b c)");
}

#[test]
fn test_negate() {
    let mut table = TruthTree::new();
    // Naive negate
    assert_eq!(read("a", &mut table).negate().to_string(&table), "!a");
    assert_eq!(read("!(&(a b))", &mut table).negate().to_string(&table), "&(a b)");
    // Negate on and, or
    assert_eq!(read("&(!(a) b)", &mut table).negate().to_string(&table), "|(!!a !b)");
    assert_eq!(read("|(a &(b c))", &mut table).negate().to_string(&table), "&(!a !&(b c))");
    assert_eq!(read("#(a !(b))", &mut table).negate().to_string(&table), "@a.!!b");
}

#[test]
#[should_panic]
fn test_from_string_failed() {
    let mut table = TruthTree::new();
    println!("{}", read("&(a b", &mut table).to_string(&table));
}

#[test]
fn conjunction_keeps_source_order_of_operands() {
    let mut table = TruthTree::new();
    let tree = read("&(a b)", &mut table);
    assert_eq!(tree.root, Proposition::TConcept);
    // identifiers become atoms as they come off the stack, the last first
    assert_eq!(shape(&tree), vec![Concept::Atom(2), Concept::Atom(3), Concept::And(1, 0)]);
    assert_eq!(table.get_name(2), "b");
    assert_eq!(table.get_name(3), "a");
}

#[test]
fn node_ids_are_positions_and_children_come_first() {
    let mut table = TruthTree::new();
    let tree = read("=(>(a b) |(&(c !(d)) @(r #(s e))))", &mut table);
    for (at, node) in tree.nodes.iter().enumerate() {
        assert_eq!(node.id, at);
        let children = match node.data {
            Concept::And(a, b) | Concept::Or(a, b) => vec![a, b],
            Concept::Not(a) | Concept::ForAll(_, a) | Concept::Exist(_, a) => vec![a],
            Concept::Atom(_) => vec![],
        };
        for child in children {
            assert!(child < at);
        }
    }
}

#[test]
fn implication_is_written_out() {
    let mut table = TruthTree::new();
    let tree = read(">(a b)", &mut table);
    assert_eq!(
        shape(&tree),
        vec![Concept::Atom(2), Concept::Atom(3), Concept::Not(1), Concept::Or(2, 0)]
    );
    assert_eq!(tree.to_string(&table), "|(!a b)");
    let mut other = TruthTree::new();
    assert_eq!(read("|(!(a) b)", &mut other).to_string(&other), "|(!a b)");
}

#[test]
fn biconditional_is_written_out() {
    let mut table = TruthTree::new();
    let tree = read("=(a b)", &mut table);
    assert_eq!(
        shape(&tree),
        vec![
            Concept::Atom(2),
            Concept::Atom(3),
            Concept::Not(1),
            Concept::Or(2, 0),
            Concept::Not(0),
            Concept::Or(4, 1),
            Concept::And(3, 5),
        ]
    );
    assert_eq!(tree.to_string(&table), "&(|(!a b) |(!b a))");
    let mut other = TruthTree::new();
    assert_eq!(
        read("&(|(!(a) b) |(!(b) a))", &mut other).to_string(&other),
        "&(|(!a b) |(!b a))"
    );
}

#[test]
fn restrictions_take_role_then_body() {
    let mut table = TruthTree::new();
    let tree = read("@(r &(a b))", &mut table);
    assert_eq!(
        shape(&tree),
        vec![Concept::Atom(2), Concept::Atom(3), Concept::And(1, 0), Concept::ForAll(4, 2)]
    );
    assert_eq!(table.get_name(4), "r");
    assert_eq!(tree.to_string(&table), "@r.&(a b)");
    let tree = read("#(r a)", &mut table);
    assert_eq!(shape(&tree), vec![Concept::Atom(3), Concept::Exist(4, 0)]);
    assert_eq!(tree.to_string(&table), "#r.a");
}

#[test]
fn bare_identifier_is_an_atom() {
    let mut table = TruthTree::new();
    let tree = read("  abc12 ", &mut table);
    assert_eq!(tree.root, Proposition::TConcept);
    assert_eq!(shape(&tree), vec![Concept::Atom(2)]);
    assert_eq!(table.get_name(2), "abc12");
}

#[test]
fn reserved_names_keep_their_symbols() {
    let mut table = TruthTree::new();
    let tree = read("&(Top Bottom)", &mut table);
    assert_eq!(shape(&tree), vec![Concept::Atom(1), Concept::Atom(0), Concept::And(1, 0)]);
    assert_eq!(table.last_symbol(), 1);
}

#[test]
fn concept_assertion_names_concept_then_individual() {
    let mut table = TruthTree::new();
    let tree = read("C(a)", &mut table);
    assert_eq!(tree.root, Proposition::AConcept(2));
    assert_eq!(shape(&tree), vec![Concept::Atom(3)]);
    assert_eq!(table.get_name(2), "a");
    assert_eq!(table.get_name(3), "C");
    assert_eq!(tree.to_string(&table), "C(a)");
}

#[test]
fn role_assertion_positive_and_negated() {
    let mut table = TruthTree::new();
    let tree = read("r(a b)", &mut table);
    // b is 2, a is 3, r is 4
    assert_eq!(tree.root, Proposition::ARole(true, 4, 3, 2));
    assert!(tree.nodes.is_empty());
    let tree = read("!(r(a b))", &mut table);
    assert_eq!(tree.root, Proposition::ARole(false, 4, 3, 2));
    assert!(tree.nodes.is_empty());
    assert_eq!(tree.to_string(&table), "!r(a b)");
}

#[test]
fn nothing_is_read_after_an_assertion() {
    let mut table = TruthTree::new();
    let tree = read("r(a b) $$ ((", &mut table);
    assert_eq!(tree.root, Proposition::ARole(true, 4, 3, 2));
    let tree = read("C(a) ???", &mut table);
    assert_eq!(tree.root, Proposition::AConcept(3));
}

fn error_of(text: &str) -> ParseError {
    let mut table = TruthTree::new();
    match PropTree::from_string(text, &mut table) {
        Ok(tree) => panic!("{:?} was read as {:?}", text, tree),
        Err(e) => e,
    }
}

#[test]
fn every_error_has_a_text_that_gives_it() {
    assert_eq!(error_of("&(a $)"), ParseError::UnexpectedCharacter('$'));
    assert_eq!(error_of("a\tb"), ParseError::UnexpectedCharacter('\t'));
    assert_eq!(error_of("&(a & b)"), ParseError::OperatorInArguments);
    assert_eq!(error_of("a)"), ParseError::UnbalancedParentheses);
    assert_eq!(error_of("&(a b"), ParseError::UnbalancedParentheses);
    assert_eq!(error_of("&(a b) c"), ParseError::UnbalancedParentheses);
    assert_eq!(error_of("(a)"), ParseError::MissingOperator);
    assert_eq!(error_of("&(a b)(c)"), ParseError::MissingOperator);
    assert_eq!(error_of("&(a)"), ParseError::WrongArity);
    assert_eq!(error_of("|(a b c)"), ParseError::WrongArity);
    assert_eq!(error_of("!(a b)"), ParseError::WrongArity);
    assert_eq!(error_of("@(r)"), ParseError::WrongArity);
    assert_eq!(error_of("r(a b c)"), ParseError::WrongArity);
    assert_eq!(error_of("@(&(a b) c)"), ParseError::ExpectedIdentifier);
    assert_eq!(error_of("C(&(a b))"), ParseError::ExpectedIdentifier);
    assert_eq!(error_of("r(a !(b))"), ParseError::ExpectedIdentifier);
    assert_eq!(error_of("&(a r(b c))"), ParseError::MisplacedAssertion);
    assert_eq!(error_of("!(C(a))"), ParseError::MisplacedAssertion);
    assert_eq!(error_of("a &"), ParseError::TrailingOperator);
    assert_eq!(error_of("&("), ParseError::TrailingOperator);
    assert_eq!(error_of(""), ParseError::Empty);
    assert_eq!(error_of("   "), ParseError::Empty);
}

#[test]
fn clone_subtree_renumbers_from_zero() {
    let mut table = TruthTree::new();
    let tree = read("|(a &(b !(c)))", &mut table);
    // c=2, Not, b=3, And, a=4, Or
    assert_eq!(
        shape(&tree),
        vec![
            Concept::Atom(2),
            Concept::Not(0),
            Concept::Atom(3),
            Concept::And(2, 1),
            Concept::Atom(4),
            Concept::Or(4, 3),
        ]
    );
    let part = tree.clone_subtree(3);
    assert_eq!(part.root, Proposition::TConcept);
    assert_eq!(
        shape(&part),
        vec![Concept::Atom(3), Concept::Atom(2), Concept::Not(1), Concept::And(0, 2)]
    );
    assert_eq!(part.to_string(&table), "&(b !c)");
    let mut into = PropTree::new(&Proposition::AConcept(9));
    into.push_node(Concept::Atom(7));
    let at = tree.clone_subtree_recurse(&mut into, 1);
    assert_eq!(at, 2);
    assert_eq!(into.root, Proposition::AConcept(9));
    assert_eq!(shape(&into), vec![Concept::Atom(7), Concept::Atom(2), Concept::Not(1)]);
}

#[test]
fn negate_rewrites_the_outermost_node() {
    let mut table = TruthTree::new();
    let tree = read("&(a b)", &mut table).negate();
    assert_eq!(
        shape(&tree),
        vec![
            Concept::Atom(2),
            Concept::Atom(3),
            Concept::Not(1),
            Concept::Not(0),
            Concept::Or(2, 3),
        ]
    );
    let tree = read("@(r a)", &mut table).negate();
    assert_eq!(shape(&tree), vec![Concept::Atom(3), Concept::Not(0), Concept::Exist(4, 1)]);
    let tree = read("C(x)", &mut table);
    let root = tree.root;
    let tree = tree.negate();
    assert_eq!(tree.root, root);
    assert_eq!(tree.to_string(&table), "!C(x)");
}

#[test]
fn negate_twice_gives_a_literal_back() {
    let mut table = TruthTree::new();
    let tree = read("a", &mut table);
    let twice = tree.clone().negate().negate();
    assert_eq!(shape(&twice), shape(&tree));
    let tree = read("!(a)", &mut table);
    let twice = tree.clone().negate().negate();
    assert_eq!(shape(&twice), shape(&tree));
    assert!(tree.atom_check(&tree.clone().negate()));
}

#[test]
fn atom_check_finds_opposite_literals() {
    let mut table = TruthTree::new();
    let a = read("a", &mut table);
    let not_a = read("!(a)", &mut table);
    let b = read("b", &mut table);
    let both = read("&(a b)", &mut table);
    assert!(a.atom_check(&not_a));
    assert!(not_a.atom_check(&a));
    assert!(!a.atom_check(&a));
    assert!(!not_a.atom_check(&not_a));
    assert!(!b.atom_check(&not_a));
    assert!(!both.atom_check(&not_a));
    assert_eq!(a.concept_atom_check(), Some((true, 2)));
    assert_eq!(not_a.concept_atom_check(), Some((false, 2)));
    assert_eq!(both.concept_atom_check(), None);
}

#[test]
fn atom_check_minds_individuals_and_roles() {
    let mut table = TruthTree::new();
    let ca = read("C(a)", &mut table);
    let mut not_ca = ca.clone().negate();
    let c = read("C", &mut table);
    assert!(ca.atom_check(&not_ca));
    assert!(c.atom_check(&not_ca));
    assert!(not_ca.atom_check(&c));
    not_ca.root = Proposition::AConcept(77);
    assert!(!ca.atom_check(&not_ca));
    assert!(!not_ca.atom_check(&ca));
    let r = read("r(a b)", &mut table);
    let not_r = read("!(r(a b))", &mut table);
    let other = read("!(r(b a))", &mut table);
    assert!(r.atom_check(&not_r));
    assert!(not_r.atom_check(&r));
    assert!(!r.atom_check(&r));
    assert!(!r.atom_check(&other));
    assert!(!r.atom_check(&ca));
    assert!(!ca.atom_check(&r));
}

#[test]
fn atom_check_is_symmetric_on_samples() {
    let mut table = TruthTree::new();
    let texts = ["a", "!(a)", "b", "&(a b)", "C(a)", "a(b)", "r(a b)", "!(r(a b))", "!(!(a))"];
    let trees: Vec<PropTree> = texts.iter().map(|t| read(t, &mut table)).collect();
    for p in &trees {
        for q in &trees {
            assert_eq!(p.atom_check(q), q.atom_check(p));
        }
    }
}

#[test]
fn pop_ident_and_cut_to() {
    let mut table = TruthTree::new();
    let mut tree = read("a", &mut table);
    assert_eq!(tree.pop_ident(), 2);
    assert!(tree.nodes.is_empty());
    let tree = read("!(&(a b))", &mut table).cut_to(2);
    assert_eq!(tree.to_string(&table), "&(a b)");
}

#[test]
fn a_text_that_fails_leaves_the_names_read_so_far() {
    let mut table = TruthTree::new();
    assert_eq!(
        PropTree::from_string("&(a $)", &mut table).err(),
        Some(ParseError::UnexpectedCharacter('$'))
    );
    assert_eq!(table.last_symbol(), 1);
    assert!(PropTree::from_string("|(a b c)", &mut table).is_err());
    assert_eq!(table.last_symbol(), 4);
    assert_eq!(table.get_name(2), "c");
    assert_eq!(table.get_name(4), "a");
    assert!(PropTree::from_string("&(a r(b c))", &mut table).is_err());
    assert_eq!(table.last_symbol(), 4);
}

#[test]
fn conjunctions_and_disjunctions_print_as_they_are_read() {
    let mut table = TruthTree::new();
    for text in ["a", "&(a b)", "|(a &(b c))", "&(|(a b) |(c |(d a)))", "a(b c)", "C(x)"] {
        let tree = read(text, &mut table);
        let printed = tree.to_string(&table);
        assert_eq!(printed, text);
        let again = read(&printed, &mut table);
        assert_eq!(again.root, tree.root);
        assert_eq!(shape(&again), shape(&tree));
    }
}

#[test]
fn printed_negations_and_restrictions_are_not_read_back() {
    let mut table = TruthTree::new();
    let printed = read("!(a)", &mut table).to_string(&table);
    assert_eq!(printed, "!a");
    assert_eq!(error_of(&printed), ParseError::UnbalancedParentheses);
    let printed = read("@(r a)", &mut table).to_string(&table);
    assert_eq!(printed, "@r.a");
    assert_eq!(error_of(&printed), ParseError::UnexpectedCharacter('.'));
}

#[test]
fn negate_twice_keeps_the_meaning_but_not_the_shape() {
    let mut table = TruthTree::new();
    let tree = read("&(a b)", &mut table);
    let twice = tree.clone().negate().negate();
    assert_eq!(twice.to_string(&table), "&(!!a !!b)");
    assert_eq!(twice.root, tree.root);
}
