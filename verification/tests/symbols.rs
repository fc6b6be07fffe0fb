use mytableau::lexer::characters;
use mytableau::lexer::ident_char;
use mytableau::lexer::lex;
use mytableau::lexer::symbol;
use mytableau::lexer::TokenOrUnit;
use mytableau::symbols::push_decimal;
use mytableau::symbols::synthetic_name;
use mytableau::truth_tree::TruthTree;

#[test]
fn reserved_symbols_are_there_from_the_start() {
    let table = TruthTree::new();
    assert_eq!(table.get_name(0), "Top");
    assert_eq!(table.get_name(1), "Bottom");
    assert_eq!(table.get_name(2), "NotFound");
    assert_eq!(table.last_symbol(), 1);
    let table = TruthTree::default();
    assert_eq!(table.get_name(0), "Top");
    assert_eq!(table.last_symbol(), 1);
}

#[test]
fn interning_is_stable_and_increasing() {
    let mut table = TruthTree::new();
    assert_eq!(table.alloc_aid(Some("Top".to_string())), 0);
    assert_eq!(table.alloc_aid(Some("Bottom".to_string())), 1);
    assert_eq!(table.alloc_aid(Some("x".to_string())), 2);
    assert_eq!(table.alloc_aid(Some("y".to_string())), 3);
    assert_eq!(table.alloc_aid(Some("x".to_string())), 2);
    assert_eq!(table.alloc_aid(Some("Top".to_string())), 0);
    assert_eq!(table.last_symbol(), 3);
    assert_eq!(table.get_name(2), "x");
    assert_eq!(table.get_name(3), "y");
}

#[test]
fn unnamed_symbols_are_fresh_and_named_after_their_number() {
    let mut table = TruthTree::new();
    assert_eq!(table.alloc_aid(Some("x".to_string())), 2);
    assert_eq!(table.alloc_aid(None), 3);
    assert_eq!(table.alloc_aid(None), 4);
    assert_eq!(table.get_name(3), "autoname3");
    assert_eq!(table.get_name(4), "autoname4");
    assert_eq!(table.alloc_aid(Some("autoname4".to_string())), 4);
}

#[test]
fn a_name_keeps_its_symbol_when_a_synthetic_name_collides() {
    let mut table = TruthTree::new();
    assert_eq!(table.alloc_aid(Some("autoname3".to_string())), 2);
    assert_eq!(table.alloc_aid(None), 3);
    assert_eq!(table.get_name(3), "autoname3");
    assert_eq!(table.alloc_aid(Some("autoname3".to_string())), 2);
}

#[test]
fn decimal_names() {
    assert_eq!(synthetic_name(0), "autoname0");
    assert_eq!(synthetic_name(7), "autoname7");
    assert_eq!(synthetic_name(10), "autoname10");
    assert_eq!(synthetic_name(1203), "autoname1203");
    assert_eq!(synthetic_name(usize::MAX), format!("autoname{}", usize::MAX));
    let mut text = String::from("n");
    push_decimal(&mut text, 9080);
    assert_eq!(text, "n9080");
}

#[test]
fn lexer_splits_identifiers_and_symbols() {
    let chars = characters("&(ab  c1)!|>=@#");
    assert_eq!(chars.len(), 15);
    assert_eq!(
        lex(&chars),
        vec![
            TokenOrUnit::And,
            TokenOrUnit::LeftParenthesis,
            TokenOrUnit::Ident(2, 4),
            TokenOrUnit::Ident(6, 8),
            TokenOrUnit::RightParenthesis,
            TokenOrUnit::Not,
            TokenOrUnit::Or,
            TokenOrUnit::Imply,
            TokenOrUnit::Xnor,
            TokenOrUnit::ForAll,
            TokenOrUnit::Exist,
        ]
    );
}

#[test]
fn lexer_keeps_unknown_characters_as_tokens() {
    assert_eq!(
        lex(&characters("a.b")),
        vec![TokenOrUnit::Ident(0, 1), TokenOrUnit::Unexpected('.'), TokenOrUnit::Ident(2, 3)]
    );
    assert_eq!(lex(&characters("é")), vec![TokenOrUnit::Unexpected('é')]);
    assert_eq!(lex(&characters("")), vec![]);
    assert_eq!(lex(&characters("    ")), vec![]);
    assert_eq!(symbol('('), TokenOrUnit::LeftParenthesis);
    assert_eq!(symbol('\n'), TokenOrUnit::Unexpected('\n'));
    assert!(ident_char('a') && ident_char('Z') && ident_char('0') && ident_char('9'));
    assert!(!ident_char('_') && !ident_char(' ') && !ident_char('('));
}

#[test]
fn identifiers_after_wide_characters_are_found() {
    let mut table = TruthTree::new();
    let tree = mytableau::prop_tree::PropTree::from_string("r(ab c) é", &mut table).unwrap();
    assert_eq!(tree.to_string(&table), "r(ab c)");
}
