use kaleo::lexer::Lexer;
use kaleo::parser::{OpTable, NO_OPERATOR_PRECEDENCE};

#[test]
fn operator_table_lookup_and_overwrite() {
    let mut table = OpTable::with_defaults();
    assert_eq!(table.get('+'), 20);
    assert_eq!(table.get('-'), 20);
    assert_eq!(table.get('*'), 40);
    assert_eq!(table.get('<'), 10);
    assert_eq!(table.get('='), 2);
    assert_eq!(table.get('$'), NO_OPERATOR_PRECEDENCE);
    table.set('$', 55);
    assert_eq!(table.get('$'), 55);
    table.set('+', 33);
    assert_eq!(table.get('+'), 33);
}

#[test]
fn empty_table_knows_no_operator() {
    let table = OpTable::empty();
    assert_eq!(table.get('+'), NO_OPERATOR_PRECEDENCE);
}

#[test]
fn numeric_character_class() {
    assert!(Lexer::is_numeric('0'));
    assert!(Lexer::is_numeric('9'));
    assert!(Lexer::is_numeric('.'));
    assert!(!Lexer::is_numeric('a'));
    assert!(!Lexer::is_numeric(' '));
}
