use lozenge::ast::{Literal, Token, Type};

#[test]
fn token_new_keeps_its_fields() {
    let t = Token::new(Type::Number, "42".to_string(), Some(Literal::Number(42)), 3);
    assert_eq!(t.kind, Type::Number);
    assert_eq!(t.lexeme, "42");
    assert!(matches!(t.literal, Some(Literal::Number(42))));
    assert_eq!(t.line, 3);
}

#[test]
fn token_kinds_compare_by_variant() {
    assert_eq!(Type::ColonEqual, Type::ColonEqual);
    assert_ne!(Type::Less, Type::LessEqual);
}
