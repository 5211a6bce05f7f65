use lib::filter::Filter;
use lib::lexer::{Kind, Token, TokenValue, OR};
use lib::parser::Parser;


#[test]
fn test_filter_empty() {
    let p = Parser::filter("");
    assert_eq!(p, Ok(Filter { predicates: vec![] }));
}

#[test]
fn test_filter_complex() {
    let p =
        Parser::filter("name:elmer,age:20,category=(a|b|c),name.first:elmer,name.last=fudd");
    assert!(p.is_ok());
    let filter = p.unwrap();
    assert_eq!(filter.predicates.len(), 5);
    assert_eq!(filter.is_empty(), false);

    // Test name:elmer
    let field = filter.field("name");
    assert!(field.is_some());
    let field = field.unwrap();
    assert_eq!(field.name(), "name");
    let option = field.predicate.value.0.get(0).map(|c| c.as_value());
    assert_eq!(option, Some(TokenValue::String("elmer".to_string())));

    // Test category
    let field = filter.field("category");
    assert!(field.is_some());
    let field = field.unwrap();
    assert_eq!(field.name(), "category");
    assert_eq!(
        field.predicate.value.by_kind(vec![Kind::Operator]),
        vec![
            Token {
                kind: Kind::Operator,
                value: vec![OR]
            },
            Token {
                kind: Kind::Operator,
                value: vec![OR]
            }
        ]
    );
    assert_eq!(
        field
            .predicate
            .value
            .by_kind(vec![Kind::Literal, Kind::String]),
        vec![
            Token {
                kind: Kind::Literal,
                value: vec!['a']
            },
            Token {
                kind: Kind::Literal,
                value: vec!['b']
            },
            Token {
                kind: Kind::Literal,
                value: vec!['c']
            }
        ]
    );

    // Test name.first
    let field = filter.field("name.first");
    assert!(field.is_some());
    let field = field.unwrap();
    let option = field.predicate.value.0.get(0).map(|c| c.as_value());
    assert_eq!(option, Some(TokenValue::String("elmer".to_string())));

    // Test name.last
    let field = filter.field("name.last");
    assert!(field.is_some());
    let field = field.unwrap();
    let value = field.predicate.value.0.get(0).map(|c| c.as_value());
    assert_eq!(value, Some(TokenValue::String("fudd".to_string())));

    // Test Resource name.first
    let resource = filter.resource("name");
    let field = resource.field("first");
    assert!(field.is_some());
    let field = field.unwrap();
    assert_eq!(field.name(), "first");
    let value = field.predicate.value.0.get(0).map(|c| c.as_value());
    assert_eq!(value, Some(TokenValue::String("elmer".to_string())));

    // Test Resource Name.First
    let resource = filter.resource("Name");
    let field = resource.field("First");
    assert!(field.is_some());
    let field = field.unwrap();
    assert_eq!(field.name(), "first");
}

#[test]
fn test_filter_resource_numeric() {
    let p = Parser::filter("app.name=test,app.tag.id=0");
    assert!(p.is_ok());

    // Test app.name
    let filter = p.unwrap();
    let filter = filter.resource("app");
    let option = filter.field("name");
    assert!(option.is_some());
    let field = option.unwrap();
    let value = field.predicate.value.0.get(0).map(|c| c.as_value());
    assert_eq!(value, Some(TokenValue::String("test".to_string())));

    // Test Resource app.tag.id
    let filter = filter.resource("tag");
    let option = filter.field("id");
    assert!(option.is_some());
    let field = option.unwrap();
    let value = field.predicate.value.0.get(0).map(|c| c.as_value());
    assert_eq!(value, Some(TokenValue::Number(0)));
}
