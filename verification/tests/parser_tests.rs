use lib::filter::Filter;
use lib::lexer::{Kind, Token, COLON, COMMA, EQ, OR};
use lib::parser::{Parser, Predicate, Value};

#[test]
fn test_parser() {
    let p = Parser::filter("");
    assert!(p.is_ok());

    let p = Parser::filter("name:elmer,age:20");
    assert_eq!(
        p,
        Ok(Filter {
            predicates: vec![
                Predicate {
                    unused: Token {
                        kind: Kind::Operator,
                        value: vec![COMMA]
                    },
                    field: Token {
                        kind: Kind::Literal,
                        value: "name".chars().collect()
                    },
                    operator: Token {
                        kind: Kind::Operator,
                        value: vec![COLON]
                    },
                    value: Value(vec![Token {
                        kind: Kind::Literal,
                        value: "elmer".chars().collect()
                    }]),
                },
                Predicate {
                    unused: Token {
                        kind: Kind::Operator,
                        value: vec![COMMA]
                    },
                    field: Token {
                        kind: Kind::Literal,
                        value: "age".chars().collect()
                    },
                    operator: Token {
                        kind: Kind::Operator,
                        value: vec![COLON]
                    },
                    value: Value(vec![Token {
                        kind: Kind::Literal,
                        value: "20".chars().collect()
                    }]),
                }
            ]
        })
    );

    let p = Parser::filter("name:elmer,category=(one|two|three),age:20");
    assert_eq!(
        p,
        Ok(Filter {
            predicates: vec![
                Predicate {
                    unused: Token {
                        kind: Kind::Operator,
                        value: vec![COMMA]
                    },
                    field: Token {
                        kind: Kind::Literal,
                        value: "name".chars().collect()
                    },
                    operator: Token {
                        kind: Kind::Operator,
                        value: vec![COLON]
                    },
                    value: Value(vec![Token {
                        kind: Kind::Literal,
                        value: "elmer".chars().collect()
                    }]),
                },
                Predicate {
                    unused: Token {
                        kind: Kind::Operator,
                        value: vec![COMMA]
                    },
                    field: Token {
                        kind: Kind::Literal,
                        value: "category".chars().collect()
                    },
                    operator: Token {
                        kind: Kind::Operator,
                        value: vec![EQ]
                    },
                    value: Value(vec![
                        Token {
                            kind: Kind::Literal,
                            value: "one".chars().collect()
                        },
                        Token {
                            kind: Kind::Operator,
                            value: vec![OR]
                        },
                        Token {
                            kind: Kind::Literal,
                            value: "two".chars().collect()
                        },
                        Token {
                            kind: Kind::Operator,
                            value: vec![OR]
                        },
                        Token {
                            kind: Kind::Literal,
                            value: "three".chars().collect()
                        }
                    ]),
                },
                Predicate {
                    unused: Token {
                        kind: Kind::Operator,
                        value: vec![COMMA]
                    },
                    field: Token {
                        kind: Kind::Literal,
                        value: "age".chars().collect()
                    },
                    operator: Token {
                        kind: Kind::Operator,
                        value: vec![COLON]
                    },
                    value: Value(vec![Token {
                        kind: Kind::Literal,
                        value: "20".chars().collect()
                    }]),
                },
            ]
        })
    );

    let p = Parser::filter("cat=()");
    assert!(p.is_err());

    let p = Parser::filter("cat=(one|two,three)");
    assert!(p.is_err());
}
