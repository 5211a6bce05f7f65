use lib::lexer::{Kind, Lexer, Token, AND, COLON, COMMA, EQ, GT, LIKE, LPAREN, OR, RPAREN};


#[test]
fn test_lexer1() {
    let result = Lexer::with("name:elmer,age:20".to_string());
    assert_eq!(
        result,
        Ok(Lexer {
            tokens: vec![
                Token {
                    kind: Kind::Literal,
                    value: "name".chars().collect()
                },
                Token {
                    kind: Kind::Operator,
                    value: vec![COLON]
                },
                Token {
                    kind: Kind::Literal,
                    value: "elmer".chars().collect()
                },
                //
                Token {
                    kind: Kind::Operator,
                    value: vec![COMMA]
                },
                //
                Token {
                    kind: Kind::Literal,
                    value: "age".chars().collect()
                },
                Token {
                    kind: Kind::Operator,
                    value: vec![COLON]
                },
                Token {
                    kind: Kind::Literal,
                    value: "20".chars().collect()
                },
            ],
            index: 0
        })
    );
}

#[test]
fn test_or() {
    let result = Lexer::with("name:\"one|two\"".to_string());
    assert_eq!(
        result,
        Ok(Lexer {
            tokens: vec![
                Token {
                    kind: Kind::Literal,
                    value: "name".chars().collect()
                },
                Token {
                    kind: Kind::Operator,
                    value: vec![COLON]
                },
                Token {
                    kind: Kind::String,
                    value: "one|two".chars().collect()
                },
            ],
            index: 0
        })
    );
}

#[test]
fn test_equal() {
    let result = Lexer::with("name:\"one=two\"".to_string());
    assert_eq!(
        result,
        Ok(Lexer {
            tokens: vec![
                Token {
                    kind: Kind::Literal,
                    value: "name".chars().collect()
                },
                Token {
                    kind: Kind::Operator,
                    value: vec![COLON]
                },
                Token {
                    kind: Kind::String,
                    value: "one=two".chars().collect()
                },
            ],
            index: 0
        })
    );
}

#[test]
fn test_grouping() {
    let result = Lexer::with("name:\"(one|two)\"".to_string());
    assert_eq!(
        result,
        Ok(Lexer {
            tokens: vec![
                Token {
                    kind: Kind::Literal,
                    value: "name".chars().collect()
                },
                Token {
                    kind: Kind::Operator,
                    value: vec![COLON]
                },
                Token {
                    kind: Kind::String,
                    value: "(one|two)".chars().collect()
                },
            ],
            index: 0
        })
    );
}

#[test]
fn test_escaped() {
    let result = Lexer::with("name:\"hello world\"".to_string());
    assert_eq!(
        result,
        Ok(Lexer {
            tokens: vec![
                Token {
                    kind: Kind::Literal,
                    value: "name".chars().collect()
                },
                Token {
                    kind: Kind::Operator,
                    value: vec![COLON]
                },
                Token {
                    kind: Kind::String,
                    value: "hello world".chars().collect()
                },
            ],
            index: 0
        })
    );
}

#[test]
fn test_escaped_and_operator() {
    let result = Lexer::with("name = \"elmer\" , age > 20".to_string());
    assert_eq!(
        result,
        Ok(Lexer {
            tokens: vec![
                Token {
                    kind: Kind::Literal,
                    value: "name".chars().collect()
                },
                Token {
                    kind: Kind::Operator,
                    value: vec![EQ]
                },
                Token {
                    kind: Kind::String,
                    value: "elmer".chars().collect()
                },
                //
                Token {
                    kind: Kind::Operator,
                    value: vec![COMMA]
                },
                //
                Token {
                    kind: Kind::Literal,
                    value: "age".chars().collect()
                },
                Token {
                    kind: Kind::Operator,
                    value: vec![GT]
                },
                Token {
                    kind: Kind::Literal,
                    value: "20".chars().collect()
                },
            ],
            index: 0
        })
    );
}

#[test]
fn test_like_operator() {
    let result = Lexer::with("name~elmer*".to_string());
    assert_eq!(
        result,
        Ok(Lexer {
            tokens: vec![
                Token {
                    kind: Kind::Literal,
                    value: "name".chars().collect()
                },
                Token {
                    kind: Kind::Operator,
                    value: vec![LIKE]
                },
                Token {
                    kind: Kind::Literal,
                    value: "elmer*".chars().collect()
                },
            ],
            index: 0
        })
    );
}

#[test]
fn test_grouping_with_or_operator() {
    let result = Lexer::with("name=(one|two|three)".to_string());
    assert_eq!(
        result,
        Ok(Lexer {
            tokens: vec![
                Token {
                    kind: Kind::Literal,
                    value: "name".chars().collect()
                },
                Token {
                    kind: Kind::Operator,
                    value: vec![EQ]
                },
                Token {
                    kind: Kind::Lparen,
                    value: vec![LPAREN]
                },
                Token {
                    kind: Kind::Literal,
                    value: "one".chars().collect()
                },
                Token {
                    kind: Kind::Operator,
                    value: vec![OR]
                },
                Token {
                    kind: Kind::Literal,
                    value: "two".chars().collect()
                },
                Token {
                    kind: Kind::Operator,
                    value: vec![OR]
                },
                Token {
                    kind: Kind::Literal,
                    value: "three".chars().collect()
                },
                Token {
                    kind: Kind::Rparen,
                    value: vec![RPAREN]
                },
            ],
            index: 0
        })
    );
}

#[test]
fn test_grouping_with_and_operator() {
    let result = Lexer::with("name=(one,two,three)".to_string());
    assert_eq!(
        result,
        Ok(Lexer {
            tokens: vec![
                Token {
                    kind: Kind::Literal,
                    value: "name".chars().collect()
                },
                Token {
                    kind: Kind::Operator,
                    value: vec![EQ]
                },
                Token {
                    kind: Kind::Lparen,
                    value: vec![LPAREN]
                },
                Token {
                    kind: Kind::Literal,
                    value: "one".chars().collect()
                },
                Token {
                    kind: Kind::Operator,
                    value: vec![AND]
                },
                Token {
                    kind: Kind::Literal,
                    value: "two".chars().collect()
                },
                Token {
                    kind: Kind::Operator,
                    value: vec![AND]
                },
                Token {
                    kind: Kind::Literal,
                    value: "three".chars().collect()
                },
                Token {
                    kind: Kind::Rparen,
                    value: vec![RPAREN]
                },
            ],
            index: 0
        })
    );
}

#[test]
fn test_quoted() {
    let result = Lexer::with("name:'elmer'".to_string());
    assert_eq!(
        result,
        Ok(Lexer {
            tokens: vec![
                Token {
                    kind: Kind::Literal,
                    value: "name".chars().collect()
                },
                Token {
                    kind: Kind::Operator,
                    value: vec![COLON]
                },
                Token {
                    kind: Kind::String,
                    value: "elmer".chars().collect()
                },
            ],
            index: 0
        })
    );
}
