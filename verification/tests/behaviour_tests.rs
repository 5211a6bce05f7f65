use lib::filter::{Field, Filter};
use lib::lexer::{Kind, Lexer, Reader, Token, TokenValue, COLON, COMMA, EQ, OR};
use lib::parser::{Parser, Predicate, Value};
use lib::report::{print_tokens, print_value, print_value_operator};

fn tok(kind: Kind, s: &str) -> Token {
    Token {
        kind,
        value: s.chars().collect(),
    }
}

fn lit(s: &str) -> Token {
    tok(Kind::Literal, s)
}

fn op(s: &str) -> Token {
    tok(Kind::Operator, s)
}

fn field_of(name: &str) -> Field {
    Field {
        predicate: Predicate {
            unused: op(","),
            field: lit(name),
            operator: op("="),
            value: Value(vec![lit("v")]),
        },
    }
}

#[test]
fn lexer_put_undoes_next() {
    let mut lexer = Lexer::with("a b".to_string()).unwrap();
    let first = lexer.next();
    assert_eq!(first, Some(lit("a")));
    assert_eq!(lexer.index, 1);
    lexer.put();
    assert_eq!(lexer.index, 0);
    assert_eq!(lexer.next(), Some(lit("a")));
    assert_eq!(lexer.next(), Some(lit("b")));
    assert_eq!(lexer.next(), None);
    assert_eq!(lexer.index, 2);
}

#[test]
fn lexer_put_at_start_stays() {
    let mut lexer = Lexer::with("a".to_string()).unwrap();
    lexer.put();
    assert_eq!(lexer.index, 0);
}

#[test]
fn reader_next_and_put() {
    let mut reader = Reader::from("ab");
    assert_eq!(reader.chars, vec!['a', 'b']);
    reader.put();
    assert_eq!(reader.index, 0);
    assert_eq!(reader.next(), Some('a'));
    reader.put();
    assert_eq!(reader.next(), Some('a'));
    assert_eq!(reader.next(), Some('b'));
    assert_eq!(reader.next(), None);
    assert_eq!(reader.index, 2);
    reader.put();
    assert_eq!(reader.next(), Some('b'));
}

#[test]
fn lexer_escaped_quote_keeps_escape_drops_quote() {
    let result = Lexer::with("name:\"a\\\"b\"".to_string()).unwrap();
    assert_eq!(
        result.tokens,
        vec![lit("name"), op(":"), tok(Kind::String, "a\\b")]
    );
}

#[test]
fn lexer_quoted_special_chars() {
    let result = Lexer::with("'a=b (c), d|e'".to_string()).unwrap();
    assert_eq!(result.tokens, vec![tok(Kind::String, "a=b (c), d|e")]);
}

#[test]
fn lexer_empty_quotes_error() {
    let result = Lexer::with("name:\"\"".to_string());
    assert_eq!(result, Err("End \" not found.".to_string()));
}

#[test]
fn lexer_unclosed_quote_error() {
    assert_eq!(
        Lexer::with("name:\"abc".to_string()),
        Err("End \" not found.".to_string())
    );
    assert_eq!(
        Lexer::with("name:'abc".to_string()),
        Err("End ' not found.".to_string())
    );
}

#[test]
fn lexer_operator_at_end_error() {
    assert_eq!(
        Lexer::with("name=".to_string()),
        Err("End of operator not found".to_string())
    );
}

#[test]
fn lexer_multi_char_operator() {
    let result = Lexer::with("age>=18".to_string()).unwrap();
    assert_eq!(result.tokens, vec![lit("age"), op(">="), lit("18")]);
}

#[test]
fn lexer_lparen_takes_buffer() {
    let result = Lexer::with("a(b)".to_string()).unwrap();
    assert_eq!(
        result.tokens,
        vec![tok(Kind::Lparen, "a("), lit("b"), tok(Kind::Rparen, ")")]
    );
}

#[test]
fn lexer_spaces_split_literals() {
    let result = Lexer::with("a  b ".to_string()).unwrap();
    assert_eq!(result.tokens, vec![lit("a"), lit("b")]);
    assert_eq!(result.index, 0);
}

#[test]
fn lexer_empty_input() {
    let result = Lexer::with(String::new()).unwrap();
    assert_eq!(result.tokens, vec![]);
}

#[test]
fn token_values() {
    assert_eq!(lit("42").as_value(), TokenValue::Number(42));
    assert_eq!(lit("+7").as_value(), TokenValue::Number(7));
    assert_eq!(lit("007").as_value(), TokenValue::Number(7));
    assert_eq!(lit("true").as_value(), TokenValue::Bool(true));
    assert_eq!(lit("false").as_value(), TokenValue::Bool(false));
    assert_eq!(
        lit("True").as_value(),
        TokenValue::String("True".to_string())
    );
    assert_eq!(lit("-1").as_value(), TokenValue::String("-1".to_string()));
    assert_eq!(lit("+").as_value(), TokenValue::String("+".to_string()));
    assert_eq!(
        lit("99999999999999999999999").as_value(),
        TokenValue::String("99999999999999999999999".to_string())
    );
    assert_eq!(
        tok(Kind::String, "42").as_value(),
        TokenValue::String("42".to_string())
    );
    assert_eq!(op("|").as_value(), TokenValue::String("|".to_string()));
}

#[test]
fn parser_error_messages() {
    assert_eq!(
        Parser::filter("cat=()"),
        Err("List cannot be empty.".to_string())
    );
    assert_eq!(
        Parser::filter("cat=(one|two,three)"),
        Err("Mixed operator detected in ().".to_string())
    );
    assert_eq!(
        Parser::filter("cat=(one"),
        Err("End ')' not found.".to_string())
    );
    assert_eq!(
        Parser::filter("cat=(a=b)"),
        Err("List separator must be `,` `|`".to_string())
    );
    assert_eq!(
        Parser::filter("cat=(a,,b)"),
        Err("List separator must be `,` `|`".to_string())
    );
    assert_eq!(
        Parser::filter("cat=(|a)"),
        Err("(LITERAL|STRING) not expected in ()".to_string())
    );
    assert_eq!(
        Parser::filter("cat=(a b)"),
        Err("OPERATOR expected in ()".to_string())
    );
    assert_eq!(Parser::filter("name"), Err("Syntax error.".to_string()));
    assert_eq!(Parser::filter("a b c=d"), Err("Syntax error.".to_string()));
    assert_eq!(
        Parser::filter("name='x"),
        Err("End ' not found.".to_string())
    );
}

#[test]
fn parser_list_with_trailing_separator() {
    let f = Parser::filter("cat=(a|)").unwrap();
    assert_eq!(f.predicates.len(), 1);
    assert_eq!(f.predicates[0].value, Value(vec![lit("a"), op("|")]));
}

#[test]
fn parser_and_list() {
    let f = Parser::filter("labels=('x: y', z)").unwrap();
    assert_eq!(f.predicates.len(), 1);
    let p = &f.predicates[0];
    assert_eq!(p.unused, op(","));
    assert_eq!(p.field, lit("labels"));
    assert_eq!(p.operator, op("="));
    assert_eq!(
        p.value,
        Value(vec![tok(Kind::String, "x: y"), op(","), lit("z")])
    );
}

#[test]
fn parser_predicates_are_well_formed() {
    let f = Parser::filter("a:b, c>=2, d=(x|y|z), e~'q r'").unwrap();
    assert_eq!(f.predicates.len(), 4);
    for p in f.predicates.iter() {
        assert_eq!(p.unused.kind, Kind::Operator);
        assert_eq!(p.operator.kind, Kind::Operator);
        assert!(!p.operator.value.is_empty());
    }
    assert_eq!(f.predicates[1].operator, op(">="));
    let list = &f.predicates[2].value;
    assert_eq!(list.by_kind(vec![Kind::Operator]), vec![op("|"), op("|")]);
}

#[test]
fn value_by_kind_repeats_per_kind() {
    let v = Value(vec![lit("a"), op("|"), tok(Kind::String, "b")]);
    assert_eq!(
        v.by_kind(vec![Kind::Literal, Kind::Literal]),
        vec![lit("a"), lit("a")]
    );
    assert_eq!(
        v.by_kind(vec![Kind::Literal, Kind::String]),
        vec![lit("a"), tok(Kind::String, "b")]
    );
    assert_eq!(v.by_kind(vec![]), vec![]);
}

#[test]
fn value_operator() {
    let blank = Value(vec![lit("a"), op(""), lit("b")]);
    assert!(blank.operator(Kind::Operator));
    let bar = Value(vec![lit("a"), op("|"), lit("b")]);
    assert!(!bar.operator(Kind::Operator));
    let none = Value(vec![lit("a")]);
    assert!(!none.operator(Kind::Operator));
}

#[test]
fn value_join() {
    let v = Value(vec![lit("a"), op("|"), lit("b")]);
    assert_eq!(v.join(Kind::Operator), Value(vec![lit("a"), op(""), op("|")]));
    let single = Value(vec![lit("a")]);
    assert_eq!(single.join(Kind::Operator), Value(vec![lit("a")]));
    let empty = Value(vec![op("|")]);
    assert_eq!(empty.join(Kind::Operator), Value(vec![]));
}

#[test]
fn filter_fields_case_insensitive() {
    let f = Parser::filter("Name:a,name:b,other:c").unwrap();
    let fields = f.fields("NAME");
    assert_eq!(fields.len(), 2);
    assert_eq!(fields[0].value(), Value(vec![lit("a")]));
    assert_eq!(fields[1].value(), Value(vec![lit("b")]));
    assert_eq!(f.field("name"), Some(fields[0].clone()));
    assert_eq!(f.field("missing"), None);
    assert!(f.fields("missing").is_empty());
}

#[test]
fn filter_resource_scopes_and_strips() {
    let f = Parser::filter("app.name=x,other.name=y,name=z,APP.tag=w").unwrap();
    let scoped = f.resource("app");
    assert_eq!(scoped.predicates.len(), 2);
    assert_eq!(scoped.predicates[0].field, lit("name"));
    assert_eq!(scoped.predicates[0].value, Value(vec![lit("x")]));
    assert_eq!(scoped.predicates[1].field, lit("tag"));
    assert!(f.resource("none").is_empty());
    assert!(!f.is_empty());
}

#[test]
fn field_split_forms() {
    let plain = field_of("name");
    assert_eq!(plain.split(), (None, "name".to_string()));
    assert_eq!(plain.resource(), None);
    assert_eq!(plain.name(), "name");

    let scoped = field_of("app.tag.id");
    assert_eq!(
        scoped.split(),
        (Some("app".to_string()), "tag.id".to_string())
    );
    assert_eq!(scoped.resource(), Some("app".to_string()));
    assert_eq!(scoped.name(), "tag.id");

    let escaped = field_of("a\\.b");
    assert_eq!(escaped.split(), (None, "a.b".to_string()));

    let anonymous = field_of(".x");
    assert_eq!(anonymous.split(), (Some(String::new()), "x".to_string()));

    assert_eq!(plain.operator(), op("="));
}

#[test]
fn report_renders_values() {
    assert_eq!(TokenValue::Number(18).to_text(), "18");
    assert_eq!(TokenValue::Bool(false).to_text(), "false");
    assert_eq!(TokenValue::String("x y".to_string()).to_text(), "x y");
    let v = Value(vec![lit("jim"), op("|"), lit("007")]);
    assert_eq!(print_value(Value(v.0.clone())), "jim AND 7");
    assert_eq!(print_value_operator(v), "|");
    assert_eq!(print_tokens(vec![]), "");
    assert_eq!(
        print_tokens(vec![lit("true"), tok(Kind::String, "a b"), op(",")]),
        "true AND a b AND ,"
    );
}

#[test]
fn filter_constants() {
    assert_eq!(COLON, ':');
    assert_eq!(COMMA, ',');
    assert_eq!(EQ, '=');
    assert_eq!(OR, '|');
    let f = Filter { predicates: vec![] };
    assert!(f.is_empty());
}

#[test]
fn readme_query_parses() {
    let query = "filterText~'special characters like =<>~', age>=18, name=(jim|crossley), address='single quote address', nickname=\"use double quotes\", labels=('kubernetes.io/part-of: trustify', 'kubernetes.io/part-of: operator')";
    let filter = Parser::filter(query).unwrap();
    assert_eq!(filter.predicates.len(), 6);
    let text = filter.field("filterText").unwrap();
    assert_eq!(text.name(), "filterText");
    assert_eq!(text.operator(), op("~"));
    assert_eq!(print_value(text.value()), "special characters like =<>~");
    let age = filter.field("age").unwrap();
    assert_eq!(age.operator(), op(">="));
    assert_eq!(print_value(age.value()), "18");
    let name = filter.field("name").unwrap();
    assert_eq!(print_value(name.value()), "jim AND crossley");
    assert_eq!(print_value_operator(name.value()), "|");
    let nickname = filter.field("nickname").unwrap();
    assert_eq!(print_value(nickname.value()), "use double quotes");
    let labels = filter.field("labels").unwrap();
    assert_eq!(
        print_value(labels.value()),
        "kubernetes.io/part-of: trustify AND kubernetes.io/part-of: operator"
    );
    assert_eq!(print_value_operator(labels.value()), ",");
}

#[test]
fn token_values_at_usize_limits() {
    let max = usize::MAX.to_string();
    assert_eq!(lit(&max).as_value(), TokenValue::Number(usize::MAX));
    let over = format!("{}0", max);
    assert_eq!(lit(&over).as_value(), TokenValue::String(over.clone()));
    assert_eq!(lit("").as_value(), TokenValue::String(String::new()));
    assert_eq!(lit("1a").as_value(), TokenValue::String("1a".to_string()));
    assert_eq!(lit("+0").as_value(), TokenValue::Number(0));
    assert_eq!(lit("fals").as_value(), TokenValue::String("fals".to_string()));
    assert_eq!(TokenValue::Number(0).to_text(), "0");
    assert_eq!(TokenValue::Number(usize::MAX).to_text(), max);
}

#[test]
fn space_joined_texts_lex_to_joined_tokens() {
    let a = Lexer::with("name:elmer".to_string()).unwrap();
    let b = Lexer::with("age>=(1|2)".to_string()).unwrap();
    let joined = Lexer::with("name:elmer age>=(1|2)".to_string()).unwrap();
    let mut tokens = a.tokens.clone();
    tokens.extend(b.tokens.clone());
    assert_eq!(joined.tokens, tokens);
}

#[test]
fn comma_joined_filters_parse_to_joined_predicates() {
    let a = Parser::filter("name:'elmer fudd'").unwrap();
    let b = Parser::filter("cat=(x,y),age>3").unwrap();
    let joined = Parser::filter("name:'elmer fudd',cat=(x,y),age>3").unwrap();
    let mut predicates = a.predicates.clone();
    predicates.extend(b.predicates.clone());
    assert_eq!(joined.predicates, predicates);
}
