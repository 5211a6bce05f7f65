//! Text renderings of token values, as the command line prints them.
use vstd::prelude::*;
use crate::lexer::{Kind, SpecToken, SpecTokenValue, Token, TokenValue, token_views, value_of};
use crate::parser::{Value, by_kind_of, term_kinds};
use crate::text::{decimal_text, usize_to_string};

verus! {

/// The text of a token value: text as it is, a number in decimal, a boolean
/// as `true` or `false`.
pub open spec fn value_text(v: SpecTokenValue) -> Seq<char> {
    match v {
        SpecTokenValue::Text(s) => s,
        SpecTokenValue::Number(n) => decimal_text(n as nat),
        SpecTokenValue::Bool(b) => if b {
            "true"@
        } else {
            "false"@
        },
    }
}

impl TokenValue {
    /// The text of the value.
    pub fn to_text(&self) -> (r: String)
        ensures
            r@ == value_text(self@),
    {
        match self {
            TokenValue::String(s) => s.clone(),
            TokenValue::Number(n) => usize_to_string(*n),
            TokenValue::Bool(b) => if *b {
                String::from_str("true")
            } else {
                String::from_str("false")
            },
        }
    }
}

pub open spec fn and_separator() -> Seq<char> {
    " AND "@
}

/// The texts of the values of the tokens, with ` AND ` between each two.
pub open spec fn tokens_text(ts: Seq<SpecToken>) -> Seq<char>
    decreases ts.len(),
{
    if ts.len() == 0 {
        seq![]
    } else if ts.len() == 1 {
        value_text(value_of(ts[0]))
    } else {
        tokens_text(ts.drop_last()) + and_separator() + value_text(value_of(ts.last()))
    }
}

pub fn print_tokens(tokens: Vec<Token>) -> (r: String)
    ensures
        r@ == tokens_text(token_views(tokens@)),
{
    let ghost ts = token_views(tokens@);
    let mut out = String::new();
    let n = tokens.len();
    let mut i: usize = 0;
    assert(ts.take(0) =~= Seq::<SpecToken>::empty());
    while i < n
        invariant
            ts == token_views(tokens@),
            n == tokens@.len(),
            n == ts.len(),
            i <= n,
            out@ == tokens_text(ts.take(i as int)),
        decreases n - i,
    {
        assert(tokens@[i as int]@ == ts[i as int]);
        let text = tokens[i].as_value().to_text();
        if i > 0 {
            out.append(" AND ");
        }
        out.append(text.as_str());
        assert(ts.take(i + 1).drop_last() == ts.take(i as int));
        assert(ts.take(i + 1).last() == ts[i as int]);
        if i == 0 {
            assert(Seq::<char>::empty() + text@ == text@);
        }
        i = i + 1;
    }
    assert(ts.take(n as int) == ts);
    out
}

pub fn print_value(value: Value) -> (r: String)
    ensures
        r@ == tokens_text(by_kind_of(value@, term_kinds())),
{
    let mut kinds: Vec<Kind> = Vec::new();
    kinds.push(Kind::Literal);
    kinds.push(Kind::String);
    assert(kinds@ == term_kinds());
    let tokens = value.by_kind(kinds);
    print_tokens(tokens)
}

pub fn print_value_operator(value: Value) -> (r: String)
    ensures
        r@ == tokens_text(by_kind_of(value@, seq![Kind::Operator])),
{
    let mut kinds: Vec<Kind> = Vec::new();
    kinds.push(Kind::Operator);
    assert(kinds@ == seq![Kind::Operator]);
    let tokens = value.by_kind(kinds);
    print_tokens(tokens)
}

} // verus!
