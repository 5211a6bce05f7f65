//! The parser: it groups the tokens of a filter into predicates of the form
//! `field operator value`, where a value is one literal or string, or a list
//! in parentheses whose items are separated by `,` (and) or `|` (or).
use vstd::prelude::*;
use crate::filter::{Filter, predicate_views, lemma_predicate_views_push};
use crate::lexer::{
    AND, COMMA, OR, Kind, Lexer, SpecToken, Token, lex, token_views, lemma_token_views_push,
    well_formed_token, tokens_well_formed, lemma_lex_well_formed, all_plain, is_operator_char,
    is_plain_char, lex_from, emit, read_operator_at, lemma_lex_plain_run, lemma_op_run_end_at,
    prefixed, ends_literal, lemma_lex_concat, is_word, is_filter_operator, lemma_word_plain,
    lemma_lex_quoted, lemma_lex_from_shift, QUOTE, SQUOTE, ESCAPE,
};

verus! {

pub struct Parser;

/// A predicate as a mathematical value.
pub struct SpecPredicate {
    pub unused: SpecToken,
    pub field: SpecToken,
    pub operator: SpecToken,
    pub value: Seq<SpecToken>,
}

#[derive(Debug, PartialEq)]
pub struct Predicate {
    pub unused: Token,
    pub field: Token,
    pub operator: Token,
    pub value: Value,
}

impl View for Predicate {
    type V = SpecPredicate;

    open spec fn view(&self) -> SpecPredicate {
        SpecPredicate {
            unused: self.unused@,
            field: self.field@,
            operator: self.operator@,
            value: self.value@,
        }
    }
}

impl Clone for Predicate {
    fn clone(&self) -> (res: Self)
        ensures
            res@ == self@,
    {
        Predicate {
            unused: self.unused.clone(),
            field: self.field.clone(),
            operator: self.operator.clone(),
            value: self.value.clone(),
        }
    }
}

/// Value term value.
#[derive(Debug, PartialEq)]
pub struct Value(pub Vec<Token>);

impl View for Value {
    type V = Seq<SpecToken>;

    open spec fn view(&self) -> Seq<SpecToken> {
        token_views(self.0@)
    }
}

/// Copies of the tokens of a slice.
fn clone_tokens(ts: &[Token]) -> (r: Vec<Token>)
    ensures
        token_views(r@) == token_views(ts@),
{
    let mut r: Vec<Token> = Vec::new();
    let n = ts.len();
    let mut i: usize = 0;
    while i < n
        invariant
            n == ts@.len(),
            i <= n,
            token_views(r@) == token_views(ts@.take(i as int)),
        decreases n - i,
    {
        let t = ts[i].clone();
        proof {
            lemma_token_views_push(r@, t);
            lemma_token_views_push(ts@.take(i as int), ts@[i as int]);
            assert(ts@.take(i + 1) == ts@.take(i as int).push(ts@[i as int]));
        }
        r.push(t);
        i = i + 1;
    }
    assert(ts@.take(n as int) == ts@);
    r
}

impl Clone for Value {
    fn clone(&self) -> (res: Self)
        ensures
            res@ == self@,
    {
        Value(clone_tokens(self.0.as_slice()))
    }
}

pub open spec fn msg_syntax() -> Seq<char> {
    "Syntax error."@
}

pub open spec fn msg_list_separator() -> Seq<char> {
    "List separator must be `,` `|`"@
}

pub open spec fn msg_list_unclosed() -> Seq<char> {
    "End ')' not found."@
}

pub open spec fn msg_list_empty() -> Seq<char> {
    "List cannot be empty."@
}

pub open spec fn msg_list_item() -> Seq<char> {
    "(LITERAL|STRING) not expected in ()"@
}

pub open spec fn msg_list_mixed() -> Seq<char> {
    "Mixed operator detected in ()."@
}

pub open spec fn msg_list_operator() -> Seq<char> {
    "OPERATOR expected in ()"@
}

/// Whether a token is a literal or a quoted string.
pub open spec fn is_term(t: SpecToken) -> bool {
    t.kind == Kind::Literal || t.kind == Kind::String
}

/// What is wrong, if anything, with the item at position `i` of a list: even
/// positions hold literals or strings, odd positions hold operators, and an
/// operator may not start with another char than the operator two places
/// before it.
pub open spec fn list_item_error(v: Seq<SpecToken>, i: int) -> Option<Seq<char>> {
    if i % 2 == 0 {
        if is_term(v[i]) {
            None
        } else {
            Some(msg_list_item())
        }
    } else if v[i].kind == Kind::Operator {
        if v[i].value.len() > 0 && i >= 3 && v[i - 2].value.len() > 0 && v[i - 2].value[0]
            != v[i].value[0] {
            Some(msg_list_mixed())
        } else {
            None
        }
    } else {
        Some(msg_list_operator())
    }
}

/// The first error of a list from position `i` on.
pub open spec fn first_list_error(v: Seq<SpecToken>, i: int) -> Option<Seq<char>>
    decreases v.len() - i,
{
    if 0 <= i < v.len() {
        match list_item_error(v, i) {
            Some(m) => Some(m),
            None => first_list_error(v, i + 1),
        }
    } else {
        None
    }
}

/// Whether a list is accepted: not empty, and without errors.
pub open spec fn list_verdict(v: Seq<SpecToken>) -> Result<(), Seq<char>> {
    if v.len() == 0 {
        Err(msg_list_empty())
    } else {
        match first_list_error(v, 0) {
            Some(m) => Err(m),
            None => Ok(()),
        }
    }
}

/// The first char of the last operator before position `i` of a list, if it
/// has one.
pub open spec fn last_operator_before(v: Seq<SpecToken>, i: int) -> Option<char> {
    let k = if i % 2 == 0 {
        i - 1
    } else {
        i - 2
    };
    if k >= 1 && v[k].value.len() > 0 {
        Some(v[k].value[0])
    } else {
        None
    }
}

fn validate_list(v: &Value) -> (r: Result<(), String>)
    ensures
        match list_verdict(v@) {
            Ok(()) => r is Ok,
            Err(m) => r matches Err(e) && e@ == m,
        },
{
    let ghost vs = v@;
    let n = v.0.len();
    if n == 0 {
        return Err("List cannot be empty.".to_string());
    }
    let mut last_op: Option<char> = None;
    let mut i: usize = 0;
    while i < n
        invariant
            vs == v@,
            n == vs.len(),
            i <= n,
            first_list_error(vs, 0) == first_list_error(vs, i as int),
            forall|k: int| 0 <= k < i && k % 2 == 1 ==> (#[trigger] vs[k]).kind == Kind::Operator,
            last_op == last_operator_before(vs, i as int),
        decreases n - i,
    {
        let token = &v.0[i];
        assert(token@ == vs[i as int]);
        if i % 2 == 0 {
            if !(token.kind == Kind::Literal || token.kind == Kind::String) {
                return Err("(LITERAL|STRING) not expected in ()".to_string());
            }
        } else if token.kind == Kind::Operator {
            if token.value.len() > 0 {
                let operator = token.value[0];
                if let Some(last) = last_op {
                    if operator != last {
                        return Err("Mixed operator detected in ().".to_string());
                    }
                }
                last_op = Some(operator);
            } else {
                last_op = None;
            }
        } else {
            return Err("OPERATOR expected in ()".to_string());
        }
        i = i + 1;
    }
    Ok(())
}

/// Whether an operator token separates list items: exactly `,` or `|`.
pub open spec fn is_separator(t: SpecToken) -> bool {
    t.value == seq![AND] || t.value == seq![OR]
}

/// The list read from position `j` of the tokens on, with the items `acc`
/// already read: the items and the position after the closing parenthesis.
pub open spec fn build_list_from(toks: Seq<SpecToken>, j: int, acc: Seq<SpecToken>) -> Result<
    (Seq<SpecToken>, int),
    Seq<char>,
>
    decreases toks.len() - j,
{
    if !(0 <= j < toks.len()) {
        Err(msg_list_unclosed())
    } else {
        let t = toks[j];
        match t.kind {
            Kind::Literal | Kind::String => build_list_from(toks, j + 1, acc.push(t)),
            Kind::Operator => if is_separator(t) {
                build_list_from(toks, j + 1, acc.push(t))
            } else {
                Err(msg_list_separator())
            },
            Kind::Lparen => build_list_from(toks, j + 1, acc),
            Kind::Rparen => match list_verdict(acc) {
                Ok(()) => Ok((acc, j + 1)),
                Err(m) => Err(m),
            },
        }
    }
}

/// Where reading a list from position `j` stops, whether it succeeds or not:
/// after the closing parenthesis or the token that is no separator, or at the
/// end of the tokens.
pub open spec fn list_end(toks: Seq<SpecToken>, j: int) -> int
    decreases toks.len() - j,
{
    if !(0 <= j < toks.len()) {
        j
    } else {
        let t = toks[j];
        match t.kind {
            Kind::Rparen => j + 1,
            Kind::Operator => if is_separator(t) {
                list_end(toks, j + 1)
            } else {
                j + 1
            },
            _ => list_end(toks, j + 1),
        }
    }
}

pub proof fn lemma_build_list_advances(toks: Seq<SpecToken>, j: int, acc: Seq<SpecToken>)
    ensures
        build_list_from(toks, j, acc) matches Ok((v, e)) ==> j < e <= toks.len(),
    decreases toks.len() - j,
{
    if 0 <= j < toks.len() {
        lemma_build_list_advances(toks, j + 1, acc.push(toks[j]));
        lemma_build_list_advances(toks, j + 1, acc);
    }
}

fn build_list(lexer: &mut Lexer) -> (r: Result<Value, String>)
    ensures
        final(lexer)@.items == old(lexer)@.items,
        match build_list_from(old(lexer)@.items, old(lexer)@.index, seq![]) {
            Ok((v, e)) => r matches Ok(val) && val@ == v && final(lexer)@.index == e,
            Err(m) => r matches Err(x) && x@ == m,
        },
        final(lexer)@.index == list_end(old(lexer)@.items, old(lexer)@.index),
{
    let ghost toks = lexer@.items;
    let ghost start = lexer@.index;
    let mut v = Value(Vec::new());
    assert(v@ =~= Seq::<SpecToken>::empty());
    loop
        invariant
            lexer@.items == toks,
            toks == old(lexer)@.items,
            start == old(lexer)@.index,
            start <= lexer@.index,
            lexer@.index == start || lexer@.index <= toks.len(),
            build_list_from(toks, start, seq![]) == build_list_from(toks, lexer@.index, v@),
            list_end(toks, start) == list_end(toks, lexer@.index),
        decreases toks.len() - lexer@.index,
    {
        match lexer.next() {
            Some(token) => {
                match token.kind {
                    Kind::Literal | Kind::String => {
                        proof {
                            lemma_token_views_push(v.0@, token);
                        }
                        v.0.push(token);
                    },
                    Kind::Operator => {
                        if token.value.len() == 1 && (token.value[0] == AND || token.value[0] == OR) {
                            assert(token.value@ == seq![token.value@[0]]);
                            proof {
                                lemma_token_views_push(v.0@, token);
                            }
                            v.0.push(token);
                        } else {
                            assert(token.value@.len() != 1 || (token.value@ != seq![AND]
                                && token.value@ != seq![OR]));
                            return Err("List separator must be `,` `|`".to_string());
                        }
                    },
                    Kind::Lparen => {},
                    Kind::Rparen => {
                        match validate_list(&v) {
                            Ok(()) => {},
                            Err(e) => {
                                return Err(e);
                            },
                        }
                        return Ok(v);
                    },
                }
            },
            None => {
                return Err("End ')' not found.".to_string());
            },
        }
    }
}

/// List construct.
/// Example: (red|blue|green)
pub struct List<'a> {
    lexer: &'a mut Lexer,
}

impl<'a> List<'a> {
    /// The lexer that the list is read from.
    pub closed spec fn source(self) -> Lexer {
        *self.lexer
    }

    /// Build the value.
    pub fn build(&mut self) -> (r: Result<Value, String>)
        ensures
            final(self).source()@.items == old(self).source()@.items,
            match build_list_from(old(self).source()@.items, old(self).source()@.index, seq![]) {
                Ok((v, e)) => r matches Ok(val) && val@ == v && final(self).source()@.index == e,
                Err(m) => r matches Err(x) && x@ == m,
            },
            final(self).source()@.index == list_end(old(self).source()@.items, old(self).source()@.index),
    {
        build_list(self.lexer)
    }

    /// validate the result.
    pub fn validate(&mut self, v: &Value) -> (r: Result<(), String>)
        ensures
            final(self).source() == old(self).source(),
            match list_verdict(v@) {
                Ok(()) => r is Ok,
                Err(m) => r matches Err(e) && e@ == m,
            },
    {
        validate_list(v)
    }
}


/// The predicate made of the three buffered tokens and a value.
pub open spec fn predicate_of(brf: Seq<SpecToken>, v: Seq<SpecToken>) -> SpecPredicate {
    SpecPredicate { unused: brf[0], field: brf[1], operator: brf[2], value: v }
}

/// The predicates read from position `i` of the tokens on, with the tokens
/// `brf` of an unfinished predicate and the predicates `preds` already read.
/// Three tokens (an operator, a field and an operator) open a predicate; the
/// next literal or string, or the next list in parentheses, is its value, and
/// operators and closing parentheses before it are skipped.
pub open spec fn parse_from(
    toks: Seq<SpecToken>,
    i: int,
    brf: Seq<SpecToken>,
    preds: Seq<SpecPredicate>,
) -> Result<Seq<SpecPredicate>, Seq<char>>
    decreases toks.len() - i,
{
    if !(0 <= i < toks.len()) {
        if brf.len() == 0 {
            Ok(preds)
        } else {
            Err(msg_syntax())
        }
    } else {
        let t = toks[i];
        if brf.len() > 2 {
            if brf[0].kind == Kind::Operator && brf[2].kind == Kind::Operator {
                match t.kind {
                    Kind::Literal | Kind::String => parse_from(
                        toks,
                        i + 1,
                        seq![],
                        preds.push(predicate_of(brf, seq![t])),
                    ),
                    Kind::Lparen => match build_list_from(toks, i, seq![]) {
                        Ok((v, e)) => {
                            proof {
                                lemma_build_list_advances(toks, i, seq![]);
                            }
                            parse_from(toks, e, seq![], preds.push(predicate_of(brf, v)))
                        },
                        Err(m) => Err(m),
                    },
                    Kind::Operator | Kind::Rparen => parse_from(toks, i + 1, brf, preds),
                }
            } else {
                Err(msg_syntax())
            }
        } else {
            parse_from(toks, i + 1, brf.push(t), preds)
        }
    }
}

/// The predicates of a filter text, or the message of the error that stops
/// the lexer or the parser. The empty text has no predicates; any other text
/// is read with a `,` in front of it, so that each predicate starts with an
/// operator.
pub open spec fn parse(s: Seq<char>) -> Result<Seq<SpecPredicate>, Seq<char>> {
    if s.len() == 0 {
        Ok(seq![])
    } else {
        match lex(seq![COMMA] + s) {
            Ok(toks) => parse_from(toks, 0, seq![], seq![]),
            Err(m) => Err(m),
        }
    }
}

impl Parser {
    pub fn filter(filter: &str) -> (r: Result<Filter, String>)
        ensures
            match parse(filter@) {
                Ok(ps) => r matches Ok(f) && f@ == ps,
                Err(m) => r matches Err(e) && e@ == m,
            },
    {
        if filter.is_empty() {
            let f = Filter { predicates: Vec::new() };
            assert(f@ =~= Seq::<SpecPredicate>::empty());
            return Ok(f);
        }
        let mut input = String::from_str(",");
        proof {
            reveal_strlit(",");
        }
        input.append(filter);
        assert(input@ == seq![COMMA] + filter@);
        let mut lexer = match Lexer::with(input) {
            Ok(l) => l,
            Err(e) => {
                return Err(e);
            },
        };
        let ghost toks = lexer@.items;
        let mut brf: Vec<Token> = Vec::new();
        let mut predicates: Vec<Predicate> = Vec::new();
        assert(token_views(brf@) =~= Seq::<SpecToken>::empty());
        assert(predicate_views(predicates@) =~= Seq::<SpecPredicate>::empty());
        loop
            invariant
                lexer@.items == toks,
                0 <= lexer@.index <= toks.len(),
                brf.len() <= 3,
                parse(filter@) == parse_from(toks, 0, seq![], seq![]),
                parse_from(toks, 0, seq![], seq![]) == parse_from(
                    toks,
                    lexer@.index,
                    token_views(brf@),
                    predicate_views(predicates@),
                ),
            ensures
                lexer@.index == toks.len(),
                parse(filter@) == parse_from(
                    toks,
                    lexer@.index,
                    token_views(brf@),
                    predicate_views(predicates@),
                ),
            decreases toks.len() - lexer@.index,
        {
            let ghost i = lexer@.index;
            match lexer.next() {
                None => break,
                Some(token) => {
                    if brf.len() > 2 {
                        if brf[0].kind == Kind::Operator && brf[2].kind == Kind::Operator {
                            match token.kind {
                                Kind::Literal | Kind::String => {
                                    let mut items: Vec<Token> = Vec::new();
                                    proof {
                                        lemma_token_views_push(items@, token);
                                    }
                                    items.push(token);
                                    let p = Predicate {
                                        unused: brf[0].clone(),
                                        field: brf[1].clone(),
                                        operator: brf[2].clone(),
                                        value: Value(items),
                                    };
                                    assert(items@ == Seq::<Token>::empty().push(token));
                                    assert(p.value@ == seq![token@]);
                                    proof {
                                        lemma_predicate_views_push(predicates@, p);
                                    }
                                    predicates.push(p);
                                    brf = Vec::new();
                                    assert(token_views(brf@) =~= Seq::<SpecToken>::empty());
                                },
                                Kind::Lparen => {
                                    lexer.put();
                                    let v = match build_list(&mut lexer) {
                                        Ok(v) => v,
                                        Err(e) => {
                                            return Err(e);
                                        },
                                    };
                                    proof {
                                        lemma_build_list_advances(toks, i, seq![]);
                                    }
                                    let p = Predicate {
                                        unused: brf[0].clone(),
                                        field: brf[1].clone(),
                                        operator: brf[2].clone(),
                                        value: v,
                                    };
                                    proof {
                                        lemma_predicate_views_push(predicates@, p);
                                    }
                                    predicates.push(p);
                                    brf = Vec::new();
                                    assert(token_views(brf@) =~= Seq::<SpecToken>::empty());
                                },
                                Kind::Operator | Kind::Rparen => {},
                            }
                        } else {
                            return Err("Syntax error.".to_string());
                        }
                    } else {
                        proof {
                            lemma_token_views_push(brf@, token);
                        }
                        brf.push(token);
                    }
                },
            }
        }
        if brf.len() == 0 {
            Ok(Filter { predicates })
        } else {
            Err("Syntax error.".to_string())
        }
    }
}


/// Whether every item of a list is a well-formed literal or string, or a
/// `,` or `|` separator.
pub open spec fn list_items(v: Seq<SpecToken>) -> bool {
    forall|k: int|
        0 <= k < v.len() ==> well_formed_token(#[trigger] v[k]) && (is_term(v[k]) || (v[k].kind
            == Kind::Operator && is_separator(v[k])))
}

/// The shape of a predicate that the parser produces: its tokens have the
/// shape of their kinds, it starts with an operator and its third token is the
/// operator; its value is a single literal or string, or an accepted list in
/// which literals and strings alternate with `,` or `|` separators.
pub open spec fn well_formed_predicate(p: SpecPredicate) -> bool {
    &&& well_formed_token(p.unused)
    &&& well_formed_token(p.field)
    &&& well_formed_token(p.operator)
    &&& p.unused.kind == Kind::Operator
    &&& p.operator.kind == Kind::Operator
    &&& list_items(p.value)
    &&& ((p.value.len() == 1 && is_term(p.value[0])) || list_verdict(p.value) is Ok)
    &&& one_separator(p.value)
}

/// Whether all the operators of a list are the same separator.
pub open spec fn one_separator(v: Seq<SpecToken>) -> bool {
    forall|a: int, b: int|
        0 <= a < v.len() && 0 <= b < v.len() && v[a].kind == Kind::Operator && v[b].kind
            == Kind::Operator ==> #[trigger] v[a].value == #[trigger] v[b].value
}

proof fn lemma_no_list_error(v: Seq<SpecToken>, i: int, k: int)
    requires
        0 <= i <= k < v.len(),
        first_list_error(v, i) is None,
    ensures
        list_item_error(v, k) is None,
    decreases k - i,
{
    if i < k {
        lemma_no_list_error(v, i + 1, k);
    }
}

/// An accepted list of terms and separators uses one separator only.
pub proof fn lemma_accepted_list_one_separator(v: Seq<SpecToken>)
    requires
        list_items(v),
        list_verdict(v) is Ok,
    ensures
        one_separator(v),
{
    assert forall|k: int| 0 <= k < v.len() && v[k].kind == Kind::Operator implies v[k].value
        == v[1].value by {
        lemma_odd_separator_same(v, k);
    }
}

proof fn lemma_odd_separator_same(v: Seq<SpecToken>, k: int)
    requires
        list_items(v),
        list_verdict(v) is Ok,
        0 <= k < v.len(),
        v[k].kind == Kind::Operator,
    ensures
        v[k].value == v[1].value,
    decreases k,
{
    lemma_no_list_error(v, 0, k);
    assert(k % 2 == 1);
    if k >= 3 {
        lemma_no_list_error(v, 0, k - 2);
        assert(v[k - 2].kind == Kind::Operator);
        lemma_odd_separator_same(v, k - 2);
        assert(is_separator(v[k]) && is_separator(v[k - 2]));
        assert(v[k].value[0] == v[k - 2].value[0]);
    }
}

pub open spec fn predicates_well_formed(ps: Seq<SpecPredicate>) -> bool {
    forall|k: int| 0 <= k < ps.len() ==> well_formed_predicate(#[trigger] ps[k])
}

proof fn lemma_build_list_shape(toks: Seq<SpecToken>, j: int, acc: Seq<SpecToken>)
    requires
        tokens_well_formed(toks),
        list_items(acc),
    ensures
        build_list_from(toks, j, acc) matches Ok((v, e)) ==> list_items(v) && list_verdict(v) is Ok,
    decreases toks.len() - j,
{
    if 0 <= j < toks.len() {
        let t = toks[j];
        assert(well_formed_token(t));
        if is_term(t) || (t.kind == Kind::Operator && is_separator(t)) {
            assert(list_items(acc.push(t))) by {
                assert forall|k: int| 0 <= k < acc.len() + 1 implies well_formed_token(
                    #[trigger] acc.push(t)[k],
                ) && (is_term(acc.push(t)[k]) || (acc.push(t)[k].kind == Kind::Operator
                    && is_separator(acc.push(t)[k]))) by {
                    if k < acc.len() {
                        assert(acc.push(t)[k] == acc[k]);
                    }
                }
            }
            lemma_build_list_shape(toks, j + 1, acc.push(t));
        }
        lemma_build_list_shape(toks, j + 1, acc);
    }
}

proof fn lemma_push_predicate(preds: Seq<SpecPredicate>, p: SpecPredicate)
    requires
        predicates_well_formed(preds),
        well_formed_predicate(p),
    ensures
        predicates_well_formed(preds.push(p)),
{
    assert forall|k: int| 0 <= k < preds.len() + 1 implies well_formed_predicate(
        #[trigger] preds.push(p)[k],
    ) by {
        if k < preds.len() {
            assert(preds.push(p)[k] == preds[k]);
        }
    }
}

proof fn lemma_parse_from_shape(
    toks: Seq<SpecToken>,
    i: int,
    brf: Seq<SpecToken>,
    preds: Seq<SpecPredicate>,
)
    requires
        tokens_well_formed(toks),
        tokens_well_formed(brf),
        predicates_well_formed(preds),
    ensures
        parse_from(toks, i, brf, preds) matches Ok(ps) ==> predicates_well_formed(ps),
    decreases toks.len() - i,
{
    let empty = Seq::<SpecToken>::empty();
    assert(tokens_well_formed(empty));
    if 0 <= i < toks.len() {
        let t = toks[i];
        assert(well_formed_token(t));
        if brf.len() > 2 {
            assert(well_formed_token(brf[0]) && well_formed_token(brf[1]) && well_formed_token(brf[2]));
            if brf[0].kind == Kind::Operator && brf[2].kind == Kind::Operator {
                if is_term(t) {
                    let p = predicate_of(brf, seq![t]);
                    assert(list_items(p.value));
                    assert(one_separator(p.value));
                    lemma_push_predicate(preds, p);
                    lemma_parse_from_shape(toks, i + 1, empty, preds.push(p));
                } else if t.kind == Kind::Lparen {
                    assert(list_items(empty));
                    lemma_build_list_shape(toks, i, empty);
                    lemma_build_list_advances(toks, i, empty);
                    if let Ok((v, e)) = build_list_from(toks, i, empty) {
                        lemma_accepted_list_one_separator(v);
                        let p = predicate_of(brf, v);
                        lemma_push_predicate(preds, p);
                        lemma_parse_from_shape(toks, e, empty, preds.push(p));
                    }
                } else {
                    lemma_parse_from_shape(toks, i + 1, brf, preds);
                }
            }
        } else {
            assert(tokens_well_formed(brf.push(t))) by {
                assert forall|k: int| 0 <= k < brf.len() + 1 implies well_formed_token(
                    #[trigger] brf.push(t)[k],
                ) by {
                    if k < brf.len() {
                        assert(brf.push(t)[k] == brf[k]);
                    }
                }
            }
            lemma_parse_from_shape(toks, i + 1, brf.push(t), preds);
        }
    }
}

/// Every predicate of a parsed filter has the shape of `well_formed_predicate`:
/// in particular a list value alternates literals or strings with separators
/// that are all `,` (and) or all `|` (or).
pub proof fn lemma_parse_well_formed(s: Seq<char>)
    ensures
        parse(s) matches Ok(ps) ==> predicates_well_formed(ps),
{
    if s.len() > 0 {
        lemma_lex_well_formed(seq![COMMA] + s);
        if let Ok(toks) = lex(seq![COMMA] + s) {
            let empty_toks = Seq::<SpecToken>::empty();
            let empty_preds = Seq::<SpecPredicate>::empty();
            assert(tokens_well_formed(empty_toks));
            assert(predicates_well_formed(empty_preds));
            lemma_parse_from_shape(toks, 0, empty_toks, empty_preds);
        }
    }
}


/// How many entries of `ks` are the kind `k`.
pub open spec fn kind_count(ks: Seq<Kind>, k: Kind) -> nat
    decreases ks.len(),
{
    if ks.len() == 0 {
        0
    } else {
        kind_count(ks.drop_last(), k) + if ks.last() == k {
            1nat
        } else {
            0nat
        }
    }
}

/// The tokens of `ts` whose kind is in `ks`, in order, each token repeated
/// once for every entry of `ks` that names its kind.
pub open spec fn by_kind_of(ts: Seq<SpecToken>, ks: Seq<Kind>) -> Seq<SpecToken>
    decreases ts.len(),
{
    if ts.len() == 0 {
        seq![]
    } else {
        by_kind_of(ts.drop_last(), ks) + Seq::new(kind_count(ks, ts.last().kind), |_i: int| ts.last())
    }
}

/// The operator token with no chars that `join` puts between terms.
pub open spec fn blank_operator() -> SpecToken {
    SpecToken { kind: Kind::Operator, value: seq![] }
}

/// The first `n` tokens of `ts` with a blank operator between each two.
pub open spec fn join_of(ts: Seq<SpecToken>, n: int) -> Seq<SpecToken>
    decreases n,
{
    if n <= 0 {
        seq![]
    } else if n == 1 {
        seq![ts[0]]
    } else {
        join_of(ts, n - 1).push(blank_operator()).push(ts[n - 1])
    }
}

/// The kinds of the terms of a list.
pub open spec fn term_kinds() -> Seq<Kind> {
    seq![Kind::Literal, Kind::String]
}

proof fn lemma_by_kind_len(ts: Seq<SpecToken>, ks: Seq<Kind>)
    requires
        forall|k: Kind| kind_count(ks, k) <= 1,
    ensures
        by_kind_of(ts, ks).len() <= ts.len(),
    decreases ts.len(),
{
    if ts.len() > 0 {
        lemma_by_kind_len(ts.drop_last(), ks);
        assert(kind_count(ks, ts.last().kind) <= 1);
    }
}

proof fn lemma_term_kinds_count()
    ensures
        forall|k: Kind| kind_count(term_kinds(), k) <= 1,
{
    assert forall|k: Kind| kind_count(term_kinds(), k) <= 1 by {
        let ks = term_kinds();
        assert(ks.drop_last() == seq![Kind::Literal]);
        assert(ks.drop_last().drop_last() == Seq::<Kind>::empty());
        assert(kind_count(ks.drop_last().drop_last(), k) == 0);
        assert(kind_count(ks.drop_last(), k) == if k == Kind::Literal { 1nat } else { 0nat });
        assert(kind_count(ks, k) == kind_count(ks.drop_last(), k) + if k == Kind::String { 1nat } else { 0nat });
    }
}

impl Value {
    /// ByKind returns values by kind.
    pub fn by_kind(&self, kind: Vec<Kind>) -> (r: Vec<Token>)
        ensures
            token_views(r@) == by_kind_of(self@, kind@),
    {
        let mut matched: Vec<Token> = Vec::new();
        let n = self.0.len();
        let m = kind.len();
        let ghost ts = self@;
        let ghost ks = kind@;
        let mut i: usize = 0;
        assert(token_views(matched@) =~= by_kind_of(ts.take(0), ks));
        while i < n
            invariant
                ts == self@,
                ks == kind@,
                n == self.0@.len(),
                m == ks.len(),
                i <= n,
                token_views(matched@) == by_kind_of(ts.take(i as int), ks),
            decreases n - i,
        {
            let t = &self.0[i];
            assert(t@ == ts[i as int]);
            let ghost before = token_views(matched@);
            let mut j: usize = 0;
            assert(Seq::new(kind_count(ks.take(0), t@.kind), |_i: int| t@) =~= Seq::<SpecToken>::empty());
            assert(before + Seq::<SpecToken>::empty() =~= before);
            while j < m
                invariant
                    ts == self@,
                    ks == kind@,
                    m == ks.len(),
                    j <= m,
                    t@ == ts[i as int],
                    token_views(matched@) == before + Seq::new(
                        kind_count(ks.take(j as int), t@.kind),
                        |_i: int| t@,
                    ),
                decreases m - j,
            {
                assert(ks.take(j + 1).drop_last() == ks.take(j as int));
                if t.kind == kind[j] {
                    let c = t.clone();
                    proof {
                        lemma_token_views_push(matched@, c);
                        let old_n = kind_count(ks.take(j as int), t@.kind);
                        assert(Seq::new(old_n + 1, |_i: int| t@) =~= Seq::new(old_n, |_i: int| t@).push(t@));
                    }
                    matched.push(c);
                }
                j = j + 1;
            }
            assert(ks.take(m as int) == ks);
            assert(ts.take(i + 1).drop_last() == ts.take(i as int));
            i = i + 1;
        }
        assert(ts.take(n as int) == ts);
        matched
    }

    /// Whether the first token of the given kind has no chars; `false` when
    /// there is no token of that kind.
    pub fn operator(&self, operator: Kind) -> (r: bool)
        ensures
            r == ({
                let found = by_kind_of(self@, seq![operator]);
                found.len() > 0 && found[0].value.len() == 0
            }),
    {
        let mut kinds: Vec<Kind> = Vec::new();
        kinds.push(operator);
        assert(kinds@ == seq![operator]);
        let operators = self.by_kind(kinds);
        if operators.len() > 0 {
            assert(operators@[0]@ == token_views(operators@)[0]);
            operators[0].value.len() == 0
        } else {
            false
        }
    }

    /// The first terms of the value, as many as the value holds literals and
    /// strings, with a blank operator between each two.
    pub fn join(&self, operator: Kind) -> (r: Value)
        ensures
            r@ == join_of(self@, by_kind_of(self@, term_kinds()).len() as int),
    {
        let mut kinds: Vec<Kind> = Vec::new();
        kinds.push(Kind::Literal);
        kinds.push(Kind::String);
        assert(kinds@ == term_kinds());
        let n = self.by_kind(kinds).len();
        proof {
            lemma_term_kinds_count();
            lemma_by_kind_len(self@, term_kinds());
        }
        let mut tokens: Vec<Token> = Vec::new();
        let mut i: usize = 0;
        assert(token_views(tokens@) =~= join_of(self@, 0));
        while i < n
            invariant
                n <= self.0@.len(),
                n == by_kind_of(self@, term_kinds()).len(),
                i <= n,
                token_views(tokens@) == join_of(self@, i as int),
            decreases n - i,
        {
            if i > 0 {
                let sep = Token { kind: Kind::Operator, value: Vec::new() };
                proof {
                    lemma_token_views_push(tokens@, sep);
                }
                tokens.push(sep);
            }
            let t = self.0[i].clone();
            proof {
                lemma_token_views_push(tokens@, t);
            }
            tokens.push(t);
            assert(token_views(tokens@) =~= join_of(self@, i + 1));
            i = i + 1;
        }
        Value(tokens)
    }
}


/// A filter of one predicate `field operator value`, with a field and a value
/// of plain chars and an operator of operator chars, parses to that predicate,
/// preceded by the `,` that the parser puts in front of the text.
pub proof fn lemma_parse_single_predicate(field: Seq<char>, op: Seq<char>, value: Seq<char>)
    requires
        field.len() > 0,
        all_plain(field),
        op.len() > 0,
        forall|k: int| 0 <= k < op.len() ==> is_operator_char(#[trigger] op[k]),
        value.len() > 0,
        all_plain(value),
    ensures
        parse(field + op + value) == Ok::<Seq<SpecPredicate>, Seq<char>>(
            seq![
                SpecPredicate {
                    unused: SpecToken { kind: Kind::Operator, value: seq![COMMA] },
                    field: SpecToken { kind: Kind::Literal, value: field },
                    operator: SpecToken { kind: Kind::Operator, value: op },
                    value: seq![SpecToken { kind: Kind::Literal, value: value }],
                },
            ],
        ),
{
    let text = field + op + value;
    let s = seq![COMMA] + text;
    let a: int = 1 + field.len() as int;
    let b: int = a + op.len() as int;
    let n = s.len() as int;
    assert(n == b + value.len());
    assert forall|k: int| 1 <= k < a implies is_plain_char(#[trigger] s[k]) by {
        assert(s[k] == field[k - 1]);
    }
    assert forall|k: int| a <= k < b implies is_operator_char(#[trigger] s[k]) by {
        assert(s[k] == op[k - a]);
    }
    assert forall|k: int| b <= k < n implies is_plain_char(#[trigger] s[k]) by {
        assert(s[k] == value[k - b]);
    }
    assert(s.subrange(1, a) == field);
    assert(s.subrange(a, b) == op);
    assert(s.subrange(b, n) == value);
    let empty = Seq::<char>::empty();
    let comma = SpecToken { kind: Kind::Operator, value: seq![COMMA] };
    let f = SpecToken { kind: Kind::Literal, value: field };
    let o = SpecToken { kind: Kind::Operator, value: op };
    let v = SpecToken { kind: Kind::Literal, value: value };
    // the leading comma
    assert(is_plain_char(s[1]));
    lemma_op_run_end_at(s, 0, 1);
    assert(s.subrange(0, 1) == seq![COMMA]);
    assert(read_operator_at(s, 0) == Ok::<(SpecToken, int), Seq<char>>((comma, 1)));
    assert(emit(empty, seq![], Kind::Literal).push(comma) == seq![comma]);
    assert(lex_from(s, 0, empty, seq![]) == lex_from(s, 1, empty, seq![comma]));
    // the field
    lemma_lex_plain_run(s, 1, a, empty, seq![comma]);
    assert(empty + field == field);
    // the operator
    assert(is_plain_char(s[b]));
    lemma_op_run_end_at(s, a, b);
    assert(read_operator_at(s, a) == Ok::<(SpecToken, int), Seq<char>>((o, b)));
    assert(emit(field, seq![comma], Kind::Literal).push(o) == seq![comma, f, o]);
    assert(lex_from(s, a, field, seq![comma]) == lex_from(s, b, empty, seq![comma, f, o]));
    // the value
    lemma_lex_plain_run(s, b, n, empty, seq![comma, f, o]);
    assert(empty + value == value);
    assert(emit(value, seq![comma, f, o], Kind::Literal) == seq![comma, f, o, v]);
    let toks = seq![comma, f, o, v];
    assert(lex(s) == Ok::<Seq<SpecToken>, Seq<char>>(toks));
    // the parser
    let p = SpecPredicate { unused: comma, field: f, operator: o, value: seq![v] };
    let e = Seq::<SpecToken>::empty();
    assert(e.push(comma) == seq![comma]);
    assert(seq![comma].push(f) == seq![comma, f]);
    assert(seq![comma, f].push(o) == seq![comma, f, o]);
    assert(parse_from(toks, 0, e, seq![]) == parse_from(toks, 1, seq![comma], seq![]));
    assert(parse_from(toks, 1, seq![comma], seq![]) == parse_from(toks, 2, seq![comma, f], seq![]));
    assert(parse_from(toks, 2, seq![comma, f], seq![]) == parse_from(toks, 3, seq![comma, f, o], seq![]));
    assert(predicate_of(seq![comma, f, o], seq![v]) == p);
    assert(parse_from(toks, 3, seq![comma, f, o], seq![]) == parse_from(toks, 4, e, seq![p]));
}


proof fn lemma_build_list_prefix(t1: Seq<SpecToken>, t2: Seq<SpecToken>, j: int, acc: Seq<SpecToken>)
    requires
        0 <= j,
    ensures
        build_list_from(t1, j, acc) is Ok ==> build_list_from(t1 + t2, j, acc) == build_list_from(
            t1,
            j,
            acc,
        ),
    decreases t1.len() - j,
{
    if j < t1.len() {
        let t = t1[j];
        assert((t1 + t2)[j] == t);
        lemma_build_list_prefix(t1, t2, j + 1, acc.push(t));
        lemma_build_list_prefix(t1, t2, j + 1, acc);
    }
}

proof fn lemma_build_list_shift(t1: Seq<SpecToken>, t2: Seq<SpecToken>, j: int, acc: Seq<SpecToken>)
    requires
        0 <= j,
    ensures
        build_list_from(t1 + t2, t1.len() + j, acc) == match build_list_from(t2, j, acc) {
            Ok((v, e)) => Ok((v, t1.len() + e)),
            Err(m) => Err::<(Seq<SpecToken>, int), Seq<char>>(m),
        },
    decreases t2.len() - j,
{
    if j < t2.len() {
        let t = t2[j];
        assert((t1 + t2)[t1.len() + j] == t);
        lemma_build_list_shift(t1, t2, j + 1, acc.push(t));
        lemma_build_list_shift(t1, t2, j + 1, acc);
    }
}

proof fn lemma_parse_from_prefix(
    t1: Seq<SpecToken>,
    t2: Seq<SpecToken>,
    i: int,
    brf: Seq<SpecToken>,
    preds: Seq<SpecPredicate>,
)
    requires
        0 <= i <= t1.len(),
    ensures
        parse_from(t1, i, brf, preds) matches Ok(f) ==> parse_from(t1 + t2, i, brf, preds)
            == parse_from(t1 + t2, t1.len() as int, seq![], f),
    decreases t1.len() - i,
{
    let empty = Seq::<SpecToken>::empty();
    if i < t1.len() {
        let t = t1[i];
        assert((t1 + t2)[i] == t);
        if brf.len() > 2 {
            if brf[0].kind == Kind::Operator && brf[2].kind == Kind::Operator {
                if is_term(t) {
                    lemma_parse_from_prefix(t1, t2, i + 1, empty, preds.push(predicate_of(brf, seq![t])));
                } else if t.kind == Kind::Lparen {
                    lemma_build_list_advances(t1, i, empty);
                    if let Ok((v, e)) = build_list_from(t1, i, empty) {
                        lemma_build_list_prefix(t1, t2, i, empty);
                        lemma_parse_from_prefix(t1, t2, e, empty, preds.push(predicate_of(brf, v)));
                    }
                } else {
                    lemma_parse_from_prefix(t1, t2, i + 1, brf, preds);
                }
            }
        } else {
            lemma_parse_from_prefix(t1, t2, i + 1, brf.push(t), preds);
        }
    } else if brf.len() == 0 {
        assert(brf =~= empty);
    }
}

proof fn lemma_parse_from_shift(
    t1: Seq<SpecToken>,
    t2: Seq<SpecToken>,
    j: int,
    brf: Seq<SpecToken>,
    f1: Seq<SpecPredicate>,
    preds: Seq<SpecPredicate>,
)
    requires
        0 <= j,
    ensures
        parse_from(t1 + t2, t1.len() + j, brf, f1 + preds) == prefixed(f1, parse_from(t2, j, brf, preds)),
    decreases t2.len() - j,
{
    let empty = Seq::<SpecToken>::empty();
    let n = t1.len() as int;
    if j < t2.len() {
        let t = t2[j];
        assert((t1 + t2)[n + j] == t);
        if brf.len() > 2 {
            if brf[0].kind == Kind::Operator && brf[2].kind == Kind::Operator {
                if is_term(t) {
                    let p = predicate_of(brf, seq![t]);
                    assert((f1 + preds).push(p) == f1 + preds.push(p));
                    lemma_parse_from_shift(t1, t2, j + 1, empty, f1, preds.push(p));
                } else if t.kind == Kind::Lparen {
                    lemma_build_list_shift(t1, t2, j, empty);
                    lemma_build_list_advances(t2, j, empty);
                    if let Ok((v, e)) = build_list_from(t2, j, empty) {
                        let p = predicate_of(brf, v);
                        assert((f1 + preds).push(p) == f1 + preds.push(p));
                        lemma_parse_from_shift(t1, t2, e, empty, f1, preds.push(p));
                    }
                } else {
                    lemma_parse_from_shift(t1, t2, j + 1, brf, f1, preds);
                }
            }
        } else {
            lemma_parse_from_shift(t1, t2, j + 1, brf.push(t), f1, preds);
        }
    }
}

/// Two filters joined by `,` parse to the predicates of the first followed by
/// those of the second; when the second does not parse, the joined text fails
/// with its error.
pub proof fn lemma_parse_comma_joined(s1: Seq<char>, s2: Seq<char>)
    requires
        s1.len() > 0,
        s2.len() > 0,
        parse(s1) is Ok,
    ensures
        parse(s1 + seq![COMMA] + s2) == prefixed(parse(s1)->Ok_0, parse(s2)),
{
    let a = seq![COMMA] + s1;
    let c = seq![COMMA] + s2;
    let joined = s1 + seq![COMMA] + s2;
    assert(seq![COMMA] + joined == a + c);
    assert(c[0] == COMMA);
    assert(ends_literal(c[0]));
    lemma_lex_concat(a, c);
    let t1 = lex(a)->Ok_0;
    let f1 = parse(s1)->Ok_0;
    let empty = Seq::<SpecToken>::empty();
    let none = Seq::<SpecPredicate>::empty();
    if let Ok(t2) = lex(c) {
        lemma_parse_from_prefix(t1, t2, 0, empty, none);
        lemma_parse_from_shift(t1, t2, 0, empty, f1, none);
        assert(f1 + none == f1);
        assert(t1.len() + 0 == t1.len());
    }
}

/// Two filters that parse, joined by `,`, parse to the predicates of the first
/// followed by those of the second.
pub proof fn lemma_parse_comma_joined_ok(s1: Seq<char>, s2: Seq<char>)
    requires
        s1.len() > 0,
        s2.len() > 0,
        parse(s1) is Ok,
        parse(s2) is Ok,
    ensures
        parse(s1 + seq![COMMA] + s2) == Ok::<Seq<SpecPredicate>, Seq<char>>(
            parse(s1)->Ok_0 + parse(s2)->Ok_0,
        ),
{
    lemma_parse_comma_joined(s1, s2);
}


/// The predicate `field operator value` that a one-predicate filter is read
/// into, behind the `,` that the parser puts in front of the text.
pub open spec fn single_predicate(field: SpecToken, op: Seq<char>, value: SpecToken) -> SpecPredicate {
    SpecPredicate {
        unused: SpecToken { kind: Kind::Operator, value: seq![COMMA] },
        field,
        operator: SpecToken { kind: Kind::Operator, value: op },
        value: seq![value],
    }
}

/// A filter `a` + operator char + `b` of two words parses to one predicate
/// with field `a`, operator exactly that char and value the literal `b`, for
/// each of `:` `,` `|` `=` `~` `!` `<` `>`.
pub proof fn lemma_parse_word_operator_word(a: Seq<char>, c: char, b: Seq<char>)
    requires
        is_word(a),
        is_word(b),
        is_filter_operator(c),
    ensures
        parse(a + seq![c] + b) == Ok::<Seq<SpecPredicate>, Seq<char>>(
            seq![
                single_predicate(
                    SpecToken { kind: Kind::Literal, value: a },
                    seq![c],
                    SpecToken { kind: Kind::Literal, value: b },
                ),
            ],
        ),
{
    lemma_word_plain(a);
    lemma_word_plain(b);
    assert(is_operator_char(seq![c][0]));
    lemma_parse_single_predicate(a, seq![c], b);
}

/// A filter whose value is quoted keeps the value as the string token that
/// the lexer read, with exactly the quoted chars: `a` + operator char + a
/// quoted text `w` parses to one predicate whose value is the string `w`.
pub proof fn lemma_parse_quoted_value(a: Seq<char>, c: char, q: char, w: Seq<char>)
    requires
        is_word(a),
        is_filter_operator(c),
        q == QUOTE || q == SQUOTE,
        w.len() > 0,
        forall|k: int| 0 <= k < w.len() ==> w[k] != q,
        w.last() != ESCAPE,
    ensures
        parse(a + seq![c] + (seq![q] + w + seq![q])) == Ok::<Seq<SpecPredicate>, Seq<char>>(
            seq![
                single_predicate(
                    SpecToken { kind: Kind::Literal, value: a },
                    seq![c],
                    SpecToken { kind: Kind::String, value: w },
                ),
            ],
        ),
{
    lemma_word_plain(a);
    let qt = seq![q] + w + seq![q];
    let big_a = seq![COMMA] + a;
    let big_c = seq![c] + qt;
    let empty = Seq::<char>::empty();
    let comma = SpecToken { kind: Kind::Operator, value: seq![COMMA] };
    let ta = SpecToken { kind: Kind::Literal, value: a };
    let tc = SpecToken { kind: Kind::Operator, value: seq![c] };
    let tw = SpecToken { kind: Kind::String, value: w };
    // the front: the comma and the field
    let m: int = big_a.len() as int;
    assert forall|k: int| 1 <= k < m implies is_plain_char(#[trigger] big_a[k]) by {
        assert(big_a[k] == a[k - 1]);
    }
    assert(big_a[1] == a[0]);
    lemma_op_run_end_at(big_a, 0, 1);
    assert(big_a.subrange(0, 1) == seq![COMMA]);
    assert(read_operator_at(big_a, 0) == Ok::<(SpecToken, int), Seq<char>>((comma, 1)));
    assert(emit(empty, seq![], Kind::Literal).push(comma) == seq![comma]);
    lemma_lex_plain_run(big_a, 1, m, empty, seq![comma]);
    assert(big_a.subrange(1, m) == a);
    assert(empty + a == a);
    assert(emit(a, seq![comma], Kind::Literal) == seq![comma, ta]);
    assert(lex(big_a) == Ok::<Seq<SpecToken>, Seq<char>>(seq![comma, ta]));
    // the back: the operator and the quoted value
    assert(big_c[0] == c);
    assert(is_operator_char(c));
    assert(big_c[1] == q);
    lemma_op_run_end_at(big_c, 0, 1);
    assert(big_c.subrange(0, 1) == seq![c]);
    assert(read_operator_at(big_c, 0) == Ok::<(SpecToken, int), Seq<char>>((tc, 1)));
    assert(emit(empty, seq![], Kind::Literal).push(tc) == seq![tc]);
    lemma_lex_quoted(q, w);
    lemma_lex_from_shift(seq![c], qt, 0, empty, seq![tc], seq![]);
    assert(seq![tc] + Seq::<SpecToken>::empty() == seq![tc]);
    assert(seq![tc] + seq![tw] == seq![tc, tw]);
    assert(lex(big_c) == Ok::<Seq<SpecToken>, Seq<char>>(seq![tc, tw]));
    // together
    assert(ends_literal(big_c[0]));
    lemma_lex_concat(big_a, big_c);
    let toks = seq![comma, ta, tc, tw];
    assert(seq![comma, ta] + seq![tc, tw] == toks);
    let text = a + seq![c] + qt;
    assert(seq![COMMA] + text == big_a + big_c);
    assert(lex(seq![COMMA] + text) == Ok::<Seq<SpecToken>, Seq<char>>(toks));
    // the parser
    let p = SpecPredicate { unused: comma, field: ta, operator: tc, value: seq![tw] };
    let e = Seq::<SpecToken>::empty();
    assert(e.push(comma) == seq![comma]);
    assert(seq![comma].push(ta) == seq![comma, ta]);
    assert(seq![comma, ta].push(tc) == seq![comma, ta, tc]);
    assert(parse_from(toks, 0, e, seq![]) == parse_from(toks, 1, seq![comma], seq![]));
    assert(parse_from(toks, 1, seq![comma], seq![]) == parse_from(toks, 2, seq![comma, ta], seq![]));
    assert(parse_from(toks, 2, seq![comma, ta], seq![]) == parse_from(toks, 3, seq![comma, ta, tc], seq![]));
    assert(predicate_of(seq![comma, ta, tc], seq![tw]) == p);
    assert(parse_from(toks, 3, seq![comma, ta, tc], seq![]) == parse_from(toks, 4, e, seq![p]));
    assert(text.len() > 0);
}


/// A list as the filter language writes it: literals or strings at even
/// positions, and between each two the same separator, `,` or `|`.
pub open spec fn alternating_list(v: Seq<SpecToken>, sep: char) -> bool {
    &&& v.len() > 0
    &&& (sep == ',' || sep == '|')
    &&& forall|k: int|
        0 <= k < v.len() && k % 2 == 0 ==> (#[trigger] v[k]).kind == Kind::Literal || v[k].kind
            == Kind::String
    &&& forall|k: int|
        0 <= k < v.len() && k % 2 == 1 ==> #[trigger] v[k] == (SpecToken {
            kind: Kind::Operator,
            value: seq![sep],
        })
}

proof fn lemma_alternating_no_error(v: Seq<SpecToken>, sep: char, i: int)
    requires
        alternating_list(v, sep),
        0 <= i,
    ensures
        first_list_error(v, i) is None,
    decreases v.len() - i,
{
    if i < v.len() {
        if i % 2 == 1 && i >= 3 {
            assert(v[i - 2] == SpecToken { kind: Kind::Operator, value: seq![sep] });
        }
        assert(list_item_error(v, i) is None);
        lemma_alternating_no_error(v, sep, i + 1);
    }
}

/// Every list in which terms alternate with one separator, `,` or `|`, is
/// accepted, whatever its length.
pub proof fn lemma_alternating_list_accepted(v: Seq<SpecToken>, sep: char)
    requires
        alternating_list(v, sep),
    ensures
        list_verdict(v) is Ok,
{
    lemma_alternating_no_error(v, sep, 0);
}

proof fn lemma_build_alternating(toks: Seq<SpecToken>, v: Seq<SpecToken>, sep: char, j: int)
    requires
        alternating_list(v, sep),
        toks.len() == v.len() + 2,
        toks[0].kind == Kind::Lparen,
        toks[v.len() as int + 1].kind == Kind::Rparen,
        forall|k: int| 0 <= k < v.len() ==> toks[k + 1] == v[k],
        1 <= j <= v.len() + 1,
    ensures
        build_list_from(toks, j, v.take(j - 1)) == Ok::<(Seq<SpecToken>, int), Seq<char>>(
            (v, toks.len() as int),
        ),
    decreases v.len() + 1 - j,
{
    if j == v.len() + 1 {
        assert(v.take(j - 1) == v);
        lemma_alternating_list_accepted(v, sep);
    } else {
        let t = toks[j];
        assert(t == v[j - 1]);
        assert(v.take(j - 1).push(v[j - 1]) == v.take(j));
        if (j - 1) % 2 == 1 {
            assert(is_separator(t));
        }
        lemma_build_alternating(toks, v, sep, j + 1);
    }
}

/// A parenthesized list in which terms alternate with one separator, `,` or
/// `|`, is read whole, whatever its length: its items, and the position after
/// the closing parenthesis.
pub proof fn lemma_build_alternating_list(lp: SpecToken, v: Seq<SpecToken>, sep: char, rp: SpecToken)
    requires
        alternating_list(v, sep),
        lp.kind == Kind::Lparen,
        rp.kind == Kind::Rparen,
    ensures
        build_list_from(seq![lp] + v + seq![rp], 0, seq![]) == Ok::<
            (Seq<SpecToken>, int),
            Seq<char>,
        >((v, v.len() as int + 2)),
{
    let toks = seq![lp] + v + seq![rp];
    assert forall|k: int| 0 <= k < v.len() implies toks[k + 1] == v[k] by {}
    assert(toks[v.len() as int + 1] == rp);
    lemma_build_alternating(toks, v, sep, 1);
    assert(v.take(0) == Seq::<SpecToken>::empty());
}


/// Asking for one kind keeps exactly the tokens of that kind, in order.
pub proof fn lemma_by_kind_single(ts: Seq<SpecToken>, k: Kind)
    ensures
        by_kind_of(ts, seq![k]) == ts.filter(|t: SpecToken| t.kind == k),
    decreases ts.len(),
{
    reveal(Seq::filter);
    let ks = seq![k];
    assert(ks.drop_last() == Seq::<Kind>::empty());
    if ts.len() > 0 {
        lemma_by_kind_single(ts.drop_last(), k);
        let last = ts.last();
        assert(kind_count(ks.drop_last(), last.kind) == 0);
        assert(ks.last() == k);
        assert(kind_count(ks, last.kind) == if last.kind == k { 1nat } else { 0nat });
        let rest = by_kind_of(ts.drop_last(), ks);
        if last.kind == k {
            assert(Seq::new(1, |_i: int| last) == seq![last]);
            assert(rest + seq![last] == rest.push(last));
        } else {
            assert(rest + Seq::new(0, |_i: int| last) == rest);
        }
    }
}

/// Joining the first `n` tokens puts token `i` at position `2 i` and a blank
/// operator at every odd position, `2 n - 1` tokens in all.
pub proof fn lemma_join_positions(ts: Seq<SpecToken>, n: int)
    requires
        0 < n <= ts.len(),
    ensures
        join_of(ts, n).len() == 2 * n - 1,
        forall|i: int| 0 <= i < n ==> #[trigger] join_of(ts, n)[2 * i] == ts[i],
        forall|i: int| 0 <= i < n - 1 ==> #[trigger] join_of(ts, n)[2 * i + 1] == blank_operator(),
    decreases n,
{
    if n > 1 {
        lemma_join_positions(ts, n - 1);
        let prev = join_of(ts, n - 1);
        assert forall|i: int| 0 <= i < n implies #[trigger] join_of(ts, n)[2 * i] == ts[i] by {
            if i < n - 1 {
                assert(join_of(ts, n)[2 * i] == prev[2 * i]);
            }
        }
        assert forall|i: int| 0 <= i < n - 1 implies #[trigger] join_of(ts, n)[2 * i + 1]
            == blank_operator() by {
            if i < n - 2 {
                assert(join_of(ts, n)[2 * i + 1] == prev[2 * i + 1]);
            }
        }
    }
}

} // verus!
