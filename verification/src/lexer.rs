//! The lexer: it turns the text of a filter into a sequence of tokens.
use vstd::prelude::*;
use crate::text::{chars_to_string, push_char, string_chars, parse_bool, parse_usize, usize_from_text, bool_from_text};

verus! {

pub const COLON: char = ':';
pub const COMMA: char = ',';
pub const AND: char = COMMA;
pub const OR: char = '|';
pub const EQ: char = '=';
pub const LIKE: char = '~';
pub const NOT: char = '!';
pub const LT: char = '<';
pub const GT: char = '>';
pub const QUOTE: char = '"';
pub const SQUOTE: char = '\'';
pub const ESCAPE: char = '\\';
pub const SPACE: char = ' ';
pub const LPAREN: char = '(';
pub const RPAREN: char = ')';

/// A position in a sequence of items, as the readers of this crate walk it.
pub struct Cursor<T> {
    pub items: Seq<T>,
    pub index: int,
}

impl<T> Cursor<T> {
    /// The item at the position, if the position is inside the sequence.
    pub open spec fn current(self) -> Option<T> {
        if 0 <= self.index < self.items.len() {
            Some(self.items[self.index])
        } else {
            None
        }
    }

    /// The cursor after a read: one step further, unless the sequence is used up.
    pub open spec fn advanced(self) -> Cursor<T> {
        if 0 <= self.index < self.items.len() {
            Cursor { items: self.items, index: self.index + 1 }
        } else {
            self
        }
    }

    /// The cursor after a rewind: one step back, unless it is at the start.
    pub open spec fn rewound(self) -> Cursor<T> {
        if self.index > 0 {
            Cursor { items: self.items, index: self.index - 1 }
        } else {
            self
        }
    }
}

/// Rewinding after a read that returned an item gives back the cursor as it was.
pub proof fn lemma_rewind_undoes_read<T>(c: Cursor<T>)
    requires
        c.current() is Some,
    ensures
        c.advanced().rewound() == c,
{
}

/// Reading after a rewind that moved the cursor gives back the cursor as it was.
pub proof fn lemma_read_undoes_rewind<T>(c: Cursor<T>)
    requires
        0 < c.index <= c.items.len(),
    ensures
        c.rewound().advanced() == c,
        c.rewound().current() == Some(c.items[c.index - 1]),
{
}

/// The kinds of token.
#[derive(Debug, PartialEq, Eq, Structural, Clone, Copy)]
pub enum Kind {
    Literal,
    String,
    Operator,
    Lparen,
    Rparen,
}

/// A token as a mathematical value.
pub struct SpecToken {
    pub kind: Kind,
    pub value: Seq<char>,
}

/// Token scanned token.
#[derive(Debug, PartialEq)]
pub struct Token {
    pub kind: Kind,
    pub value: Vec<char>,
}

impl View for Token {
    type V = SpecToken;

    open spec fn view(&self) -> SpecToken {
        SpecToken { kind: self.kind, value: self.value@ }
    }
}

impl Clone for Token {
    fn clone(&self) -> (res: Self)
        ensures
            res@ == self@,
    {
        let mut value: Vec<char> = Vec::new();
        let n = self.value.len();
        let mut i: usize = 0;
        while i < n
            invariant
                n == self.value@.len(),
                i <= n,
                value@ == self.value@.take(i as int),
            decreases n - i,
        {
            value.push(self.value[i]);
            assert(self.value@.take(i + 1) == self.value@.take(i as int).push(self.value@[i as int]));
            i = i + 1;
        }
        assert(self.value@.take(n as int) == self.value@);
        Token { kind: self.kind, value }
    }
}

/// The views of a sequence of tokens.
pub open spec fn token_views(ts: Seq<Token>) -> Seq<SpecToken> {
    ts.map_values(|t: Token| t@)
}

pub proof fn lemma_token_views_push(ts: Seq<Token>, t: Token)
    ensures
        token_views(ts.push(t)) == token_views(ts).push(t@),
        token_views(ts).len() == ts.len(),
{
    assert(token_views(ts.push(t)) =~= token_views(ts).push(t@));
}


/// Whether a char belongs to an operator: `:` `,` `|` `=` `~` `!` `<` `>`.
pub open spec fn is_operator_char(c: char) -> bool {
    c == COLON || c == COMMA || c == OR || c == EQ || c == LIKE || c == NOT || c == LT || c == GT
}

fn is_operator(c: char) -> (b: bool)
    ensures
        b == is_operator_char(c),
{
    c == COLON || c == COMMA || c == OR || c == EQ || c == LIKE || c == NOT || c == LT || c == GT
}

/// The end of the run of operator chars that starts at `i`.
pub open spec fn op_run_end(s: Seq<char>, i: int) -> int
    decreases s.len() - i,
{
    if 0 <= i < s.len() && is_operator_char(s[i]) {
        op_run_end(s, i + 1)
    } else {
        i
    }
}

pub proof fn lemma_op_run_end(s: Seq<char>, i: int)
    ensures
        op_run_end(s, i) >= i,
        0 <= i < s.len() && is_operator_char(s[i]) ==> op_run_end(s, i) > i,
        0 <= i ==> op_run_end(s, i) <= if i <= s.len() { s.len() as int } else { i },
        forall|k: int| i <= k < op_run_end(s, i) ==> is_operator_char(#[trigger] s[k]),
        op_run_end(s, i) < s.len() && 0 <= i ==> !is_operator_char(s[op_run_end(s, i)]),
    decreases s.len() - i,
{
    if 0 <= i < s.len() && is_operator_char(s[i]) {
        lemma_op_run_end(s, i + 1);
    }
}

pub open spec fn msg_no_first_quote() -> Seq<char> {
    "Could not get first quoted character"@
}

pub open spec fn msg_unclosed_quote(q: char) -> Seq<char> {
    "End "@ + seq![q] + " not found."@
}

pub open spec fn msg_unclosed_operator() -> Seq<char> {
    "End of operator not found"@
}

/// What reading an operator at position `i` gives: the run of operator chars
/// from `i` and the position after it. A run that reaches the end of the text
/// is refused.
pub open spec fn read_operator_at(s: Seq<char>, i: int) -> Result<(SpecToken, int), Seq<char>> {
    let e = op_run_end(s, i);
    if e >= s.len() {
        Err(msg_unclosed_operator())
    } else {
        Ok((SpecToken { kind: Kind::Operator, value: s.subrange(i, e) }, e))
    }
}

/// Whether the char at `j` closes the quoted string opened at `i`: the same
/// quote char, not the first char after the opening one, and not preceded by
/// the escape char.
pub open spec fn closes_quote(s: Seq<char>, i: int, j: int) -> bool {
    0 <= i && i + 2 <= j < s.len() && s[j] == s[i] && s[j - 1] != ESCAPE
}

/// The first position from `j` on that closes the quoted string opened at `i`.
pub open spec fn find_close(s: Seq<char>, i: int, j: int) -> Option<int>
    decreases s.len() - j,
{
    if 0 <= j < s.len() {
        if closes_quote(s, i, j) {
            Some(j)
        } else {
            find_close(s, i, j + 1)
        }
    } else {
        None
    }
}

pub proof fn lemma_find_close(s: Seq<char>, i: int, j: int)
    ensures
        find_close(s, i, j) matches Some(c) ==> j <= c && closes_quote(s, i, c),
        find_close(s, i, j) matches Some(c) ==> forall|k: int| j <= k < c ==> !closes_quote(s, i, k),
        find_close(s, i, j) is None && 0 <= j ==> forall|k: int| j <= k < s.len() ==> !closes_quote(s, i, k),
    decreases s.len() - j,
{
    if 0 <= j < s.len() {
        lemma_find_close(s, i, j + 1);
    }
}

/// The text of the quoted string opened at `i` and closed at `c`: the chars in
/// between, without the quote char itself.
pub open spec fn quoted_text(s: Seq<char>, i: int, c: int) -> Seq<char> {
    s.subrange(i + 1, c).filter(|ch: char| ch != s[i])
}

/// What reading a quoted string at position `i` gives: its text and the
/// position after the closing quote.
pub open spec fn read_quoted_at(s: Seq<char>, i: int) -> Result<(Seq<char>, int), Seq<char>> {
    if !(0 <= i < s.len()) {
        Err(msg_no_first_quote())
    } else {
        match find_close(s, i, i + 2) {
            Some(c) => Ok((quoted_text(s, i, c), c + 1)),
            None => Err(msg_unclosed_quote(s[i])),
        }
    }
}

/// The tokens after the buffered chars are emitted as one token of `kind`;
/// an empty buffer emits nothing.
pub open spec fn emit(bfr: Seq<char>, toks: Seq<SpecToken>, kind: Kind) -> Seq<SpecToken> {
    if bfr.len() == 0 {
        toks
    } else {
        toks.push(SpecToken { kind, value: bfr })
    }
}

/// The tokens of `s` read from position `i` on, with the chars `bfr` of an
/// unfinished literal and the tokens `toks` already read.
pub open spec fn lex_from(s: Seq<char>, i: int, bfr: Seq<char>, toks: Seq<SpecToken>) -> Result<
    Seq<SpecToken>,
    Seq<char>,
>
    decreases s.len() - i,
{
    if !(0 <= i < s.len()) {
        Ok(emit(bfr, toks, Kind::Literal))
    } else {
        let ch = s[i];
        if ch == QUOTE || ch == SQUOTE {
            match read_quoted_at(s, i) {
                Ok((text, e)) => {
                    proof {
                        lemma_find_close(s, i, i + 2);
                    }
                    lex_from(
                        s,
                        e,
                        seq![],
                        emit(bfr, toks, Kind::Literal).push(SpecToken { kind: Kind::String, value: text }),
                    )
                },
                Err(m) => Err(m),
            }
        } else if ch == SPACE {
            lex_from(s, i + 1, seq![], emit(bfr, toks, Kind::Literal))
        } else if ch == LPAREN {
            lex_from(s, i + 1, seq![], emit(bfr.push(ch), toks, Kind::Lparen))
        } else if ch == RPAREN {
            lex_from(
                s,
                i + 1,
                seq![],
                emit(bfr, toks, Kind::Literal).push(SpecToken { kind: Kind::Rparen, value: seq![RPAREN] }),
            )
        } else if is_operator_char(ch) {
            match read_operator_at(s, i) {
                Ok((t, e)) => {
                    proof {
                        lemma_op_run_end(s, i);
                    }
                    lex_from(s, e, seq![], emit(bfr, toks, Kind::Literal).push(t))
                },
                Err(m) => Err(m),
            }
        } else {
            lex_from(s, i + 1, bfr.push(ch), toks)
        }
    }
}

/// The tokens of a filter text, or the message of the error that stops the lexer.
pub open spec fn lex(s: Seq<char>) -> Result<Seq<SpecToken>, Seq<char>> {
    lex_from(s, 0, seq![], seq![])
}


/// Reader scan the input.
pub struct Reader {
    pub chars: Vec<char>,
    pub index: usize,
}

impl View for Reader {
    type V = Cursor<char>;

    open spec fn view(&self) -> Cursor<char> {
        Cursor { items: self.chars@, index: self.index as int }
    }
}

impl Reader {
    /// A reader at the start of the input.
    pub fn from(input: &str) -> (r: Self)
        ensures
            r@ == (Cursor { items: input@, index: 0 }),
    {
        let chars = string_chars(input);
        Reader { chars, index: 0 }
    }

    /// Next character.
    pub fn next(&mut self) -> (r: Option<char>)
        ensures
            r == old(self)@.current(),
            final(self)@ == old(self)@.advanced(),
    {
        if self.index < self.chars.len() {
            let current_index = self.index;
            self.index = self.index + 1;
            Some(self.chars[current_index])
        } else {
            None
        }
    }

    /// Put rewinds one character.
    pub fn put(&mut self)
        ensures
            final(self)@ == old(self)@.rewound(),
    {
        if self.index > 0 {
            self.index = self.index - 1;
        }
    }
}

/// Where a reader stands after a failed read: at the end of the input, or
/// where it was if it was already past it.
pub open spec fn stop_after_error(c: Cursor<char>) -> int {
    if c.index < c.items.len() {
        c.items.len() as int
    } else {
        c.index
    }
}

/// Reads the quoted string whose opening quote is the next char of `reader`.
fn read_quoted(reader: &mut Reader) -> (r: Result<Token, String>)
    ensures
        final(reader).chars@ == old(reader).chars@,
        match read_quoted_at(old(reader).chars@, old(reader).index as int) {
            Ok((text, e)) => r matches Ok(t) && t@ == (SpecToken { kind: Kind::String, value: text })
                && final(reader).index == e,
            Err(m) => r matches Err(msg) && msg@ == m && final(reader).index == stop_after_error(
                old(reader)@,
            ),
        },
{
    let ghost s = reader.chars@;
    let ghost i = reader.index as int;
    let quote = match reader.next() {
        Some(c) => c,
        None => {
            return Err("Could not get first quoted character".to_string());
        },
    };
    let mut last_ch: Option<char> = None;
    let mut bfr: Vec<char> = Vec::new();
    assert(s.subrange(i + 1, i + 1) =~= Seq::<char>::empty());
    loop
        invariant
            reader.chars@ == s,
            s == old(reader).chars@,
            i == old(reader).index,
            0 <= i < s.len(),
            i + 1 <= reader.index <= s.len(),
            quote == s[i],
            bfr@ == quoted_text(s, i, reader.index as int),
            last_ch == (if reader.index == i + 1 {
                None::<char>
            } else {
                Some(s[reader.index - 1])
            }),
            find_close(s, i, i + 2) == find_close(
                s,
                i,
                if reader.index == i + 1 {
                    i + 2
                } else {
                    reader.index as int
                },
            ),
        decreases s.len() - reader.index,
    {
        let ghost j = reader.index as int;
        match reader.next() {
            Some(ch) => {
                assert(s.subrange(i + 1, j + 1) == s.subrange(i + 1, j).push(s[j]));
                broadcast use Seq::lemma_filter_push;

                if ch == quote {
                    if let Some(last) = last_ch {
                        if last != ESCAPE {
                            assert(closes_quote(s, i, j));
                            return Ok(Token { kind: Kind::String, value: bfr });
                        }
                    }
                } else {
                    bfr.push(ch);
                }
                last_ch = Some(ch);
            },
            None => {
                let mut msg = String::from_str("End ");
                push_char(&mut msg, quote);
                msg.append(" not found.");
                return Err(msg);
            },
        }
    }
}

/// Reads the run of operator chars that starts at the next char of `reader`,
/// leaving the reader on the first char after the run.
fn read_operator(reader: &mut Reader) -> (r: Result<Token, String>)
    ensures
        final(reader).chars@ == old(reader).chars@,
        match read_operator_at(old(reader).chars@, old(reader).index as int) {
            Ok((t, e)) => r matches Ok(tok) && tok@ == t && final(reader).index == e,
            Err(m) => r matches Err(msg) && msg@ == m && final(reader).index == stop_after_error(
                old(reader)@,
            ),
        },
{
    let ghost s = reader.chars@;
    let ghost i = reader.index as int;
    let mut bfr: Vec<char> = Vec::new();
    proof {
        lemma_op_run_end(s, i);
    }
    loop
        invariant
            reader.chars@ == s,
            s == old(reader).chars@,
            i == old(reader).index,
            i <= reader.index,
            reader.index == i || reader.index <= s.len(),
            op_run_end(s, i) == op_run_end(s, reader.index as int),
            forall|k: int| i <= k < reader.index ==> is_operator_char(#[trigger] s[k]),
            i <= s.len() ==> bfr@ == s.subrange(i, reader.index as int),
            i > s.len() ==> reader.index == i,
        decreases s.len() - reader.index,
    {
        let ghost j = reader.index as int;
        match reader.next() {
            Some(ch) => {
                if is_operator(ch) {
                    bfr.push(ch);
                    assert(s.subrange(i, j + 1) == s.subrange(i, j).push(s[j]));
                } else {
                    reader.put();
                    return Ok(Token { kind: Kind::Operator, value: bfr });
                }
            },
            None => {
                return Err("End of operator not found".to_string());
            },
        }
    }
}

/// Quoted string token reader.
pub struct Quoted<'a> {
    reader: &'a mut Reader,
}

impl Quoted<'_> {
    /// The reader that the quoted string is read from.
    pub closed spec fn source(self) -> Reader {
        *self.reader
    }

    /// Read token
    pub fn read(&mut self) -> (r: Result<Token, String>)
        ensures
            final(self).source().chars@ == old(self).source().chars@,
            match read_quoted_at(old(self).source().chars@, old(self).source().index as int) {
                Ok((text, e)) => r matches Ok(t) && t@ == (SpecToken { kind: Kind::String, value: text })
                    && final(self).source().index == e,
                Err(m) => r matches Err(msg) && msg@ == m && final(self).source().index
                    == stop_after_error(old(self).source()@),
            },
    {
        read_quoted(self.reader)
    }
}

/// Operator token reader.
pub struct Operator<'a> {
    reader: &'a mut Reader,
}

impl Operator<'_> {
    /// The reader that the operator is read from.
    pub closed spec fn source(self) -> Reader {
        *self.reader
    }

    /// Read token
    pub fn read(&mut self) -> (r: Result<Token, String>)
        ensures
            final(self).source().chars@ == old(self).source().chars@,
            match read_operator_at(old(self).source().chars@, old(self).source().index as int) {
                Ok((t, e)) => r matches Ok(tok) && tok@ == t && final(self).source().index == e,
                Err(m) => r matches Err(msg) && msg@ == m && final(self).source().index
                    == stop_after_error(old(self).source()@),
            },
    {
        read_operator(self.reader)
    }
}


/// Lexer token reader.
#[derive(Debug, PartialEq)]
pub struct Lexer {
    pub tokens: Vec<Token>,
    pub index: usize,
}

impl View for Lexer {
    type V = Cursor<SpecToken>;

    open spec fn view(&self) -> Cursor<SpecToken> {
        Cursor { items: token_views(self.tokens@), index: self.index as int }
    }
}

/// Moves the buffered chars, if there are any, into a new token of `kind`.
fn emit_buffer(bfr: &mut Vec<char>, tokens: &mut Vec<Token>, kind: Kind)
    ensures
        final(bfr)@ == Seq::<char>::empty(),
        token_views(final(tokens)@) == emit(old(bfr)@, token_views(old(tokens)@), kind),
{
    if bfr.len() > 0 {
        let mut value: Vec<char> = Vec::new();
        std::mem::swap(&mut value, bfr);
        let t = Token { kind, value };
        proof {
            lemma_token_views_push(tokens@, t);
        }
        tokens.push(t);
    }
}

impl Lexer {
    /// With builds with the specified filter.
    pub fn with(filter: String) -> (r: Result<Self, String>)
        ensures
            match lex(filter@) {
                Ok(toks) => r matches Ok(lx) && lx@ == (Cursor { items: toks, index: 0 }),
                Err(m) => r matches Err(e) && e@ == m,
            },
    {
        let mut tokens: Vec<Token> = Vec::new();
        let mut reader = Reader::from(filter.as_str());
        let mut bfr: Vec<char> = Vec::new();
        let ghost s = filter@;
        assert(token_views(tokens@) =~= Seq::<SpecToken>::empty());

        loop
            invariant
                reader.chars@ == s,
                s == filter@,
                reader.index <= s.len(),
                lex(s) == lex_from(s, reader.index as int, bfr@, token_views(tokens@)),
            ensures
                reader.index == s.len(),
                lex(s) == lex_from(s, reader.index as int, bfr@, token_views(tokens@)),
            decreases s.len() - reader.index,
        {
            let ghost i = reader.index as int;
            let ghost toks = token_views(tokens@);
            let ghost buffered = bfr@;
            match reader.next() {
                None => break,
                Some(ch) => {
                    if ch == QUOTE || ch == SQUOTE {
                        reader.put();
                        emit_buffer(&mut bfr, &mut tokens, Kind::Literal);
                        let quoted = match read_quoted(&mut reader) {
                            Ok(t) => t,
                            Err(e) => {
                                return Err(e);
                            },
                        };
                        proof {
                            lemma_token_views_push(tokens@, quoted);
                            lemma_find_close(s, i, i + 2);
                        }
                        tokens.push(quoted);
                    } else if ch == SPACE {
                        emit_buffer(&mut bfr, &mut tokens, Kind::Literal);
                    } else if ch == LPAREN {
                        bfr.push(ch);
                        emit_buffer(&mut bfr, &mut tokens, Kind::Lparen);
                    } else if ch == RPAREN {
                        emit_buffer(&mut bfr, &mut tokens, Kind::Literal);
                        bfr.push(ch);
                        emit_buffer(&mut bfr, &mut tokens, Kind::Rparen);
                        assert(seq![RPAREN] == Seq::<char>::empty().push(RPAREN));
                    } else if is_operator(ch) {
                        reader.put();
                        emit_buffer(&mut bfr, &mut tokens, Kind::Literal);
                        let operator = match read_operator(&mut reader) {
                            Ok(t) => t,
                            Err(e) => {
                                return Err(e);
                            },
                        };
                        proof {
                            lemma_token_views_push(tokens@, operator);
                            lemma_op_run_end(s, i);
                        }
                        tokens.push(operator);
                    } else {
                        bfr.push(ch);
                    }
                },
            }
        }
        assert(lex(s) == Ok::<Seq<SpecToken>, Seq<char>>(emit(bfr@, token_views(tokens@), Kind::Literal)));
        emit_buffer(&mut bfr, &mut tokens, Kind::Literal);
        Ok(Lexer { tokens, index: 0 })
    }

    /// next returns the next token.
    pub fn next(&mut self) -> (r: Option<Token>)
        ensures
            final(self)@ == old(self)@.advanced(),
            match r {
                Some(t) => old(self)@.current() == Some(t@),
                None => old(self)@.current() is None,
            },
    {
        if self.index < self.tokens.len() {
            let token = self.tokens[self.index].clone();
            self.index = self.index + 1;
            Some(token)
        } else {
            None
        }
    }

    /// Put rewinds the lexer by 1 token.
    pub fn put(&mut self)
        ensures
            final(self)@ == old(self)@.rewound(),
    {
        if self.index > 0 {
            self.index = self.index - 1;
        }
    }
}


/// The typed value of a token.
#[derive(Debug, PartialEq)]
pub enum TokenValue {
    String(String),
    Number(usize),
    Bool(bool),
}

/// A token value as a mathematical value.
pub enum SpecTokenValue {
    Text(Seq<char>),
    Number(usize),
    Bool(bool),
}

impl View for TokenValue {
    type V = SpecTokenValue;

    open spec fn view(&self) -> SpecTokenValue {
        match self {
            TokenValue::String(s) => SpecTokenValue::Text(s@),
            TokenValue::Number(n) => SpecTokenValue::Number(*n),
            TokenValue::Bool(b) => SpecTokenValue::Bool(*b),
        }
    }
}

/// The value of a token: a literal that reads as a `usize` is a number, one
/// that reads as `true` or `false` is a boolean, and anything else, quoted
/// strings included, is text.
pub open spec fn value_of(t: SpecToken) -> SpecTokenValue {
    if t.kind == Kind::Literal {
        match usize_from_text(t.value) {
            Some(n) => SpecTokenValue::Number(n),
            None => match bool_from_text(t.value) {
                Some(b) => SpecTokenValue::Bool(b),
                None => SpecTokenValue::Text(t.value),
            },
        }
    } else {
        SpecTokenValue::Text(t.value)
    }
}

impl Token {
    pub fn as_value(&self) -> (r: TokenValue)
        ensures
            r@ == value_of(self@),
    {
        let v = chars_to_string(self.value.as_slice());
        match self.kind {
            Kind::Literal => {
                if let Some(n) = parse_usize(v.as_str()) {
                    TokenValue::Number(n)
                } else if let Some(b) = parse_bool(v.as_str()) {
                    TokenValue::Bool(b)
                } else {
                    TokenValue::String(v)
                }
            },
            _ => TokenValue::String(v),
        }
    }
}


/// Whether a char stands for itself in a literal: no quote, space,
/// parenthesis or operator char.
pub open spec fn is_plain_char(c: char) -> bool {
    c != QUOTE && c != SQUOTE && c != SPACE && c != LPAREN && c != RPAREN && !is_operator_char(c)
}

pub open spec fn all_plain(cs: Seq<char>) -> bool {
    forall|k: int| 0 <= k < cs.len() ==> is_plain_char(#[trigger] cs[k])
}

/// The shape of each kind of token that the lexer produces: a literal is a
/// non-empty run of plain chars, an operator a non-empty run of operator chars,
/// an opening parenthesis token ends in `(` after plain chars, a closing one is
/// exactly `)`; the text of a quoted string may hold any char.
pub open spec fn well_formed_token(t: SpecToken) -> bool {
    match t.kind {
        Kind::Literal => t.value.len() > 0 && all_plain(t.value),
        Kind::String => true,
        Kind::Operator => t.value.len() > 0 && (forall|k: int|
            0 <= k < t.value.len() ==> is_operator_char(#[trigger] t.value[k])),
        Kind::Lparen => t.value.len() > 0 && t.value.last() == LPAREN && all_plain(t.value.drop_last()),
        Kind::Rparen => t.value == seq![RPAREN],
    }
}

pub open spec fn tokens_well_formed(ts: Seq<SpecToken>) -> bool {
    forall|k: int| 0 <= k < ts.len() ==> well_formed_token(#[trigger] ts[k])
}

proof fn lemma_push_well_formed(toks: Seq<SpecToken>, t: SpecToken)
    requires
        tokens_well_formed(toks),
        well_formed_token(t),
    ensures
        tokens_well_formed(toks.push(t)),
{
    assert forall|k: int| 0 <= k < toks.len() + 1 implies well_formed_token(
        #[trigger] toks.push(t)[k],
    ) by {
        if k < toks.len() {
            assert(toks.push(t)[k] == toks[k]);
        }
    }
}

proof fn lemma_emit_well_formed(bfr: Seq<char>, toks: Seq<SpecToken>)
    requires
        tokens_well_formed(toks),
        all_plain(bfr),
    ensures
        tokens_well_formed(emit(bfr, toks, Kind::Literal)),
{
    let r = emit(bfr, toks, Kind::Literal);
    assert forall|k: int| 0 <= k < r.len() implies well_formed_token(#[trigger] r[k]) by {
        if k < toks.len() {
            assert(r[k] == toks[k]);
        }
    }
}

proof fn lemma_lex_from_well_formed(s: Seq<char>, i: int, bfr: Seq<char>, toks: Seq<SpecToken>)
    requires
        tokens_well_formed(toks),
        all_plain(bfr),
    ensures
        lex_from(s, i, bfr, toks) matches Ok(ts) ==> tokens_well_formed(ts),
    decreases s.len() - i,
{
    if 0 <= i < s.len() {
        let ch = s[i];
        let empty = Seq::<char>::empty();
        assert(all_plain(empty));
        lemma_emit_well_formed(bfr, toks);
        let flushed = emit(bfr, toks, Kind::Literal);
        if ch == QUOTE || ch == SQUOTE {
            if let Ok((text, e)) = read_quoted_at(s, i) {
                lemma_find_close(s, i, i + 2);
                let t = SpecToken { kind: Kind::String, value: text };
                lemma_push_well_formed(flushed, t);
                lemma_lex_from_well_formed(s, e, empty, flushed.push(t));
            }
        } else if ch == SPACE {
            lemma_lex_from_well_formed(s, i + 1, empty, flushed);
        } else if ch == LPAREN {
            let t = SpecToken { kind: Kind::Lparen, value: bfr.push(ch) };
            assert(t.value.drop_last() == bfr);
            lemma_push_well_formed(toks, t);
            lemma_lex_from_well_formed(s, i + 1, empty, toks.push(t));
        } else if ch == RPAREN {
            let t = SpecToken { kind: Kind::Rparen, value: seq![RPAREN] };
            lemma_push_well_formed(flushed, t);
            lemma_lex_from_well_formed(s, i + 1, empty, flushed.push(t));
        } else if is_operator_char(ch) {
            lemma_op_run_end(s, i);
            if let Ok((t, e)) = read_operator_at(s, i) {
                assert(well_formed_token(t)) by {
                    assert forall|k: int| 0 <= k < t.value.len() implies is_operator_char(
                        #[trigger] t.value[k],
                    ) by {
                        assert(t.value[k] == s[i + k]);
                    }
                }
                lemma_push_well_formed(flushed, t);
                lemma_lex_from_well_formed(s, e, empty, flushed.push(t));
            }
        } else {
            assert(all_plain(bfr.push(ch))) by {
                assert forall|k: int| 0 <= k < bfr.len() + 1 implies is_plain_char(
                    #[trigger] bfr.push(ch)[k],
                ) by {
                    if k < bfr.len() {
                        assert(bfr.push(ch)[k] == bfr[k]);
                    }
                }
            }
            lemma_lex_from_well_formed(s, i + 1, bfr.push(ch), toks);
        }
    } else {
        lemma_emit_well_formed(bfr, toks);
    }
}

/// Every token that the lexer produces has the shape of its kind.
pub proof fn lemma_lex_well_formed(s: Seq<char>)
    ensures
        lex(s) matches Ok(ts) ==> tokens_well_formed(ts),
{
    let empty_chars = Seq::<char>::empty();
    let empty_toks = Seq::<SpecToken>::empty();
    assert(all_plain(empty_chars));
    assert(tokens_well_formed(empty_toks));
    lemma_lex_from_well_formed(s, 0, empty_chars, empty_toks);
}


proof fn lemma_find_close_at(s: Seq<char>, i: int, j: int, c: int)
    requires
        0 <= j <= c,
        closes_quote(s, i, c),
        forall|k: int| j <= k < c ==> !closes_quote(s, i, k),
    ensures
        find_close(s, i, j) == Some(c),
    decreases c - j,
{
    if j < c {
        lemma_find_close_at(s, i, j + 1, c);
    }
}

proof fn lemma_filter_keeps_all(cs: Seq<char>, q: char)
    requires
        forall|k: int| 0 <= k < cs.len() ==> cs[k] != q,
    ensures
        cs.filter(|ch: char| ch != q) == cs,
    decreases cs.len(),
{
    reveal(Seq::filter);
    if cs.len() > 0 {
        lemma_filter_keeps_all(cs.drop_last(), q);
    }
}

/// A text between two equal quote chars that holds neither that quote char
/// nor ends in the escape char is read as one string token holding exactly that
/// text, whatever operators, spaces or parentheses it contains.
pub proof fn lemma_lex_quoted(q: char, text: Seq<char>)
    requires
        q == QUOTE || q == SQUOTE,
        text.len() > 0,
        forall|k: int| 0 <= k < text.len() ==> text[k] != q,
        text.last() != ESCAPE,
    ensures
        lex(seq![q] + text + seq![q]) == Ok::<Seq<SpecToken>, Seq<char>>(
            seq![SpecToken { kind: Kind::String, value: text }],
        ),
{
    let s = seq![q] + text + seq![q];
    let n = s.len() as int;
    assert(s[0] == q);
    assert(s[n - 1] == q);
    assert(s[n - 2] == text.last());
    assert forall|k: int| 2 <= k < n - 1 implies !closes_quote(s, 0, k) by {
        assert(s[k] == text[k - 1]);
    }
    lemma_find_close_at(s, 0, 2, n - 1);
    assert(s.subrange(1, n - 1) == text);
    lemma_filter_keeps_all(text, q);
    assert((|ch: char| ch != s[0]) =~= (|ch: char| ch != q));
    assert(quoted_text(s, 0, n - 1) == text);
    assert(read_quoted_at(s, 0) == Ok::<(Seq<char>, int), Seq<char>>((text, n)));
    let t = SpecToken { kind: Kind::String, value: text };
    assert(emit(Seq::<char>::empty(), Seq::<SpecToken>::empty(), Kind::Literal).push(t) == seq![t]);
    assert(lex_from(s, n, seq![], seq![t]) == Ok::<Seq<SpecToken>, Seq<char>>(seq![t]));
}


/// Lexing across a run of plain chars only collects them into the unfinished
/// literal.
pub proof fn lemma_lex_plain_run(s: Seq<char>, i: int, j: int, bfr: Seq<char>, toks: Seq<SpecToken>)
    requires
        0 <= i <= j <= s.len(),
        forall|k: int| i <= k < j ==> is_plain_char(#[trigger] s[k]),
    ensures
        lex_from(s, i, bfr, toks) == lex_from(s, j, bfr + s.subrange(i, j), toks),
    decreases j - i,
{
    if i < j {
        lemma_lex_plain_run(s, i + 1, j, bfr.push(s[i]), toks);
        assert(bfr.push(s[i]) + s.subrange(i + 1, j) == bfr + s.subrange(i, j));
    } else {
        assert(bfr + s.subrange(i, j) == bfr);
    }
}

/// A run of operator chars from `i` up to a char that is not one ends there.
pub proof fn lemma_op_run_end_at(s: Seq<char>, i: int, j: int)
    requires
        0 <= i <= j < s.len(),
        forall|k: int| i <= k < j ==> is_operator_char(#[trigger] s[k]),
        !is_operator_char(s[j]),
    ensures
        op_run_end(s, i) == j,
    decreases j - i,
{
    if i < j {
        lemma_op_run_end_at(s, i + 1, j);
    }
}


/// A result with `r` put in front of what it holds, errors unchanged.
pub open spec fn prefixed<T>(r: Seq<T>, res: Result<Seq<T>, Seq<char>>) -> Result<Seq<T>, Seq<char>> {
    match res {
        Ok(x) => Ok(r + x),
        Err(m) => Err(m),
    }
}

proof fn lemma_op_run_end_shift(p: Seq<char>, b: Seq<char>, i: int)
    requires
        0 <= i,
    ensures
        op_run_end(p + b, p.len() + i) == p.len() + op_run_end(b, i),
    decreases b.len() - i,
{
    let s = p + b;
    if i < b.len() {
        assert(s[p.len() + i] == b[i]);
        lemma_op_run_end_shift(p, b, i + 1);
    }
}

proof fn lemma_find_close_shift(p: Seq<char>, b: Seq<char>, i: int, j: int)
    requires
        0 <= i,
        0 <= j,
    ensures
        find_close(p + b, p.len() + i, p.len() + j) == match find_close(b, i, j) {
            Some(c) => Some(p.len() + c),
            None => None::<int>,
        },
    decreases b.len() - j,
{
    let s = p + b;
    let n = p.len() as int;
    if j < b.len() {
        if i + 2 <= j {
            assert(s[n + j] == b[j] && s[n + j - 1] == b[j - 1] && s[n + i] == b[i]);
        }
        assert(closes_quote(s, n + i, n + j) == closes_quote(b, i, j));
        lemma_find_close_shift(p, b, i, j + 1);
    }
}

proof fn lemma_quoted_text_shift(p: Seq<char>, b: Seq<char>, i: int, c: int)
    requires
        0 <= i < c <= b.len(),
    ensures
        quoted_text(p + b, p.len() + i, p.len() + c) == quoted_text(b, i, c),
{
    let s = p + b;
    let n = p.len() as int;
    assert(s.subrange(n + i + 1, n + c) == b.subrange(i + 1, c));
    assert(s[n + i] == b[i]);
    assert((|ch: char| ch != s[n + i]) =~= (|ch: char| ch != b[i]));
}

proof fn lemma_emit_prefixed(r: Seq<SpecToken>, bfr: Seq<char>, toks: Seq<SpecToken>, k: Kind)
    ensures
        emit(bfr, r + toks, k) == r + emit(bfr, toks, k),
{
    if bfr.len() > 0 {
        assert((r + toks).push(SpecToken { kind: k, value: bfr }) == r + toks.push(
            SpecToken { kind: k, value: bfr },
        ));
    }
}

proof fn lemma_push_prefixed(r: Seq<SpecToken>, toks: Seq<SpecToken>, t: SpecToken)
    ensures
        (r + toks).push(t) == r + toks.push(t),
{
    assert((r + toks).push(t) == r + toks.push(t));
}

/// Lexing the text after a prefix `p` from its position `j` on gives what lexing
/// that text alone gives, after the tokens `r` already read.
pub proof fn lemma_lex_from_shift(
    p: Seq<char>,
    b: Seq<char>,
    j: int,
    bfr: Seq<char>,
    r: Seq<SpecToken>,
    toks: Seq<SpecToken>,
)
    requires
        0 <= j,
    ensures
        lex_from(p + b, p.len() + j, bfr, r + toks) == prefixed(r, lex_from(b, j, bfr, toks)),
    decreases b.len() - j,
{
    let s = p + b;
    let n = p.len() as int;
    let empty = Seq::<char>::empty();
    lemma_emit_prefixed(r, bfr, toks, Kind::Literal);
    let flushed = emit(bfr, toks, Kind::Literal);
    if j < b.len() {
        let ch = b[j];
        assert(s[n + j] == ch);
        if ch == QUOTE || ch == SQUOTE {
            lemma_find_close_shift(p, b, j, j + 2);
            lemma_find_close(b, j, j + 2);
            if let Some(c) = find_close(b, j, j + 2) {
                lemma_quoted_text_shift(p, b, j, c);
                let t = SpecToken { kind: Kind::String, value: quoted_text(b, j, c) };
                lemma_push_prefixed(r, flushed, t);
                lemma_lex_from_shift(p, b, c + 1, empty, r, flushed.push(t));
            }
        } else if ch == SPACE {
            lemma_lex_from_shift(p, b, j + 1, empty, r, flushed);
        } else if ch == LPAREN {
            lemma_emit_prefixed(r, bfr.push(ch), toks, Kind::Lparen);
            lemma_lex_from_shift(p, b, j + 1, empty, r, emit(bfr.push(ch), toks, Kind::Lparen));
        } else if ch == RPAREN {
            let t = SpecToken { kind: Kind::Rparen, value: seq![RPAREN] };
            lemma_push_prefixed(r, flushed, t);
            lemma_lex_from_shift(p, b, j + 1, empty, r, flushed.push(t));
        } else if is_operator_char(ch) {
            lemma_op_run_end_shift(p, b, j);
            lemma_op_run_end(b, j);
            let e = op_run_end(b, j);
            if e < b.len() {
                assert(s.subrange(n + j, n + e) == b.subrange(j, e));
                let t = SpecToken { kind: Kind::Operator, value: b.subrange(j, e) };
                lemma_push_prefixed(r, flushed, t);
                lemma_lex_from_shift(p, b, e, empty, r, flushed.push(t));
            }
        } else {
            lemma_lex_from_shift(p, b, j + 1, bfr.push(ch), r, toks);
        }
    }
}

/// Whether a char ends an unfinished literal without joining it: a quote, a
/// space, a closing parenthesis or an operator char.
pub open spec fn ends_literal(c: char) -> bool {
    c == QUOTE || c == SQUOTE || c == SPACE || c == RPAREN || is_operator_char(c)
}

proof fn lemma_lex_from_boundary(s: Seq<char>, k: int, bfr: Seq<char>, toks: Seq<SpecToken>)
    requires
        0 <= k < s.len(),
        ends_literal(s[k]),
    ensures
        lex_from(s, k, bfr, toks) == lex_from(s, k, seq![], emit(bfr, toks, Kind::Literal)),
{
    let empty = Seq::<char>::empty();
    assert(emit(empty, emit(bfr, toks, Kind::Literal), Kind::Literal) == emit(bfr, toks, Kind::Literal));
}

proof fn lemma_op_run_end_prefix(a: Seq<char>, c: Seq<char>, i: int)
    requires
        0 <= i,
        op_run_end(a, i) < a.len(),
    ensures
        op_run_end(a + c, i) == op_run_end(a, i),
    decreases a.len() - i,
{
    if i < a.len() {
        assert((a + c)[i] == a[i]);
        if is_operator_char(a[i]) {
            lemma_op_run_end_prefix(a, c, i + 1);
        }
    }
}

proof fn lemma_find_close_prefix(a: Seq<char>, c: Seq<char>, i: int, j: int)
    requires
        0 <= j,
        find_close(a, i, j) is Some,
    ensures
        find_close(a + c, i, j) == find_close(a, i, j),
    decreases a.len() - j,
{
    let s = a + c;
    if j < a.len() {
        if 0 <= i && i + 2 <= j {
            assert(s[j] == a[j] && s[j - 1] == a[j - 1] && s[i] == a[i]);
        }
        assert(closes_quote(s, i, j) == closes_quote(a, i, j));
        if !closes_quote(a, i, j) {
            lemma_find_close_prefix(a, c, i, j + 1);
        }
    }
}

/// Lexing a text followed by more text that starts with a char that ends a
/// literal: once the first text is lexed without error, the rest starts from
/// the tokens of the first text with nothing buffered.
pub proof fn lemma_lex_from_prefix(
    a: Seq<char>,
    c: Seq<char>,
    i: int,
    bfr: Seq<char>,
    toks: Seq<SpecToken>,
)
    requires
        0 <= i <= a.len(),
        c.len() > 0,
        ends_literal(c[0]),
    ensures
        lex_from(a, i, bfr, toks) matches Ok(r) ==> lex_from(a + c, i, bfr, toks) == lex_from(
            a + c,
            a.len() as int,
            seq![],
            r,
        ),
    decreases a.len() - i,
{
    let s = a + c;
    let empty = Seq::<char>::empty();
    let flushed = emit(bfr, toks, Kind::Literal);
    if i < a.len() {
        let ch = a[i];
        assert(s[i] == ch);
        if ch == QUOTE || ch == SQUOTE {
            lemma_find_close(a, i, i + 2);
            if let Some(cl) = find_close(a, i, i + 2) {
                lemma_find_close_prefix(a, c, i, i + 2);
                assert(s.subrange(i + 1, cl) == a.subrange(i + 1, cl));
                assert(quoted_text(s, i, cl) == quoted_text(a, i, cl));
                let t = SpecToken { kind: Kind::String, value: quoted_text(a, i, cl) };
                lemma_lex_from_prefix(a, c, cl + 1, empty, flushed.push(t));
            }
        } else if ch == SPACE {
            lemma_lex_from_prefix(a, c, i + 1, empty, flushed);
        } else if ch == LPAREN {
            lemma_lex_from_prefix(a, c, i + 1, empty, emit(bfr.push(ch), toks, Kind::Lparen));
        } else if ch == RPAREN {
            let t = SpecToken { kind: Kind::Rparen, value: seq![RPAREN] };
            lemma_lex_from_prefix(a, c, i + 1, empty, flushed.push(t));
        } else if is_operator_char(ch) {
            lemma_op_run_end(a, i);
            let e = op_run_end(a, i);
            if e < a.len() {
                lemma_op_run_end_prefix(a, c, i);
                assert(s.subrange(i, e) == a.subrange(i, e));
                let t = SpecToken { kind: Kind::Operator, value: a.subrange(i, e) };
                lemma_lex_from_prefix(a, c, e, empty, flushed.push(t));
            }
        } else {
            lemma_lex_from_prefix(a, c, i + 1, bfr.push(ch), toks);
        }
    } else {
        assert(s[a.len() as int] == c[0]);
        lemma_lex_from_boundary(s, a.len() as int, bfr, toks);
    }
}

/// Two texts joined by something that starts with a char ending a literal
/// lex to the tokens of the first, then those of the second: the second
/// text's errors are the joined text's errors.
pub proof fn lemma_lex_concat(a: Seq<char>, c: Seq<char>)
    requires
        c.len() > 0,
        ends_literal(c[0]),
        lex(a) is Ok,
    ensures
        lex(a + c) == prefixed(lex(a)->Ok_0, lex(c)),
{
    let r = lex(a)->Ok_0;
    lemma_lex_from_prefix(a, c, 0, seq![], seq![]);
    lemma_lex_from_shift(a, c, 0, seq![], r, seq![]);
    assert(r + Seq::<SpecToken>::empty() == r);
    assert(a.len() + 0 == a.len());
}

/// Two texts that lex without error, joined by a space, lex to the tokens of
/// the first followed by those of the second.
pub proof fn lemma_lex_space_joined(a: Seq<char>, b: Seq<char>)
    requires
        lex(a) is Ok,
        lex(b) is Ok,
    ensures
        lex(a + seq![SPACE] + b) == Ok::<Seq<SpecToken>, Seq<char>>(lex(a)->Ok_0 + lex(b)->Ok_0),
{
    let c = seq![SPACE] + b;
    assert(c[0] == SPACE);
    lemma_lex_concat(a, c);
    let empty = Seq::<SpecToken>::empty();
    assert(emit(Seq::<char>::empty(), empty, Kind::Literal) == empty);
    assert(lex(c) == lex_from(c, 1, seq![], empty));
    lemma_lex_from_shift(seq![SPACE], b, 0, seq![], empty, empty);
    assert(empty + empty == empty);
    assert(empty + lex(b)->Ok_0 == lex(b)->Ok_0);
    assert(a + c == a + seq![SPACE] + b);
}


/// Whether a char is an ASCII letter or digit.
pub open spec fn is_word_char(c: char) -> bool {
    (48 <= (c as u32) <= 57) || (65 <= (c as u32) <= 90) || (97 <= (c as u32) <= 122)
}

/// A non-empty run of ASCII letters and digits.
pub open spec fn is_word(s: Seq<char>) -> bool {
    s.len() > 0 && forall|k: int| 0 <= k < s.len() ==> is_word_char(#[trigger] s[k])
}

/// The eight chars of the filter language's operators, written out.
pub open spec fn is_filter_operator(c: char) -> bool {
    c == ':' || c == ',' || c == '|' || c == '=' || c == '~' || c == '!' || c == '<' || c == '>'
}

pub proof fn lemma_word_plain(s: Seq<char>)
    requires
        is_word(s),
    ensures
        all_plain(s),
        !is_operator_char(s[0]),
{
    assert forall|k: int| 0 <= k < s.len() implies is_plain_char(#[trigger] s[k]) by {
        assert(is_word_char(s[k]));
    }
    assert(is_word_char(s[0]));
}

/// Lexing a word, one operator char and a word gives exactly the two words
/// as literals around a one-char operator token, for each of `:` `,` `|` `=`
/// `~` `!` `<` `>`.
pub proof fn lemma_lex_word_operator_word(a: Seq<char>, c: char, b: Seq<char>)
    requires
        is_word(a),
        is_word(b),
        is_filter_operator(c),
    ensures
        lex(a + seq![c] + b) == Ok::<Seq<SpecToken>, Seq<char>>(
            seq![
                SpecToken { kind: Kind::Literal, value: a },
                SpecToken { kind: Kind::Operator, value: seq![c] },
                SpecToken { kind: Kind::Literal, value: b },
            ],
        ),
{
    lemma_word_plain(a);
    lemma_word_plain(b);
    let s = a + seq![c] + b;
    let m: int = a.len() as int;
    let n: int = s.len() as int;
    assert forall|k: int| 0 <= k < m implies is_plain_char(#[trigger] s[k]) by {
        assert(s[k] == a[k]);
    }
    assert forall|k: int| m + 1 <= k < n implies is_plain_char(#[trigger] s[k]) by {
        assert(s[k] == b[k - m - 1]);
    }
    assert(s[m] == c);
    assert(is_operator_char(c));
    assert(s[m + 1] == b[0]);
    assert(s.subrange(0, m) == a);
    assert(s.subrange(m, m + 1) == seq![c]);
    assert(s.subrange(m + 1, n) == b);
    let empty = Seq::<char>::empty();
    let ta = SpecToken { kind: Kind::Literal, value: a };
    let tc = SpecToken { kind: Kind::Operator, value: seq![c] };
    let tb = SpecToken { kind: Kind::Literal, value: b };
    lemma_lex_plain_run(s, 0, m, empty, seq![]);
    assert(empty + a == a);
    lemma_op_run_end_at(s, m, m + 1);
    assert(read_operator_at(s, m) == Ok::<(SpecToken, int), Seq<char>>((tc, m + 1)));
    assert(emit(a, seq![], Kind::Literal).push(tc) == seq![ta, tc]);
    assert(lex_from(s, m, a, seq![]) == lex_from(s, m + 1, empty, seq![ta, tc]));
    lemma_lex_plain_run(s, m + 1, n, empty, seq![ta, tc]);
    assert(empty + b == b);
    assert(emit(b, seq![ta, tc], Kind::Literal) == seq![ta, tc, tb]);
}


/// What a token's value is: quoted strings, operators and parentheses are
/// always text; a literal of decimal digits that fits in `usize` is that
/// number; the literals `true` and `false` are booleans.
pub proof fn lemma_token_value_kinds(t: SpecToken)
    ensures
        t.kind != Kind::Literal ==> value_of(t) == SpecTokenValue::Text(t.value),
        t.kind == Kind::Literal && crate::text::all_digits(t.value) && crate::text::digits_value(
            t.value,
        ) <= usize::MAX ==> value_of(t) == SpecTokenValue::Number(
            crate::text::digits_value(t.value) as usize,
        ),
        t.kind == Kind::Literal && t.value == seq!['t', 'r', 'u', 'e'] ==> value_of(t)
            == SpecTokenValue::Bool(true),
        t.kind == Kind::Literal && t.value == seq!['f', 'a', 'l', 's', 'e'] ==> value_of(t)
            == SpecTokenValue::Bool(false),
{
    reveal_strlit("true");
    reveal_strlit("false");
    if t.kind == Kind::Literal && crate::text::all_digits(t.value) {
        assert(t.value.len() == 0 || t.value[0] != '+') by {
            if t.value.len() > 0 {
                assert(crate::text::is_digit(t.value[0]));
            }
        }
    }
    if t.kind == Kind::Literal && t.value == seq!['t', 'r', 'u', 'e'] {
        assert(!crate::text::is_digit(t.value[0]));
        assert(t.value =~= "true"@);
    }
    if t.kind == Kind::Literal && t.value == seq!['f', 'a', 'l', 's', 'e'] {
        assert(!crate::text::is_digit(t.value[0]));
        assert(t.value =~= "false"@);
    }
}

} // verus!
