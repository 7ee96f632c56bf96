use crate::error::{Error, ErrorView};
use crate::tokenizer::{decimal_value, tokens_of, tokens_view, Token, TokenKind, TokenView, Tokenizer};
use vstd::prelude::*;

verus! {

// ---------------------------------------------------------------------------
// Values and their model
// ---------------------------------------------------------------------------

/// A JSON value as a mathematical object.
pub enum JsonView {
    Null,
    Bool(bool),
    Number(nat),
    Str(Seq<char>),
    Array(Seq<JsonView>),
    Object(Map<Seq<char>, JsonView>),
}

/// A parsed JSON value.
#[derive(Debug, PartialEq)]
pub enum Json {
    Null,
    Bool(bool),
    Number(crate::tokenizer::Number),
    String(String),
    Array(Vec<Json>),
    Object(Object),
}

/// The members of a JSON object: each key at most once.
#[derive(Debug, PartialEq)]
pub struct Object {
    entries: Vec<(String, Json)>,
}

/// What a sequence of values is, value by value.
pub open spec fn items_view(items: Seq<Json>) -> Seq<JsonView>
    decreases items,
{
    if items.len() == 0 {
        Seq::empty()
    } else {
        items_view(items.subrange(0, items.len() - 1)).push(json_view(items[items.len() - 1]))
    }
}

/// The mapping that a sequence of members denotes: a later member of a key
/// overrides an earlier one.
pub open spec fn entries_view(es: Seq<(String, Json)>) -> Map<Seq<char>, JsonView>
    decreases es,
{
    if es.len() == 0 {
        Map::empty()
    } else {
        let last = es[es.len() - 1];
        entries_view(es.subrange(0, es.len() - 1)).insert(last.0@, json_view(last.1))
    }
}

/// What a value is, as a mathematical object.
pub open spec fn json_view(j: Json) -> JsonView
    decreases j,
{
    match j {
        Json::Null => JsonView::Null,
        Json::Bool(b) => JsonView::Bool(b),
        Json::Number(n) => JsonView::Number(n.value()),
        Json::String(s) => JsonView::Str(s@),
        Json::Array(v) => JsonView::Array(items_view(v@)),
        Json::Object(o) => JsonView::Object(o@),
    }
}

impl View for Json {
    type V = JsonView;

    open spec fn view(&self) -> JsonView {
        json_view(*self)
    }
}

impl View for Object {
    type V = Map<Seq<char>, JsonView>;

    closed spec fn view(&self) -> Map<Seq<char>, JsonView>
        decreases self,
    {
        entries_view(self.entries@)
    }
}

proof fn lemma_items_view_push(items: Seq<Json>, j: Json)
    ensures
        items_view(items.push(j)) == items_view(items).push(j@),
{
    assert(items.push(j).subrange(0, items.len() as int) == items);
}

/// Replacing the last member of a key changes only that key.
proof fn lemma_entries_view_update(es: Seq<(String, Json)>, i: int, key: String, value: Json)
    requires
        0 <= i < es.len(),
        es[i].0@ == key@,
        forall|k: int| i < k < es.len() ==> (#[trigger] es[k]).0@ != key@,
    ensures
        entries_view(es.update(i, (key, value))) == entries_view(es).insert(key@, value@),
    decreases es.len(),
{
    let n = es.len() - 1;
    let es2 = es.update(i, (key, value));
    if i == n {
        assert(es2.subrange(0, n) == es.subrange(0, n));
        assert(entries_view(es2) =~= entries_view(es).insert(key@, value@));
    } else {
        let pre = es.subrange(0, n);
        assert(es2.subrange(0, n) == pre.update(i, (key, value)));
        lemma_entries_view_update(pre, i, key, value);
        assert(es[n].0@ != key@);
        assert(entries_view(es2) =~= entries_view(es).insert(key@, value@));
    }
}

impl Object {
    pub fn new() -> (r: Object)
        ensures
            r@ == Map::<Seq<char>, JsonView>::empty(),
    {
        Object { entries: Vec::new() }
    }

    /// Sets `key` to `value`, replacing any value it had.
    pub fn insert(&mut self, key: String, value: Json)
        ensures
            final(self)@ == old(self)@.insert(key@, value@),
    {
        let mut i: usize = self.entries.len();
        while i > 0
            invariant
                i <= self.entries.len(),
                self.entries == old(self).entries,
                forall|k: int| i <= k < self.entries.len() ==> (#[trigger] self.entries@[k]).0@ != key@,
            decreases i,
        {
            if self.entries[i - 1].0 == key {
                proof {
                    lemma_entries_view_update(self.entries@, i - 1, key, value);
                }
                self.entries.set(i - 1, (key, value));
                return;
            }
            i = i - 1;
        }
        let ghost es = self.entries@;
        self.entries.push((key, value));
        assert(self.entries@.subrange(0, es.len() as int) == es);
    }

    /// The value of `key`, if it has one.
    pub fn get(&self, key: &str) -> (r: Option<&Json>)
        ensures
            self@.contains_key(key@) ==> (r matches Some(j) && j@ == self@[key@]),
            !self@.contains_key(key@) ==> r is None,
    {
        let wanted = String::from_str(key);
        let mut i: usize = self.entries.len();
        assert(self.entries@.subrange(0, i as int) == self.entries@);
        while i > 0
            invariant
                wanted@ == key@,
                i <= self.entries.len(),
                entries_view(self.entries@.subrange(0, i as int)).contains_key(key@)
                    == self@.contains_key(key@),
                entries_view(self.entries@.subrange(0, i as int)).contains_key(key@) ==> entries_view(
                    self.entries@.subrange(0, i as int),
                )[key@] == self@[key@],
            decreases i,
        {
            let ghost pre = self.entries@.subrange(0, i as int);
            assert(pre.subrange(0, i - 1) == self.entries@.subrange(0, i - 1));
            assert(pre[i - 1] == self.entries@[i - 1]);
            if self.entries[i - 1].0 == wanted {
                return Some(&self.entries[i - 1].1);
            }
            i = i - 1;
        }
        None
    }
}

// ---------------------------------------------------------------------------
// Errors
// ---------------------------------------------------------------------------

/// A syntax error in a token sequence.
#[derive(Debug, Clone, Copy, PartialEq, Eq, Structural)]
pub enum ParseError {
    /// No value can start here: the tokens ran out, or the next one opens none.
    UnexpectedToken,
    /// A token of the given kind was required.
    Token(TokenKind),
    /// An object member does not start with a string key.
    KeyExpected,
    /// The tokens ran out inside an array.
    UnterminatedArray,
    /// The tokens ran out inside an object.
    UnterminatedObject,
}

// ---------------------------------------------------------------------------
// The grammar
// ---------------------------------------------------------------------------

/// The value at the front of `t`, and the tokens after it.
pub open spec fn parse_value(t: Seq<TokenView>) -> Result<(JsonView, Seq<TokenView>), ParseError>
    decreases t.len(), 0nat,
{
    if t.len() == 0 {
        Err(ParseError::UnexpectedToken)
    } else {
        let rest = t.drop_first();
        match t[0] {
            TokenView::Null => Ok((JsonView::Null, rest)),
            TokenView::Bool(b) => Ok((JsonView::Bool(b), rest)),
            TokenView::Num(d) => Ok((JsonView::Number(decimal_value(d)), rest)),
            TokenView::Str(s) => Ok((JsonView::Str(s), rest)),
            TokenView::SquareOpen => array_items(rest, true, Seq::empty()),
            TokenView::CurlyOpen => object_members(rest, true, Map::empty()),
            _ => Err(ParseError::UnexpectedToken),
        }
    }
}

/// The rest of an array whose items so far are `acc`; `first` holds where no
/// item has been read yet, the one place where the closer may come.
pub open spec fn array_items(t: Seq<TokenView>, first: bool, acc: Seq<JsonView>) -> Result<
    (JsonView, Seq<TokenView>),
    ParseError,
>
    decreases t.len(), 1nat,
{
    if t.len() == 0 {
        Err(ParseError::UnterminatedArray)
    } else if first && t[0] == TokenView::SquareClose {
        Ok((JsonView::Array(acc), t.drop_first()))
    } else {
        match parse_value(t) {
            Err(e) => Err(e),
            Ok((v, rest)) => {
                // A value spans at least one token; this keeps the recursion well-founded.
                if rest.len() >= t.len() {
                    Err(ParseError::UnexpectedToken)
                } else if rest.len() == 0 {
                    Err(ParseError::UnterminatedArray)
                } else if rest[0] == TokenView::SquareClose {
                    Ok((JsonView::Array(acc.push(v)), rest.drop_first()))
                } else if rest[0] == TokenView::Coma {
                    array_items(rest.drop_first(), false, acc.push(v))
                } else {
                    Err(ParseError::Token(TokenKind::Coma))
                }
            },
        }
    }
}

/// The rest of an object whose members so far are `acc`; `first` holds where
/// no member has been read yet, the one place where the closer may come.
pub open spec fn object_members(
    t: Seq<TokenView>,
    first: bool,
    acc: Map<Seq<char>, JsonView>,
) -> Result<(JsonView, Seq<TokenView>), ParseError>
    decreases t.len(), 1nat,
{
    if t.len() == 0 {
        Err(ParseError::UnterminatedObject)
    } else if first && t[0] == TokenView::CurlyClose {
        Ok((JsonView::Object(acc), t.drop_first()))
    } else if !(t[0] is Str) {
        Err(ParseError::KeyExpected)
    } else if t.len() < 2 {
        Err(ParseError::UnterminatedObject)
    } else if t[1] != TokenView::Colon {
        Err(ParseError::Token(TokenKind::Colon))
    } else if t.len() < 3 {
        Err(ParseError::UnterminatedObject)
    } else {
        let key = t[0]->Str_0;
        let after = t.subrange(2, t.len() as int);
        match parse_value(after) {
            Err(e) => Err(e),
            Ok((v, rest)) => {
                // A value spans at least one token; this keeps the recursion well-founded.
                if rest.len() >= after.len() {
                    Err(ParseError::UnexpectedToken)
                } else if rest.len() == 0 {
                    Err(ParseError::UnterminatedObject)
                } else if rest[0] == TokenView::CurlyClose {
                    Ok((JsonView::Object(acc.insert(key, v)), rest.drop_first()))
                } else if rest[0] == TokenView::Coma {
                    object_members(rest.drop_first(), false, acc.insert(key, v))
                } else {
                    Err(ParseError::Token(TokenKind::Coma))
                }
            },
        }
    }
}

/// What parsing a whole text gives: its first value, or the first error.
pub open spec fn document(s: Seq<char>) -> Result<JsonView, ErrorView> {
    match tokens_of(s) {
        Err(e) => Err(ErrorView::Tokenize(e)),
        Ok(t) => match parse_value(t) {
            Ok((v, _)) => Ok(v),
            Err(e) => Err(ErrorView::Parse(e)),
        },
    }
}

// ---------------------------------------------------------------------------
// The token cursor
// ---------------------------------------------------------------------------

/// A cursor over a token sequence, with one token of lookahead.
pub struct TokenStream {
    // The tokens still to come, the next one last.
    pending: Vec<Token>,
}

impl TokenStream {
    /// The tokens still to come, in order.
    pub closed spec fn rest(&self) -> Seq<TokenView> {
        Seq::new(self.pending.len() as nat, |i: int| self.pending@[self.pending.len() - 1 - i]@)
    }

    pub fn new(tokens: Vec<Token>) -> (r: TokenStream)
        ensures
            r.rest() == tokens_view(tokens@),
    {
        let mut tokens = tokens;
        let ghost all = tokens@;
        let mut pending: Vec<Token> = Vec::new();
        while tokens.len() > 0
            invariant
                tokens.len() + pending.len() == all.len(),
                tokens@ == all.subrange(0, tokens.len() as int),
                forall|k: int|
                    0 <= k < pending.len() ==> #[trigger] pending@[k] == all[all.len() - 1 - k],
            decreases tokens.len(),
        {
            let t = tokens.pop().unwrap();
            pending.push(t);
        }
        let r = TokenStream { pending };
        assert(r.rest() =~= tokens_view(all));
        r
    }

    pub fn peek(&self) -> (r: Option<&Token>)
        ensures
            self.rest().len() == 0 ==> r is None,
            self.rest().len() > 0 ==> (r matches Some(t) && t@ == self.rest()[0]),
    {
        if self.pending.len() > 0 {
            Some(&self.pending[self.pending.len() - 1])
        } else {
            None
        }
    }

    pub fn peek_kind(&self) -> (r: Option<TokenKind>)
        ensures
            self.rest().len() == 0 ==> r is None,
            self.rest().len() > 0 ==> r == Some(self.rest()[0].kind()),
    {
        match self.peek() {
            Some(t) => Some(t.kind()),
            None => None,
        }
    }

    pub fn next(&mut self) -> (r: Option<Token>)
        ensures
            old(self).rest().len() == 0 ==> r is None && final(self).rest() == old(self).rest(),
            old(self).rest().len() > 0 ==> (r matches Some(t) && t@ == old(self).rest()[0]
                && final(self).rest() == old(self).rest().drop_first()),
    {
        if self.pending.len() == 0 {
            return None;
        }
        let r = self.pending.pop();
        assert(self.rest() =~= old(self).rest().drop_first());
        r
    }
}

// ---------------------------------------------------------------------------
// The parser
// ---------------------------------------------------------------------------

/// Consumes the next token, which must be of kind `kind`.
fn skip_token(ts: &mut TokenStream, kind: TokenKind) -> (r: Result<(), ParseError>)
    ensures
        old(ts).rest().len() > 0 ==> final(ts).rest() == old(ts).rest().drop_first(),
        r is Ok <==> (old(ts).rest().len() > 0 && old(ts).rest()[0].kind() == kind),
        r is Err ==> r == Err::<(), ParseError>(ParseError::Token(kind)),
{
    match ts.next() {
        Some(t) => {
            if t.kind() == kind {
                Ok(())
            } else {
                Err(ParseError::Token(kind))
            }
        },
        None => Err(ParseError::Token(kind)),
    }
}

/// Reads a `null` token.
pub fn parse_null(ts: &mut TokenStream) -> (r: Result<Json, ParseError>)
    ensures
        old(ts).rest().len() > 0 && old(ts).rest()[0] == TokenView::Null ==> (r matches Ok(j)
            && j@ == JsonView::Null && final(ts).rest() == old(ts).rest().drop_first()),
        !(old(ts).rest().len() > 0 && old(ts).rest()[0] == TokenView::Null) ==> r == Err::<
            Json,
            ParseError,
        >(ParseError::Token(TokenKind::Null)),
{
    match ts.next() {
        Some(Token::NullValue) => Ok(Json::Null),
        _ => Err(ParseError::Token(TokenKind::Null)),
    }
}

/// Reads a boolean token.
pub fn parse_bool(ts: &mut TokenStream) -> (r: Result<Json, ParseError>)
    ensures
        old(ts).rest().len() > 0 && old(ts).rest()[0] is Bool ==> (r matches Ok(j) && j@
            == JsonView::Bool(old(ts).rest()[0]->Bool_0) && final(ts).rest() == old(
            ts,
        ).rest().drop_first()),
        !(old(ts).rest().len() > 0 && old(ts).rest()[0] is Bool) ==> r == Err::<
            Json,
            ParseError,
        >(ParseError::Token(TokenKind::Bool)),
{
    match ts.next() {
        Some(Token::BoolValue(b)) => Ok(Json::Bool(b)),
        _ => Err(ParseError::Token(TokenKind::Bool)),
    }
}

/// Reads a number token.
pub fn parse_number(ts: &mut TokenStream) -> (r: Result<Json, ParseError>)
    ensures
        old(ts).rest().len() > 0 && old(ts).rest()[0] is Num ==> (r matches Ok(j) && j@
            == JsonView::Number(decimal_value(old(ts).rest()[0]->Num_0)) && final(ts).rest()
            == old(ts).rest().drop_first()),
        !(old(ts).rest().len() > 0 && old(ts).rest()[0] is Num) ==> r == Err::<
            Json,
            ParseError,
        >(ParseError::Token(TokenKind::Number)),
{
    match ts.next() {
        Some(Token::NumberValue(n)) => Ok(Json::Number(n)),
        _ => Err(ParseError::Token(TokenKind::Number)),
    }
}

/// Reads a string token.
pub fn parse_string(ts: &mut TokenStream) -> (r: Result<Json, ParseError>)
    ensures
        old(ts).rest().len() > 0 && old(ts).rest()[0] is Str ==> (r matches Ok(Json::String(s))
            && s@ == old(ts).rest()[0]->Str_0 && final(ts).rest() == old(ts).rest().drop_first()),
        !(old(ts).rest().len() > 0 && old(ts).rest()[0] is Str) ==> r == Err::<
            Json,
            ParseError,
        >(ParseError::Token(TokenKind::String)),
{
    match ts.next() {
        Some(Token::StringValue(s)) => Ok(Json::String(s)),
        _ => Err(ParseError::Token(TokenKind::String)),
    }
}

/// Reads an array: `[`, then items separated by commas, then `]`.
fn parse_array(ts: &mut TokenStream) -> (r: Result<Json, ParseError>)
    ensures
        old(ts).rest().len() > 0 && old(ts).rest()[0] == TokenView::SquareOpen ==> match array_items(
            old(ts).rest().drop_first(),
            true,
            Seq::empty(),
        ) {
            Ok((v, rest)) => r matches Ok(j) && j@ == v && final(ts).rest() == rest,
            Err(e) => r == Err::<Json, ParseError>(e),
        },
        !(old(ts).rest().len() > 0 && old(ts).rest()[0] == TokenView::SquareOpen) ==> r == Err::<
            Json,
            ParseError,
        >(ParseError::Token(TokenKind::SquareOpen)),
        r is Ok ==> final(ts).rest().len() < old(ts).rest().len(),
    decreases old(ts).rest().len(), 0nat,
{
    let ghost t0 = ts.rest().drop_first();
    let ghost n0 = ts.rest().len();
    match skip_token(ts, TokenKind::SquareOpen) {
        Ok(()) => {},
        Err(e) => {
            return Err(e);
        },
    }
    let mut items: Vec<Json> = Vec::new();
    let mut first = true;
    loop
        invariant
            array_items(t0, true, Seq::empty()) == array_items(
                ts.rest(),
                first,
                items_view(items@),
            ),
            ts.rest().len() < n0,
            n0 == old(ts).rest().len(),
            old(ts).rest().len() > 0,
            old(ts).rest()[0] == TokenView::SquareOpen,
            t0 == old(ts).rest().drop_first(),
        decreases ts.rest().len(),
    {
        match ts.peek_kind() {
            None => {
                return Err(ParseError::UnterminatedArray);
            },
            Some(k) => {
                if first && k == TokenKind::SquareClose {
                    ts.next();
                    return Ok(Json::Array(items));
                }
            },
        }
        let item = match parse_item(ts) {
            Ok(j) => j,
            Err(e) => {
                return Err(e);
            },
        };
        proof {
            lemma_items_view_push(items@, item);
        }
        items.push(item);
        match ts.peek_kind() {
            None => {
                return Err(ParseError::UnterminatedArray);
            },
            Some(k) => {
                if k == TokenKind::SquareClose {
                    ts.next();
                    return Ok(Json::Array(items));
                } else if k != TokenKind::Coma {
                    return Err(ParseError::Token(TokenKind::Coma));
                }
            },
        }
        ts.next();
        first = false;
    }
}

/// Reads an object: `{`, then `key: value` members separated by commas,
/// then `}`. A later member of a key overrides an earlier one.
fn parse_object(ts: &mut TokenStream) -> (r: Result<Json, ParseError>)
    ensures
        old(ts).rest().len() > 0 && old(ts).rest()[0] == TokenView::CurlyOpen ==> match object_members(
            old(ts).rest().drop_first(),
            true,
            Map::empty(),
        ) {
            Ok((v, rest)) => r matches Ok(j) && j@ == v && final(ts).rest() == rest,
            Err(e) => r == Err::<Json, ParseError>(e),
        },
        !(old(ts).rest().len() > 0 && old(ts).rest()[0] == TokenView::CurlyOpen) ==> r == Err::<
            Json,
            ParseError,
        >(ParseError::Token(TokenKind::CurlyOpen)),
        r is Ok ==> final(ts).rest().len() < old(ts).rest().len(),
    decreases old(ts).rest().len(), 0nat,
{
    let ghost t0 = ts.rest().drop_first();
    let ghost n0 = ts.rest().len();
    match skip_token(ts, TokenKind::CurlyOpen) {
        Ok(()) => {},
        Err(e) => {
            return Err(e);
        },
    }
    let mut obj = Object::new();
    let mut first = true;
    loop
        invariant
            object_members(t0, true, Map::empty()) == object_members(ts.rest(), first, obj@),
            ts.rest().len() < n0,
            n0 == old(ts).rest().len(),
            old(ts).rest().len() > 0,
            old(ts).rest()[0] == TokenView::CurlyOpen,
            t0 == old(ts).rest().drop_first(),
        decreases ts.rest().len(),
    {
        let ghost t = ts.rest();
        match ts.peek_kind() {
            None => {
                return Err(ParseError::UnterminatedObject);
            },
            Some(k) => {
                if first && k == TokenKind::CurlyClose {
                    ts.next();
                    return Ok(Json::Object(obj));
                } else if k != TokenKind::String {
                    return Err(ParseError::KeyExpected);
                }
            },
        }
        let key = match parse_string(ts) {
            Ok(Json::String(s)) => s,
            _ => {
                return Err(ParseError::KeyExpected);
            },
        };
        match ts.peek_kind() {
            None => {
                return Err(ParseError::UnterminatedObject);
            },
            Some(k) => {
                if k != TokenKind::Colon {
                    return Err(ParseError::Token(TokenKind::Colon));
                }
            },
        }
        ts.next();
        assert(ts.rest() == t.subrange(2, t.len() as int));
        match ts.peek_kind() {
            None => {
                return Err(ParseError::UnterminatedObject);
            },
            Some(_) => {},
        }
        let value = match parse_item(ts) {
            Ok(j) => j,
            Err(e) => {
                return Err(e);
            },
        };
        obj.insert(key, value);
        match ts.peek_kind() {
            None => {
                return Err(ParseError::UnterminatedObject);
            },
            Some(k) => {
                if k == TokenKind::CurlyClose {
                    ts.next();
                    return Ok(Json::Object(obj));
                } else if k != TokenKind::Coma {
                    return Err(ParseError::Token(TokenKind::Coma));
                }
            },
        }
        ts.next();
        first = false;
    }
}

/// Reads one value, choosing the reader by the next token.
pub fn parse_item(ts: &mut TokenStream) -> (r: Result<Json, ParseError>)
    ensures
        match parse_value(old(ts).rest()) {
            Ok((v, rest)) => r matches Ok(j) && j@ == v && final(ts).rest() == rest,
            Err(e) => r == Err::<Json, ParseError>(e),
        },
        r is Ok ==> final(ts).rest().len() < old(ts).rest().len(),
    decreases old(ts).rest().len(), 1nat,
{
    match ts.peek_kind() {
        Some(TokenKind::Null) => parse_null(ts),
        Some(TokenKind::Bool) => parse_bool(ts),
        Some(TokenKind::Number) => parse_number(ts),
        Some(TokenKind::String) => parse_string(ts),
        Some(TokenKind::SquareOpen) => parse_array(ts),
        Some(TokenKind::CurlyOpen) => parse_object(ts),
        _ => Err(ParseError::UnexpectedToken),
    }
}

/// Parses a whole text: its tokens, then the value they start with.
pub fn parse(s: &str) -> (r: Result<Json, Error>)
    ensures
        match document(s@) {
            Ok(v) => r matches Ok(j) && j@ == v,
            Err(e) => r matches Err(err) && err@ == e,
        },
{
    let mut tokenizer = Tokenizer::new(s);
    let tokens = match tokenizer.tokenize() {
        Ok(tokens) => tokens,
        Err(e) => {
            return Err(Error::Tokenize(e));
        },
    };
    let mut ts = TokenStream::new(tokens);
    match parse_item(&mut ts) {
        Ok(j) => Ok(j),
        Err(e) => Err(Error::Parse(e)),
    }
}

} // verus!
