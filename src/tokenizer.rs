use vstd::prelude::*;

verus! {

// ---------------------------------------------------------------------------
// Character classes
// ---------------------------------------------------------------------------

/// An ASCII decimal digit.
pub open spec fn is_digit(c: char) -> bool {
    '0' <= c && c <= '9'
}

/// A character that may stand in a bare word: ASCII letters, digits and `_`.
pub open spec fn is_word_char(c: char) -> bool {
    ||| ('a' <= c && c <= 'z')
    ||| ('A' <= c && c <= 'Z')
    ||| is_digit(c)
    ||| c == '_'
}

/// The character classes that the scanner takes runs of.
pub open spec fn digit_class() -> spec_fn(char) -> bool {
    |c: char| is_digit(c)
}

pub open spec fn word_class() -> spec_fn(char) -> bool {
    |c: char| is_word_char(c)
}

pub open spec fn not_quote_class() -> spec_fn(char) -> bool {
    |c: char| c != '"'
}

/// End (exclusive) of the longest run of characters of `s`, starting at `i`,
/// that all satisfy `p`.
pub open spec fn run_end(s: Seq<char>, i: int, p: spec_fn(char) -> bool) -> int
    decreases s.len() - i,
{
    if 0 <= i < s.len() && p(s[i]) {
        run_end(s, i + 1, p)
    } else {
        i
    }
}

pub proof fn lemma_run_end_bounds(s: Seq<char>, i: int, p: spec_fn(char) -> bool)
    requires
        0 <= i <= s.len(),
    ensures
        i <= run_end(s, i, p) <= s.len(),
        forall|k: int| i <= k < run_end(s, i, p) ==> p(#[trigger] s[k]),
        run_end(s, i, p) < s.len() ==> !p(s[run_end(s, i, p)]),
    decreases s.len() - i,
{
    if i < s.len() && p(s[i]) {
        lemma_run_end_bounds(s, i + 1, p);
    }
}

/// A run is pinned down by its two boundary facts.
pub proof fn lemma_run_end_unique(s: Seq<char>, i: int, e: int, p: spec_fn(char) -> bool)
    requires
        0 <= i <= e <= s.len(),
        forall|k: int| i <= k < e ==> p(#[trigger] s[k]),
        e < s.len() ==> !p(s[e]),
    ensures
        run_end(s, i, p) == e,
    decreases e - i,
{
    if i < e {
        lemma_run_end_unique(s, i + 1, e, p);
    }
}

// ---------------------------------------------------------------------------
// Tokens and their model
// ---------------------------------------------------------------------------

/// An unsigned decimal literal, kept as the digits that were read.
#[derive(Debug, PartialEq)]
pub struct Number {
    digits: String,
}

/// The numeric value of a run of decimal digits.
pub open spec fn decimal_value(d: Seq<char>) -> nat
    decreases d.len(),
{
    if d.len() == 0 {
        0
    } else {
        10 * decimal_value(d.drop_last()) + ((d.last() as int - '0' as int) as nat)
    }
}

impl View for Number {
    type V = Seq<char>;

    closed spec fn view(&self) -> Seq<char> {
        self.digits@
    }
}

impl Number {
    /// A number holds one or more decimal digits.
    #[verifier::type_invariant]
    spec fn wf(&self) -> bool {
        &&& self.digits@.len() > 0
        &&& forall|k: int| 0 <= k < self.digits@.len() ==> is_digit(#[trigger] self.digits@[k])
    }

    pub open spec fn value(&self) -> nat {
        decimal_value(self@)
    }

    /// The value as a `u64`, or `None` where it does not fit.
    pub fn to_u64(&self) -> (r: Option<u64>)
        ensures
            self.value() <= u64::MAX ==> r == Some(self.value() as u64),
            self.value() > u64::MAX ==> r is None,
    {
        proof {
            use_type_invariant(self);
        }
        let chars = chars_of(self.digits.as_str());
        let mut acc: u64 = 0;
        let mut i: usize = 0;
        while i < chars.len()
            invariant
                chars@ == self.digits@,
                self.wf(),
                i <= chars.len(),
                acc == decimal_value(chars@.take(i as int)),
            decreases chars.len() - i,
        {
            assert(chars@.take(i + 1).drop_last() == chars@.take(i as int));
            let d = ((chars[i] as u32) - ('0' as u32)) as u64;
            assert(is_digit(chars@[i as int]));
            match acc.checked_mul(10) {
                Some(m) => match m.checked_add(d) {
                    Some(n) => {
                        acc = n;
                    },
                    None => {
                        proof {
                            lemma_decimal_value_prefix(chars@, i as int + 1);
                        }
                        return None;
                    },
                },
                None => {
                    proof {
                        lemma_decimal_value_prefix(chars@, i as int + 1);
                    }
                    return None;
                },
            }
            i = i + 1;
        }
        assert(chars@.take(chars.len() as int) == chars@);
        Some(acc)
    }
}

/// A longer prefix of digits never has a smaller value.
proof fn lemma_decimal_value_prefix(d: Seq<char>, i: int)
    requires
        0 <= i <= d.len(),
        forall|k: int| 0 <= k < d.len() ==> is_digit(#[trigger] d[k]),
    ensures
        decimal_value(d.take(i)) <= decimal_value(d),
    decreases d.len() - i,
{
    if i < d.len() {
        lemma_decimal_value_prefix(d, i + 1);
        assert(d.take(i + 1).drop_last() == d.take(i));
    } else {
        assert(d.take(i) == d);
    }
}

/// A lexical token.
#[derive(Debug, PartialEq)]
pub enum Token {
    Coma,
    Colon,
    CurlyOpen,
    CurlyClose,
    SquareOpen,
    SquareClose,
    StringValue(String),
    NumberValue(Number),
    BoolValue(bool),
    NullValue,
}

/// The kind of a token, without its payload.
#[derive(Debug, Clone, Copy, PartialEq, Eq, Structural)]
pub enum TokenKind {
    Coma,
    Colon,
    CurlyOpen,
    CurlyClose,
    SquareOpen,
    SquareClose,
    String,
    Number,
    Bool,
    Null,
}

/// What a token is, as a mathematical value.
pub enum TokenView {
    Coma,
    Colon,
    CurlyOpen,
    CurlyClose,
    SquareOpen,
    SquareClose,
    Str(Seq<char>),
    Num(Seq<char>),
    Bool(bool),
    Null,
}

impl TokenView {
    pub open spec fn kind(self) -> TokenKind {
        match self {
            TokenView::Coma => TokenKind::Coma,
            TokenView::Colon => TokenKind::Colon,
            TokenView::CurlyOpen => TokenKind::CurlyOpen,
            TokenView::CurlyClose => TokenKind::CurlyClose,
            TokenView::SquareOpen => TokenKind::SquareOpen,
            TokenView::SquareClose => TokenKind::SquareClose,
            TokenView::Str(_) => TokenKind::String,
            TokenView::Num(_) => TokenKind::Number,
            TokenView::Bool(_) => TokenKind::Bool,
            TokenView::Null => TokenKind::Null,
        }
    }
}

impl View for Token {
    type V = TokenView;

    open spec fn view(&self) -> TokenView {
        match self {
            Token::Coma => TokenView::Coma,
            Token::Colon => TokenView::Colon,
            Token::CurlyOpen => TokenView::CurlyOpen,
            Token::CurlyClose => TokenView::CurlyClose,
            Token::SquareOpen => TokenView::SquareOpen,
            Token::SquareClose => TokenView::SquareClose,
            Token::StringValue(s) => TokenView::Str(s@),
            Token::NumberValue(n) => TokenView::Num(n@),
            Token::BoolValue(b) => TokenView::Bool(*b),
            Token::NullValue => TokenView::Null,
        }
    }
}

impl Token {
    pub fn kind(&self) -> (k: TokenKind)
        ensures
            k == self@.kind(),
    {
        match self {
            Token::Coma => TokenKind::Coma,
            Token::Colon => TokenKind::Colon,
            Token::CurlyOpen => TokenKind::CurlyOpen,
            Token::CurlyClose => TokenKind::CurlyClose,
            Token::SquareOpen => TokenKind::SquareOpen,
            Token::SquareClose => TokenKind::SquareClose,
            Token::StringValue(_) => TokenKind::String,
            Token::NumberValue(_) => TokenKind::Number,
            Token::BoolValue(_) => TokenKind::Bool,
            Token::NullValue => TokenKind::Null,
        }
    }
}

/// What a sequence of tokens is, token by token.
pub open spec fn tokens_view(v: Seq<Token>) -> Seq<TokenView> {
    v.map_values(|t: Token| t@)
}

// ---------------------------------------------------------------------------
// Errors
// ---------------------------------------------------------------------------

/// A lexical error.
#[derive(Debug, PartialEq)]
pub enum Error {
    /// A string literal has no closing quote.
    Unterminated,
    /// A number literal holds no digit.
    InvalidNumber,
    /// A bare word other than `true`, `false` and `null`.
    UnknownKeyword(String),
    /// The given character was expected.
    Expected(char),
}

/// A lexical error as a mathematical value.
pub enum ErrorView {
    Unterminated,
    InvalidNumber,
    UnknownKeyword(Seq<char>),
    Expected(char),
}

impl View for Error {
    type V = ErrorView;

    open spec fn view(&self) -> ErrorView {
        match self {
            Error::Unterminated => ErrorView::Unterminated,
            Error::InvalidNumber => ErrorView::InvalidNumber,
            Error::UnknownKeyword(w) => ErrorView::UnknownKeyword(w@),
            Error::Expected(c) => ErrorView::Expected(*c),
        }
    }
}

// ---------------------------------------------------------------------------
// The lexical grammar
// ---------------------------------------------------------------------------

/// The token that a structural character stands for.
pub open spec fn structural(c: char) -> Option<TokenView> {
    if c == '{' {
        Some(TokenView::CurlyOpen)
    } else if c == '}' {
        Some(TokenView::CurlyClose)
    } else if c == '[' {
        Some(TokenView::SquareOpen)
    } else if c == ']' {
        Some(TokenView::SquareClose)
    } else if c == ',' {
        Some(TokenView::Coma)
    } else if c == ':' {
        Some(TokenView::Colon)
    } else {
        None
    }
}

/// The token that a bare word stands for.
pub open spec fn keyword(w: Seq<char>) -> Result<TokenView, ErrorView> {
    if w == seq!['t', 'r', 'u', 'e'] {
        Ok(TokenView::Bool(true))
    } else if w == seq!['f', 'a', 'l', 's', 'e'] {
        Ok(TokenView::Bool(false))
    } else if w == seq!['n', 'u', 'l', 'l'] {
        Ok(TokenView::Null)
    } else {
        Err(ErrorView::UnknownKeyword(w))
    }
}

/// `r`, with `t` put in front of the tokens where it succeeded.
pub open spec fn prepend(t: TokenView, r: Result<Seq<TokenView>, ErrorView>) -> Result<
    Seq<TokenView>,
    ErrorView,
> {
    match r {
        Ok(ts) => Ok(seq![t] + ts),
        Err(e) => Err(e),
    }
}

/// The tokens of `s` from position `i` on, or the first lexical error.
pub open spec fn lex(s: Seq<char>, i: int) -> Result<Seq<TokenView>, ErrorView>
    decreases s.len() - i,
{
    if i < 0 || i >= s.len() {
        Ok(Seq::empty())
    } else if s[i] == ' ' {
        lex(s, i + 1)
    } else if structural(s[i]) is Some {
        prepend(structural(s[i])->0, lex(s, i + 1))
    } else if s[i] == '"' {
        let e = run_end(s, i + 1, not_quote_class());
        proof {
            lemma_run_end_bounds(s, i + 1, not_quote_class());
        }
        if e >= s.len() {
            Err(ErrorView::Unterminated)
        } else {
            prepend(TokenView::Str(s.subrange(i + 1, e)), lex(s, e + 1))
        }
    } else if is_digit(s[i]) {
        let e = run_end(s, i, digit_class());
        proof {
            lemma_run_end_bounds(s, i + 1, digit_class());
        }
        prepend(TokenView::Num(s.subrange(i, e)), lex(s, e))
    } else {
        let e = run_end(s, i, word_class());
        proof {
            lemma_run_end_bounds(s, i, word_class());
        }
        match keyword(s.subrange(i, e)) {
            Ok(t) => {
                proof {
                    assert(s.subrange(i, e).len() > 0);
                }
                prepend(t, lex(s, e))
            },
            Err(err) => Err(err),
        }
    }
}

/// The tokens of a whole text.
pub open spec fn tokens_of(s: Seq<char>) -> Result<Seq<TokenView>, ErrorView> {
    lex(s, 0)
}

// ---------------------------------------------------------------------------
// The scanner
// ---------------------------------------------------------------------------

/// Relies on `FromIterator<char>` for `String`: the string holds the
/// characters collected, in order.
#[verifier::external_body]
fn string_from_chars(v: &Vec<char>) -> (r: String)
    ensures
        r@ == v@,
{
    v.iter().collect()
}

/// The characters of `s`, in order.
fn chars_of(s: &str) -> (v: Vec<char>)
    ensures
        v@ == s@,
{
    let mut v: Vec<char> = Vec::new();
    for c in it: s.chars()
        invariant
            v@ == it.seq().take(it.index() as int),
    {
        v.push(c);
    }
    v
}

pub fn is_digit_char(c: char) -> (r: bool)
    ensures
        r == is_digit(c),
{
    '0' <= c && c <= '9'
}

pub fn is_word_character(c: char) -> (r: bool)
    ensures
        r == is_word_char(c),
{
    ('a' <= c && c <= 'z') || ('A' <= c && c <= 'Z') || ('0' <= c && c <= '9') || c == '_'
}

pub fn is_quote(c: char) -> (r: bool)
    ensures
        r == (c == '"'),
{
    c == '"'
}

/// A scanner over the characters of a text, with one character of lookahead.
pub struct Tokenizer {
    chars: Vec<char>,
    pos: usize,
}

impl Tokenizer {
    /// The whole text being scanned.
    pub closed spec fn input(&self) -> Seq<char> {
        self.chars@
    }

    /// How many characters have been consumed.
    pub closed spec fn position(&self) -> int {
        self.pos as int
    }

    pub closed spec fn wf(&self) -> bool {
        self.pos <= self.chars.len()
    }

    pub fn new(s: &str) -> (r: Tokenizer)
        ensures
            r.wf(),
            r.input() == s@,
            r.position() == 0,
    {
        Tokenizer { chars: chars_of(s), pos: 0 }
    }

    fn peek(&self) -> (r: Option<char>)
        requires
            self.wf(),
        ensures
            self.pos < self.chars.len() ==> r == Some(self.chars@[self.pos as int]),
            self.pos >= self.chars.len() ==> r is None,
    {
        if self.pos < self.chars.len() {
            Some(self.chars[self.pos])
        } else {
            None
        }
    }

    /// Consumes characters up to and including the first one that satisfies
    /// `predicate`; hands back those before it. Fails with `Unterminated` when
    /// the text ends first.
    pub fn take_until(&mut self, predicate: impl Fn(char) -> bool) -> (r: Result<Vec<char>, Error>)
        requires
            old(self).wf(),
            forall|c: char| predicate.requires((c,)),
        ensures
            final(self).wf(),
            final(self).input() == old(self).input(),
            forall|k: int|
                old(self).position() <= k < final(self).position() - 1 ==> predicate.ensures(
                    (#[trigger] old(self).input()[k],),
                    false,
                ),
            match r {
                Ok(v) => {
                    &&& old(self).position() < final(self).position()
                    &&& v@ == old(self).input().subrange(
                        old(self).position(),
                        final(self).position() - 1,
                    )
                    &&& predicate.ensures((old(self).input()[final(self).position() - 1],), true)
                },
                Err(e) => {
                    &&& e == Error::Unterminated
                    &&& final(self).position() == old(self).input().len()
                    &&& forall|k: int|
                        old(self).position() <= k < old(self).input().len() ==> predicate.ensures(
                            (#[trigger] old(self).input()[k],),
                            false,
                        )
                },
            },
    {
        let ghost start = self.pos as int;
        let mut res: Vec<char> = Vec::new();
        while self.pos < self.chars.len()
            invariant
                self.wf(),
                self.chars == old(self).chars,
                start == old(self).pos,
                start <= self.pos,
                forall|c: char| predicate.requires((c,)),
                res@ == self.chars@.subrange(start, self.pos as int),
                forall|k: int|
                    start <= k < self.pos ==> predicate.ensures((#[trigger] self.chars@[k],), false),
            decreases self.chars.len() - self.pos,
        {
            let c = self.chars[self.pos];
            self.pos = self.pos + 1;
            if predicate(c) {
                return Ok(res);
            }
            res.push(c);
        }
        Err(Error::Unterminated)
    }

    /// Consumes the longest run of characters that satisfy `predicate` and
    /// hands it back.
    pub fn take_while(&mut self, predicate: impl Fn(char) -> bool) -> (r: Result<Vec<char>, Error>)
        requires
            old(self).wf(),
            forall|c: char| predicate.requires((c,)),
        ensures
            final(self).wf(),
            final(self).input() == old(self).input(),
            old(self).position() <= final(self).position(),
            r matches Ok(v) && v@ == old(self).input().subrange(
                old(self).position(),
                final(self).position(),
            ),
            forall|k: int|
                old(self).position() <= k < final(self).position() ==> predicate.ensures(
                    (#[trigger] old(self).input()[k],),
                    true,
                ),
            final(self).position() < old(self).input().len() ==> predicate.ensures(
                (old(self).input()[final(self).position()],),
                false,
            ),
    {
        let ghost start = self.pos as int;
        let mut res: Vec<char> = Vec::new();
        while self.pos < self.chars.len()
            invariant
                self.wf(),
                self.chars == old(self).chars,
                start == old(self).pos,
                start <= self.pos,
                forall|c: char| predicate.requires((c,)),
                res@ == self.chars@.subrange(start, self.pos as int),
                forall|k: int|
                    start <= k < self.pos ==> predicate.ensures((#[trigger] self.chars@[k],), true),
            decreases self.chars.len() - self.pos,
        {
            let c = self.chars[self.pos];
            if !predicate(c) {
                return Ok(res);
            }
            self.pos = self.pos + 1;
            res.push(c);
        }
        Ok(res)
    }

    /// Consumes one character, which must be `ch`.
    pub fn skip(&mut self, ch: char) -> (r: Result<(), Error>)
        requires
            old(self).wf(),
        ensures
            final(self).wf(),
            final(self).input() == old(self).input(),
            old(self).position() < old(self).input().len() ==> final(self).position()
                == old(self).position() + 1,
            old(self).position() >= old(self).input().len() ==> final(self).position()
                == old(self).position(),
            r is Ok <==> (old(self).position() < old(self).input().len() && old(self).input()[old(
                self,
            ).position()] == ch),
            r is Err ==> r == Err::<(), Error>(Error::Expected(ch)),
    {
        match self.peek() {
            Some(c) => {
                self.pos = self.pos + 1;
                if c == ch {
                    Ok(())
                } else {
                    Err(Error::Expected(ch))
                }
            },
            None => Err(Error::Expected(ch)),
        }
    }
}


/// Whether two character sequences are equal.
fn same_chars(a: &Vec<char>, b: &Vec<char>) -> (r: bool)
    ensures
        r == (a@ == b@),
{
    if a.len() != b.len() {
        return false;
    }
    let mut i: usize = 0;
    while i < a.len()
        invariant
            a.len() == b.len(),
            i <= a.len(),
            forall|k: int| 0 <= k < i ==> a@[k] == b@[k],
        decreases a.len() - i,
    {
        if a[i] != b[i] {
            return false;
        }
        i = i + 1;
    }
    assert(a@ == b@);
    true
}

impl Tokenizer {
    /// Scans a string literal: a quote, then everything up to the next quote.
    pub fn string_token(&mut self) -> (r: Result<Token, Error>)
        requires
            old(self).wf(),
        ensures
            final(self).wf(),
            final(self).input() == old(self).input(),
            ({
                let s = old(self).input();
                let i = old(self).position();
                let e = run_end(s, i + 1, not_quote_class());
                if i < s.len() && s[i] == '"' {
                    if e < s.len() {
                        &&& r matches Ok(t) && t@ == TokenView::Str(s.subrange(i + 1, e))
                        &&& final(self).position() == e + 1
                    } else {
                        r == Err::<Token, Error>(Error::Unterminated)
                    }
                } else {
                    r == Err::<Token, Error>(Error::Expected('"'))
                }
            }),
    {
        let ghost s = self.input();
        let ghost i = self.position();
        self.skip('"')?;
        let r = self.take_until(is_quote);
        proof {
            lemma_run_end_bounds(s, i + 1, not_quote_class());
        }
        match r {
            Ok(chars) => {
                proof {
                    lemma_run_end_unique(s, i + 1, self.position() - 1, not_quote_class());
                }
                Ok(Token::StringValue(string_from_chars(&chars)))
            },
            Err(e) => {
                proof {
                    lemma_run_end_unique(s, i + 1, s.len() as int, not_quote_class());
                }
                Err(e)
            },
        }
    }

    /// Scans the longest run of decimal digits; fails with `InvalidNumber`
    /// where there is none.
    pub fn number_token(&mut self) -> (r: Result<Token, Error>)
        requires
            old(self).wf(),
        ensures
            final(self).wf(),
            final(self).input() == old(self).input(),
            ({
                let s = old(self).input();
                let i = old(self).position();
                let e = run_end(s, i, digit_class());
                if e > i {
                    &&& r matches Ok(t) && t@ == TokenView::Num(s.subrange(i, e))
                    &&& final(self).position() == e
                } else {
                    r == Err::<Token, Error>(Error::InvalidNumber)
                }
            }),
    {
        let ghost s = self.input();
        let ghost i = self.position();
        let r = self.take_while(is_digit_char);
        let chars = match r {
            Ok(chars) => chars,
            Err(e) => {
                return Err(e);
            },
        };
        proof {
            lemma_run_end_unique(s, i, self.position(), digit_class());
        }
        if chars.len() == 0 {
            return Err(Error::InvalidNumber);
        }
        let n = Number { digits: string_from_chars(&chars) };
        Ok(Token::NumberValue(n))
    }

    /// Scans the longest run of word characters and reads it as `true`,
    /// `false` or `null`.
    pub fn keyword_token(&mut self) -> (r: Result<Token, Error>)
        requires
            old(self).wf(),
        ensures
            final(self).wf(),
            final(self).input() == old(self).input(),
            ({
                let s = old(self).input();
                let i = old(self).position();
                let e = run_end(s, i, word_class());
                match keyword(s.subrange(i, e)) {
                    Ok(tv) => {
                        &&& r matches Ok(t) && t@ == tv
                        &&& final(self).position() == e
                    },
                    Err(ev) => r matches Err(err) && err@ == ev,
                }
            }),
    {
        let ghost s = self.input();
        let ghost i = self.position();
        let r = self.take_while(is_word_character);
        let chars = match r {
            Ok(chars) => chars,
            Err(e) => {
                return Err(e);
            },
        };
        proof {
            lemma_run_end_unique(s, i, self.position(), word_class());
            reveal_strlit("true");
            reveal_strlit("false");
            reveal_strlit("null");
            assert("true"@ =~= seq!['t', 'r', 'u', 'e']);
            assert("false"@ =~= seq!['f', 'a', 'l', 's', 'e']);
            assert("null"@ =~= seq!['n', 'u', 'l', 'l']);
        }
        if same_chars(&chars, &chars_of("true")) {
            Ok(Token::BoolValue(true))
        } else if same_chars(&chars, &chars_of("false")) {
            Ok(Token::BoolValue(false))
        } else if same_chars(&chars, &chars_of("null")) {
            Ok(Token::NullValue)
        } else {
            Err(Error::UnknownKeyword(string_from_chars(&chars)))
        }
    }
}

/// `r`, with `p` put in front of the tokens where it succeeded.
pub open spec fn attach(p: Seq<TokenView>, r: Result<Seq<TokenView>, ErrorView>) -> Result<
    Seq<TokenView>,
    ErrorView,
> {
    match r {
        Ok(ts) => Ok(p + ts),
        Err(e) => Err(e),
    }
}

proof fn lemma_attach_push(v: Seq<Token>, t: Token, r: Result<Seq<TokenView>, ErrorView>)
    ensures
        attach(tokens_view(v), prepend(t@, r)) == attach(tokens_view(v.push(t)), r),
{
    assert(tokens_view(v.push(t)) =~= tokens_view(v).push(t@));
    if let Ok(ts) = r {
        assert(tokens_view(v) + (seq![t@] + ts) =~= tokens_view(v).push(t@) + ts);
    }
}

impl Tokenizer {
    /// Scans the rest of the text into tokens, in order, stopping at the first
    /// lexical error.
    pub fn tokenize(&mut self) -> (r: Result<Vec<Token>, Error>)
        requires
            old(self).wf(),
        ensures
            final(self).wf(),
            final(self).input() == old(self).input(),
            match lex(old(self).input(), old(self).position()) {
                Ok(ts) => r matches Ok(v) && tokens_view(v@) == ts,
                Err(e) => r matches Err(err) && err@ == e,
            },
    {
        let ghost s = self.input();
        let ghost start = self.position();
        let mut v: Vec<Token> = Vec::new();
        assert(tokens_view(v@) + Seq::<TokenView>::empty() =~= Seq::<TokenView>::empty());
        while self.pos < self.chars.len()
            invariant
                self.wf(),
                self.chars@ == s,
                s == old(self).chars@,
                start == old(self).pos,
                lex(s, start) == attach(tokens_view(v@), lex(s, self.pos as int)),
            decreases self.chars.len() - self.pos,
        {
            let ghost i = self.pos as int;
            let c = self.chars[self.pos];
            let t = if c == ' ' {
                self.pos = self.pos + 1;
                continue ;
            } else if c == '{' {
                self.pos = self.pos + 1;
                Token::CurlyOpen
            } else if c == '}' {
                self.pos = self.pos + 1;
                Token::CurlyClose
            } else if c == '[' {
                self.pos = self.pos + 1;
                Token::SquareOpen
            } else if c == ']' {
                self.pos = self.pos + 1;
                Token::SquareClose
            } else if c == ',' {
                self.pos = self.pos + 1;
                Token::Coma
            } else if c == ':' {
                self.pos = self.pos + 1;
                Token::Colon
            } else if c == '"' {
                proof {
                    lemma_run_end_bounds(s, i + 1, not_quote_class());
                }
                match self.string_token() {
                    Ok(t) => t,
                    Err(e) => {
                        return Err(e);
                    },
                }
            } else if is_digit_char(c) {
                proof {
                    lemma_run_end_bounds(s, i + 1, digit_class());
                    assert(run_end(s, i, digit_class()) == run_end(s, i + 1, digit_class()));
                }
                match self.number_token() {
                    Ok(t) => t,
                    Err(e) => {
                        return Err(e);
                    },
                }
            } else {
                proof {
                    lemma_run_end_bounds(s, i, word_class());
                }
                match self.keyword_token() {
                    Ok(t) => {
                        assert(s.subrange(i, self.pos as int).len() > 0);
                        t
                    },
                    Err(e) => {
                        return Err(e);
                    },
                }
            };
            proof {
                lemma_attach_push(v@, t, lex(s, self.pos as int));
            }
            v.push(t);
        }
        assert(tokens_view(v@) + Seq::<TokenView>::empty() =~= tokens_view(v@));
        Ok(v)
    }
}

} // verus!
