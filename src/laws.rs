use crate::error::ErrorView;
use crate::parser::{document, JsonView};
use crate::tokenizer::{
    decimal_value, digit_class, is_digit, keyword, lemma_run_end_unique, lex, not_quote_class,
    structural, tokens_of, word_class, ErrorView as LexError, TokenView,
};
use vstd::prelude::*;

verus! {

/// Each of the words `null`, `true` and `false` is exactly one token, of the
/// kind it names, and parses to the value it names.
pub proof fn lemma_literal_words(w: Seq<char>)
    requires
        w == seq!['n', 'u', 'l', 'l'] || w == seq!['t', 'r', 'u', 'e'] || w == seq![
            'f',
            'a',
            'l',
            's',
            'e',
        ],
    ensures
        w == seq!['n', 'u', 'l', 'l'] ==> tokens_of(w) == Ok::<Seq<TokenView>, LexError>(
            seq![TokenView::Null],
        ) && document(w) == Ok::<JsonView, ErrorView>(JsonView::Null),
        w == seq!['t', 'r', 'u', 'e'] ==> tokens_of(w) == Ok::<Seq<TokenView>, LexError>(
            seq![TokenView::Bool(true)],
        ) && document(w) == Ok::<JsonView, ErrorView>(JsonView::Bool(true)),
        w == seq!['f', 'a', 'l', 's', 'e'] ==> tokens_of(w) == Ok::<Seq<TokenView>, LexError>(
            seq![TokenView::Bool(false)],
        ) && document(w) == Ok::<JsonView, ErrorView>(JsonView::Bool(false)),
{
    lemma_run_end_unique(w, 0, w.len() as int, word_class());
    assert(w.subrange(0, w.len() as int) == w);
    let t = keyword(w)->Ok_0;
    assert(lex(w, w.len() as int) == Ok::<Seq<TokenView>, LexError>(Seq::empty()));
    assert(seq![t] + Seq::<TokenView>::empty() == seq![t]);
    assert(seq![t].drop_first() == Seq::<TokenView>::empty());
}

/// A text of one or more decimal digits is exactly one number token, and
/// parses to the number that the digits denote.
pub proof fn lemma_digit_text(s: Seq<char>)
    requires
        s.len() > 0,
        forall|k: int| 0 <= k < s.len() ==> is_digit(#[trigger] s[k]),
    ensures
        tokens_of(s) == Ok::<Seq<TokenView>, LexError>(seq![TokenView::Num(s)]),
        document(s) == Ok::<JsonView, ErrorView>(JsonView::Number(decimal_value(s))),
{
    lemma_run_end_unique(s, 0, s.len() as int, digit_class());
    assert(s.subrange(0, s.len() as int) == s);
    assert(structural(s[0]) is None);
    let t = TokenView::Num(s);
    assert(lex(s, s.len() as int) == Ok::<Seq<TokenView>, LexError>(Seq::empty()));
    assert(seq![t] + Seq::<TokenView>::empty() == seq![t]);
    assert(seq![t].drop_first() == Seq::<TokenView>::empty());
}

/// A quoted text whose body holds no quote is exactly one string token, and
/// parses to the body as it stands.
pub proof fn lemma_quoted_text(body: Seq<char>)
    requires
        forall|k: int| 0 <= k < body.len() ==> #[trigger] body[k] != '"',
    ensures
        tokens_of(seq!['"'] + body + seq!['"']) == Ok::<Seq<TokenView>, LexError>(
            seq![TokenView::Str(body)],
        ),
        document(seq!['"'] + body + seq!['"']) == Ok::<JsonView, ErrorView>(JsonView::Str(body)),
{
    let s = seq!['"'] + body + seq!['"'];
    let e = body.len() + 1int;
    assert forall|k: int| 1 <= k < e implies (not_quote_class())(#[trigger] s[k]) by {
        assert(s[k] == body[k - 1]);
    }
    lemma_run_end_unique(s, 1, e, not_quote_class());
    assert(s.subrange(1, e) == body);
    let t = TokenView::Str(body);
    assert(lex(s, e + 1) == Ok::<Seq<TokenView>, LexError>(Seq::empty()));
    assert(seq![t] + Seq::<TokenView>::empty() == seq![t]);
    assert(seq![t].drop_first() == Seq::<TokenView>::empty());
}

} // verus!
