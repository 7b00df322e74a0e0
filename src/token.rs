//! Positions, lexemes and tokens, with their mathematical views.
use syntect::parsing::Scope;
use vstd::prelude::*;
use vstd::string::StringSliceAdditionalSpecFns;

verus! {

/// Where a lexeme starts: a line number and a byte offset within that line.
#[derive(Clone, Copy, Debug, PartialEq, Eq)]
pub struct Position {
    pub line: usize,
    pub offset: usize,
}

/// A run of a line's text that carries one scope.
#[derive(Clone, Copy, Debug, PartialEq, Eq)]
pub struct Lexeme<'a> {
    pub value: &'a str,
    pub scope: Option<Scope>,
    pub position: Position,
}

/// Either a lexeme or the boundary between two lines.
#[derive(Clone, Copy, Debug, PartialEq, Eq)]
pub enum Token<'a> {
    Lexeme(Lexeme<'a>),
    Newline,
}

/// The mathematical value of a token: a lexeme's text is its UTF-8 bytes.
pub enum TokenView {
    Lexeme { value: Seq<u8>, scope: Option<Scope>, line: int, offset: int },
    Newline,
}

impl<'a> View for Token<'a> {
    type V = TokenView;

    open spec fn view(&self) -> TokenView {
        match *self {
            Token::Lexeme(l) => TokenView::Lexeme {
                value: l.value.spec_bytes(),
                scope: l.scope,
                line: l.position.line as int,
                offset: l.position.offset as int,
            },
            Token::Newline => TokenView::Newline,
        }
    }
}

/// The views of a sequence of tokens.
pub open spec fn views<'a>(ts: Seq<Token<'a>>) -> Seq<TokenView> {
    ts.map_values(|t: Token<'a>| t@)
}

/// The byte that ends a line.
pub const NEWLINE: u8 = 10;

/// The text that a token stands for: a lexeme its own bytes, a newline the
/// line terminator.
pub open spec fn token_text(t: TokenView) -> Seq<u8> {
    match t {
        TokenView::Lexeme { value, .. } => value,
        TokenView::Newline => seq![NEWLINE],
    }
}

/// The text that a sequence of tokens stands for, in order.
pub open spec fn flatten(ts: Seq<TokenView>) -> Seq<u8>
    decreases ts.len(),
{
    if ts.len() == 0 {
        Seq::empty()
    } else {
        flatten(ts.drop_last()) + token_text(ts.last())
    }
}

/// Flattening distributes over concatenation.
pub proof fn lemma_flatten_concat(a: Seq<TokenView>, b: Seq<TokenView>)
    ensures
        flatten(a + b) == flatten(a) + flatten(b),
    decreases b.len(),
{
    if b.len() == 0 {
        assert(a + b =~= a);
        assert(flatten(b) + Seq::empty() =~= flatten(b));
        assert(flatten(a) + flatten(b) =~= flatten(a));
    } else {
        assert((a + b).drop_last() =~= a + b.drop_last());
        lemma_flatten_concat(a, b.drop_last());
        assert(flatten(a + b) =~= flatten(a) + flatten(b));
    }
}

/// The text of one token alone.
pub proof fn lemma_flatten_single(t: TokenView)
    ensures
        flatten(seq![t]) == token_text(t),
{
    let s = seq![t];
    assert(s.drop_last() =~= Seq::<TokenView>::empty());
    assert(flatten(s.drop_last()) == Seq::<u8>::empty());
    assert(Seq::<u8>::empty() + token_text(t) =~= token_text(t));
}

/// A token stands for at least one byte of text.
pub open spec fn is_nonempty(t: TokenView) -> bool {
    token_text(t).len() > 0
}

/// Whether lexeme `a` starts before lexeme `b`: on an earlier line, or
/// further left on the same line.
pub open spec fn starts_before(a: TokenView, b: TokenView) -> bool {
    ||| a->Lexeme_line < b->Lexeme_line
    ||| (a->Lexeme_line == b->Lexeme_line && a->Lexeme_offset < b->Lexeme_offset)
}

/// Whether the positions of the lexemes of `ts` strictly increase, in order of
/// line and then offset.
pub open spec fn positions_increase(ts: Seq<TokenView>) -> bool {
    forall|i: int, k: int|
        0 <= i < k < ts.len() && (#[trigger] ts[i]) is Lexeme && (#[trigger] ts[k]) is Lexeme
            ==> starts_before(ts[i], ts[k])
}

/// Whether every lexeme of `ts` lies on line `n` or before.
pub open spec fn lines_at_most(ts: Seq<TokenView>, n: int) -> bool {
    forall|i: int| 0 <= i < ts.len() && (#[trigger] ts[i]) is Lexeme ==> ts[i]->Lexeme_line <= n
}

/// Whether `b` holds no line terminator.
pub open spec fn no_newline(b: Seq<u8>) -> bool {
    forall|k: int| 0 <= k < b.len() ==> b[k] != NEWLINE
}

/// The number of line terminators in `b`.
pub open spec fn newline_bytes(b: Seq<u8>) -> nat
    decreases b.len(),
{
    if b.len() == 0 {
        0
    } else {
        newline_bytes(b.drop_last()) + if b.last() == NEWLINE { 1nat } else { 0nat }
    }
}

/// The number of newline tokens in `ts`.
pub open spec fn newline_tokens(ts: Seq<TokenView>) -> nat
    decreases ts.len(),
{
    if ts.len() == 0 {
        0
    } else {
        newline_tokens(ts.drop_last()) + if ts.last() is Newline { 1nat } else { 0nat }
    }
}

/// Whether no lexeme of `ts` holds a line terminator.
pub open spec fn lexemes_without_newline(ts: Seq<TokenView>) -> bool {
    forall|i: int| 0 <= i < ts.len() && (#[trigger] ts[i]) is Lexeme ==> no_newline(ts[i]->Lexeme_value)
}

proof fn lemma_newline_bytes_concat(a: Seq<u8>, b: Seq<u8>)
    ensures
        newline_bytes(a + b) == newline_bytes(a) + newline_bytes(b),
    decreases b.len(),
{
    if b.len() == 0 {
        assert(a + b =~= a);
    } else {
        assert((a + b).drop_last() =~= a + b.drop_last());
        lemma_newline_bytes_concat(a, b.drop_last());
    }
}

proof fn lemma_no_newline_count(b: Seq<u8>)
    requires
        no_newline(b),
    ensures
        newline_bytes(b) == 0,
    decreases b.len(),
{
    if b.len() > 0 {
        lemma_no_newline_count(b.drop_last());
    }
}

/// When no lexeme holds a line terminator, the terminators in the text of
/// `ts` are exactly its newline tokens.
pub proof fn lemma_newline_count(ts: Seq<TokenView>)
    requires
        lexemes_without_newline(ts),
    ensures
        newline_bytes(flatten(ts)) == newline_tokens(ts),
    decreases ts.len(),
{
    if ts.len() > 0 {
        let init = ts.drop_last();
        assert(lexemes_without_newline(init)) by {
            assert forall|i: int| 0 <= i < init.len() && (#[trigger] init[i]) is Lexeme implies no_newline(
                init[i]->Lexeme_value,
            ) by {
                assert(init[i] == ts[i]);
            }
        }
        lemma_newline_count(init);
        lemma_newline_bytes_concat(flatten(init), token_text(ts.last()));
        if ts.last() is Newline {
            let one = seq![NEWLINE];
            assert(one.drop_last() =~= Seq::<u8>::empty());
            assert(newline_bytes(one.drop_last()) == 0);
            assert(newline_bytes(one) == 1);
            assert(token_text(ts.last()) == one);
        } else {
            assert(ts[ts.len() - 1] == ts.last());
            lemma_no_newline_count(token_text(ts.last()));
        }
    }
}

/// Counting newline tokens distributes over concatenation.
pub proof fn lemma_newline_tokens_concat(a: Seq<TokenView>, b: Seq<TokenView>)
    ensures
        newline_tokens(a + b) == newline_tokens(a) + newline_tokens(b),
    decreases b.len(),
{
    if b.len() == 0 {
        assert(a + b =~= a);
    } else {
        assert((a + b).drop_last() =~= a + b.drop_last());
        lemma_newline_tokens_concat(a, b.drop_last());
    }
}

/// A sequence of lexemes holds no newline token.
pub proof fn lemma_no_newline_tokens(ts: Seq<TokenView>)
    requires
        forall|i: int| 0 <= i < ts.len() ==> (#[trigger] ts[i]) is Lexeme,
    ensures
        newline_tokens(ts) == 0,
    decreases ts.len(),
{
    if ts.len() > 0 {
        assert(ts[ts.len() - 1] is Lexeme);
        lemma_no_newline_tokens(ts.drop_last());
    }
}

} // verus!
