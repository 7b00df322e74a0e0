//! Splitting one line into tokens at the offsets where its scope changes.
use crate::token::{
    flatten, lemma_flatten_concat, lemma_flatten_single, views, Lexeme, Position, Token, TokenView,
    NEWLINE,
};
use syntect::parsing::Scope;
use vstd::prelude::*;
use vstd::string::StringSliceAdditionalSpecFns;
use vstd::utf8::{
    encode_utf8_valid_utf8, is_char_boundary, is_char_boundary_iff_not_is_continuation_byte,
};

verus! {

/// The length of a line's content: its bytes without a final line terminator.
pub open spec fn content_len(bytes: Seq<u8>) -> int {
    if bytes.len() > 0 && bytes.last() == NEWLINE {
        bytes.len() - 1
    } else {
        bytes.len() as int
    }
}

/// The number of bytes of `line` that are content, leaving out a final `\n`.
pub fn line_length(line: &str) -> (r: usize)
    ensures
        r == content_len(line.spec_bytes()),
{
    let bytes = line.as_bytes();
    let n = bytes.len();
    if n > 0 && bytes[n - 1] == NEWLINE {
        n - 1
    } else {
        n
    }
}


/// A lexeme of `line`, starting at `offset`.
pub open spec fn lexeme_view(value: Seq<u8>, scope: Option<Scope>, line: int, offset: int) -> TokenView {
    TokenView::Lexeme { value, scope, line, offset }
}

/// Where a scope change at `o` would end a lexeme: at `o`, or at the end of
/// the content when the change lies past it.
pub open spec fn cut_point(bytes: Seq<u8>, o: int) -> int {
    if o <= content_len(bytes) {
        o
    } else {
        content_len(bytes)
    }
}

/// Whether a scope change at `o` ends a lexeme that starts at `cur`: its cut
/// point lies past `cur` and on a character boundary.
pub open spec fn cuts_at(bytes: Seq<u8>, cur: int, o: int) -> bool {
    &&& cur < cut_point(bytes, o)
    &&& is_char_boundary(bytes.subrange(cur, bytes.len() as int), cut_point(bytes, o) - cur)
}

/// The lexemes of a line from the `j`-th scope change on, when the current
/// lexeme starts at `cur`. `tops[j]` is the deepest scope before the `j`-th
/// change is applied, `last` the one after all of them.
pub open spec fn lexemes_from(
    bytes: Seq<u8>,
    line: int,
    offsets: Seq<usize>,
    tops: Seq<Option<Scope>>,
    last: Option<Scope>,
    j: int,
    cur: int,
) -> Seq<TokenView>
    decreases offsets.len() - j,
{
    if j >= offsets.len() || j < 0 {
        if cur < content_len(bytes) {
            seq![lexeme_view(bytes.subrange(cur, content_len(bytes)), last, line, cur)]
        } else {
            Seq::empty()
        }
    } else if cuts_at(bytes, cur, offsets[j] as int) {
        seq![lexeme_view(bytes.subrange(cur, cut_point(bytes, offsets[j] as int)), tops[j], line, cur)]
            + lexemes_from(bytes, line, offsets, tops, last, j + 1, cut_point(bytes, offsets[j] as int))
    } else {
        lexemes_from(bytes, line, offsets, tops, last, j + 1, cur)
    }
}

/// The tokens of line number `line` with bytes `bytes`: a newline first unless
/// it is the first line, then its lexemes.
pub open spec fn line_tokens_spec(
    bytes: Seq<u8>,
    line: int,
    offsets: Seq<usize>,
    tops: Seq<Option<Scope>>,
    last: Option<Scope>,
) -> Seq<TokenView> {
    (if line > 0 {
        seq![TokenView::Newline]
    } else {
        Seq::empty()
    }) + lexemes_from(bytes, line, offsets, tops, last, 0, 0)
}

/// Splits `line` into tokens. `offsets[j]` is the byte offset of the line's
/// `j`-th scope change, `tops[j]` the deepest scope just before that change
/// applies, and `last` the deepest scope once all have applied. A lexeme ends
/// at each change that moves past the current offset, and the content left
/// after the last one forms a final lexeme. The line terminator is never part
/// of a lexeme: a change past the content ends the lexeme at the content's end.
/// A change that falls inside a UTF-8 character cuts nothing.
pub fn line_tokens<'a>(
    line: &'a str,
    line_number: usize,
    offsets: &Vec<usize>,
    tops: &Vec<Option<Scope>>,
    last: Option<Scope>,
) -> (r: Vec<Token<'a>>)
    requires
        offsets.len() == tops.len(),
    ensures
        views(r@) == line_tokens_spec(line.spec_bytes(), line_number as int, offsets@, tops@, last),
{
    let ghost bytes = line.spec_bytes();
    let ghost ln = line_number as int;
    let ghost target = line_tokens_spec(bytes, ln, offsets@, tops@, last);
    let mut tokens: Vec<Token<'a>> = Vec::new();
    if line_number > 0 {
        tokens.push(Token::Newline);
    }
    proof {
        assert(views(tokens@) + lexemes_from(bytes, ln, offsets@, tops@, last, 0, 0) =~= target);
    }
    let clen = line_length(line);
    let mut rest: &'a str = line;
    let mut offset: usize = 0;
    let mut j: usize = 0;
    while j < offsets.len()
        invariant
            offsets.len() == tops.len(),
            bytes == line.spec_bytes(),
            clen == content_len(bytes),
            offset <= clen,
            rest.spec_bytes() == bytes.subrange(offset as int, bytes.len() as int),
            target == line_tokens_spec(bytes, ln, offsets@, tops@, last),
            ln == line_number,
            views(tokens@) + lexemes_from(bytes, ln, offsets@, tops@, last, j as int, offset as int)
                == target,
        decreases offsets.len() - j,
    {
        let o = if offsets[j] <= clen {
            offsets[j]
        } else {
            clen
        };
        if offset < o && rest.is_char_boundary(o - offset) {
            let (piece, tail) = rest.split_at(o - offset);
            let token = Token::Lexeme(Lexeme {
                value: piece,
                scope: tops[j],
                position: Position { line: line_number, offset },
            });
            proof {
                let v = lexeme_view(bytes.subrange(offset as int, o as int), tops@[j as int], ln, offset as int);
                assert(piece.spec_bytes() =~= bytes.subrange(offset as int, o as int));
                assert(token@ == v);
                assert(views(tokens@.push(token)) =~= views(tokens@).push(v));
                assert(views(tokens@).push(v) + lexemes_from(bytes, ln, offsets@, tops@, last, j + 1, o as int)
                    =~= views(tokens@) + lexemes_from(
                    bytes,
                    ln,
                    offsets@,
                    tops@,
                    last,
                    j as int,
                    offset as int,
                ));
                assert(tail.spec_bytes() =~= bytes.subrange(o as int, bytes.len() as int));
            }
            tokens.push(token);
            rest = tail;
            offset = o;
        }
        j += 1;
    }
    if offset < clen {
        let piece: &'a str;
        if clen - offset < rest.as_bytes().len() {
            proof {
                let rb = rest.spec_bytes();
                encode_utf8_valid_utf8(rest@);
                assert(rb[rb.len() - 1] == NEWLINE);
                is_char_boundary_iff_not_is_continuation_byte(rb, rb.len() - 1);
            }
            let (p, _) = rest.split_at(clen - offset);
            assert(p.spec_bytes() =~= bytes.subrange(offset as int, clen as int));
            piece = p;
        } else {
            assert(rest.spec_bytes() =~= bytes.subrange(offset as int, clen as int));
            piece = rest;
        }
        let token = Token::Lexeme(Lexeme {
            value: piece,
            scope: last,
            position: Position { line: line_number, offset },
        });
        proof {
            assert(piece.spec_bytes() =~= bytes.subrange(offset as int, clen as int));
            let remaining = lexemes_from(bytes, ln, offsets@, tops@, last, j as int, offset as int);
            assert(views(tokens@.push(token)) =~= views(tokens@) + remaining);
        }
        tokens.push(token);
    } else {
        proof {
            let remaining = lexemes_from(bytes, ln, offsets@, tops@, last, j as int, offset as int);
            assert(views(tokens@) =~= views(tokens@) + remaining);
        }
    }
    tokens
}

/// Each token of `ts` is a nonempty lexeme of line `line` that starts at or
/// after `cur`, and their offsets strictly increase.
pub open spec fn ordered_lexemes(ts: Seq<TokenView>, line: int, cur: int) -> bool {
    &&& forall|i: int|
        0 <= i < ts.len() ==> {
            &&& (#[trigger] ts[i]) is Lexeme
            &&& ts[i]->Lexeme_line == line
            &&& ts[i]->Lexeme_offset >= cur
            &&& ts[i]->Lexeme_value.len() > 0
        }
    &&& forall|i: int, k: int|
        0 <= i < k < ts.len() ==> (#[trigger] ts[i])->Lexeme_offset < (#[trigger] ts[k])->Lexeme_offset
}

/// Whether each lexeme of `ts` is the part of the content of `bytes` that
/// starts at its offset.
pub open spec fn within_content(ts: Seq<TokenView>, bytes: Seq<u8>) -> bool {
    forall|i: int|
        0 <= i < ts.len() && (#[trigger] ts[i]) is Lexeme ==> {
            &&& 0 <= ts[i]->Lexeme_offset
            &&& ts[i]->Lexeme_offset + ts[i]->Lexeme_value.len() <= content_len(bytes)
            &&& ts[i]->Lexeme_value == bytes.subrange(
                ts[i]->Lexeme_offset,
                ts[i]->Lexeme_offset + ts[i]->Lexeme_value.len(),
            )
        }
}

/// The lexemes from any point of a line cover the rest of its content exactly,
/// none of them is empty, and their offsets strictly increase.
pub proof fn lemma_lexemes_cover(
    bytes: Seq<u8>,
    line: int,
    offsets: Seq<usize>,
    tops: Seq<Option<Scope>>,
    last: Option<Scope>,
    j: int,
    cur: int,
)
    requires
        0 <= cur <= content_len(bytes),
    ensures
        flatten(lexemes_from(bytes, line, offsets, tops, last, j, cur)) == bytes.subrange(
            cur,
            content_len(bytes),
        ),
        ordered_lexemes(lexemes_from(bytes, line, offsets, tops, last, j, cur), line, cur),
        within_content(lexemes_from(bytes, line, offsets, tops, last, j, cur), bytes),
    decreases offsets.len() - j,
{
    let l = lexemes_from(bytes, line, offsets, tops, last, j, cur);
    let clen = content_len(bytes);
    if j >= offsets.len() || j < 0 {
        if cur < clen {
            let v = lexeme_view(bytes.subrange(cur, clen), last, line, cur);
            lemma_flatten_single(v);
        } else {
            assert(bytes.subrange(cur, clen) =~= Seq::<u8>::empty());
        }
    } else if cuts_at(bytes, cur, offsets[j] as int) {
        let o = cut_point(bytes, offsets[j] as int);
        let head = seq![lexeme_view(bytes.subrange(cur, o), tops[j], line, cur)];
        let tail = lexemes_from(bytes, line, offsets, tops, last, j + 1, o);
        lemma_lexemes_cover(bytes, line, offsets, tops, last, j + 1, o);
        lemma_flatten_concat(head, tail);
        lemma_flatten_single(head[0]);
        assert(head =~= seq![head[0]]);
        assert(bytes.subrange(cur, clen) =~= bytes.subrange(cur, o) + bytes.subrange(o, clen));
        assert(l == head + tail);
        assert forall|i: int, k: int| 0 <= i < k < l.len() implies (#[trigger] l[i])->Lexeme_offset
            < (#[trigger] l[k])->Lexeme_offset by {
            if i == 0 {
                assert(l[k] == tail[k - 1]);
            } else {
                assert(l[i] == tail[i - 1]);
                assert(l[k] == tail[k - 1]);
            }
        }
        assert forall|i: int| 0 <= i < l.len() implies {
            &&& (#[trigger] l[i]) is Lexeme
            &&& l[i]->Lexeme_line == line
            &&& l[i]->Lexeme_offset >= cur
            &&& l[i]->Lexeme_value.len() > 0
        } by {
            if i > 0 {
                assert(l[i] == tail[i - 1]);
            }
        }
        assert forall|i: int| 0 <= i < l.len() && (#[trigger] l[i]) is Lexeme implies {
            &&& 0 <= l[i]->Lexeme_offset
            &&& l[i]->Lexeme_offset + l[i]->Lexeme_value.len() <= content_len(bytes)
            &&& l[i]->Lexeme_value == bytes.subrange(
                l[i]->Lexeme_offset,
                l[i]->Lexeme_offset + l[i]->Lexeme_value.len(),
            )
        } by {
            if i > 0 {
                assert(l[i] == tail[i - 1]);
            }
        }
    } else {
        lemma_lexemes_cover(bytes, line, offsets, tops, last, j + 1, cur);
    }
}

/// The text of a line's tokens is its content, preceded by the line
/// terminator of the line before unless it is the first line.
pub proof fn lemma_line_round_trip(
    bytes: Seq<u8>,
    line: int,
    offsets: Seq<usize>,
    tops: Seq<Option<Scope>>,
    last: Option<Scope>,
)
    ensures
        flatten(line_tokens_spec(bytes, line, offsets, tops, last)) == (if line > 0 {
            seq![NEWLINE]
        } else {
            Seq::empty()
        }) + bytes.subrange(0, content_len(bytes)),
{
    let nl: Seq<TokenView> = if line > 0 {
        seq![TokenView::Newline]
    } else {
        Seq::empty()
    };
    lemma_lexemes_cover(bytes, line, offsets, tops, last, 0, 0);
    lemma_flatten_concat(nl, lexemes_from(bytes, line, offsets, tops, last, 0, 0));
    if line > 0 {
        lemma_flatten_single(TokenView::Newline);
    }
}

/// A line has one newline token, first, exactly when it is not the first
/// line; every other token is a nonempty lexeme of that line, and their
/// offsets strictly increase.
pub proof fn lemma_line_token_shape(
    bytes: Seq<u8>,
    line: int,
    offsets: Seq<usize>,
    tops: Seq<Option<Scope>>,
    last: Option<Scope>,
)
    ensures
        ({
            let ts = line_tokens_spec(bytes, line, offsets, tops, last);
            let nl: int = if line > 0 { 1 } else { 0 };
            &&& line > 0 ==> ts.len() > 0 && ts[0] is Newline
            &&& ordered_lexemes(ts.subrange(nl, ts.len() as int), line, 0)
            &&& within_content(ts.subrange(nl, ts.len() as int), bytes)
        }),
{
    lemma_lexemes_cover(bytes, line, offsets, tops, last, 0, 0);
    let ts = line_tokens_spec(bytes, line, offsets, tops, last);
    let nl: int = if line > 0 { 1 } else { 0 };
    assert(ts.subrange(nl, ts.len() as int) =~= lexemes_from(bytes, line, offsets, tops, last, 0, 0));
}

/// A line on which no scope changes yields one lexeme over its whole content,
/// with the scope left from before, or none when it has no content.
pub proof fn lemma_unchanged_line_single_lexeme(
    bytes: Seq<u8>,
    line: int,
    last: Option<Scope>,
)
    ensures
        ({
            let ls = lexemes_from(bytes, line, Seq::empty(), Seq::empty(), last, 0, 0);
            &&& content_len(bytes) > 0 ==> ls == seq![
                lexeme_view(bytes.subrange(0, content_len(bytes)), last, line, 0),
            ]
            &&& content_len(bytes) == 0 ==> ls.len() == 0
        }),
{
}

} // verus!
