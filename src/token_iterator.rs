//! The lazy token stream over a whole text.
use crate::line_iterator::LineIterator;
use crate::line_tokens::{
    content_len, lemma_line_round_trip, lemma_line_token_shape, line_tokens, line_tokens_spec,
};
use crate::syntax::{
    apply_all, apply_change, deepest_scope, empty_stack, empty_view, parse_line_changes,
    stack_view, start_parse, top_of, StackView, Syntaxes,
};
use crate::token::{
    flatten, is_nonempty, lemma_flatten_concat, lemma_flatten_single, lemma_newline_count,
    lemma_newline_tokens_concat, lemma_no_newline_tokens, lexemes_without_newline, lines_at_most, newline_bytes, newline_tokens, no_newline,
    positions_increase, starts_before, token_text, views, Token, TokenView, NEWLINE,
};
use syntect::parsing::{ParseState, Scope, ScopeStack, ScopeStackOp};
use vstd::prelude::*;
use vstd::string::StringSliceAdditionalSpecFns;

verus! {

/// The scope changes of a sequence of parser events, in order.
pub open spec fn change_ops(changes: Seq<(usize, ScopeStackOp)>) -> Seq<ScopeStackOp> {
    changes.map_values(|c: (usize, ScopeStackOp)| c.1)
}

/// Applies each scope change to `stack` in order. For each change it records
/// its offset and the deepest scope just before it applies; it returns those
/// with the deepest scope once all have applied. Changes at one offset are all
/// applied, whatever their number.
pub fn apply_changes(stack: &mut ScopeStack, changes: &Vec<(usize, ScopeStackOp)>) -> (r: (
    Vec<usize>,
    Vec<Option<Scope>>,
    Option<Scope>,
))
    ensures
        r.0@.len() == changes@.len(),
        r.1@.len() == changes@.len(),
        forall|j: int| 0 <= j < changes@.len() ==> r.0@[j] == (#[trigger] changes@[j]).0,
        forall|j: int|
            0 <= j < changes@.len() ==> #[trigger] r.1@[j] == top_of(
                apply_all(stack_view(*old(stack)), change_ops(changes@).subrange(0, j)),
            ),
        stack_view(*final(stack)) == apply_all(stack_view(*old(stack)), change_ops(changes@)),
        r.2 == top_of(stack_view(*final(stack))),
{
    let ghost start = stack_view(*stack);
    let ghost ops = change_ops(changes@);
    let mut offsets: Vec<usize> = Vec::new();
    let mut tops: Vec<Option<Scope>> = Vec::new();
    let mut j: usize = 0;
    while j < changes.len()
        invariant
            ops == change_ops(changes@),
            j <= changes@.len(),
            offsets@.len() == j,
            tops@.len() == j,
            forall|k: int| 0 <= k < j ==> offsets@[k] == (#[trigger] changes@[k]).0,
            forall|k: int|
                0 <= k < j ==> #[trigger] tops@[k] == top_of(
                    apply_all(start, ops.subrange(0, k)),
                ),
            stack_view(*stack) == apply_all(start, ops.subrange(0, j as int)),
        decreases changes@.len() - j,
    {
        offsets.push(changes[j].0);
        tops.push(deepest_scope(stack));
        apply_change(stack, &changes[j].1);
        proof {
            assert(ops.subrange(0, j + 1).drop_last() =~= ops.subrange(0, j as int));
        }
        j += 1;
    }
    proof {
        assert(ops.subrange(0, j as int) =~= ops);
    }
    let last = deepest_scope(stack);
    (offsets, tops, last)
}

/// One line as the stream read it: its bytes, terminator included, and the
/// scope changes that the grammar engine reported on it.
pub struct LineRecord {
    pub bytes: Seq<u8>,
    pub changes: Seq<(usize, ScopeStackOp)>,
}

/// The offsets of a sequence of parser events, in order.
pub open spec fn change_offsets(changes: Seq<(usize, ScopeStackOp)>) -> Seq<usize> {
    changes.map_values(|c: (usize, ScopeStackOp)| c.0)
}

/// For each change of `ops`, the deepest scope just before it applies, when
/// the stack is `start` before the first.
pub open spec fn tops_during(start: StackView, ops: Seq<ScopeStackOp>) -> Seq<Option<Scope>> {
    Seq::new(ops.len(), |j: int| top_of(apply_all(start, ops.subrange(0, j))))
}

/// The scope stack when line `k` starts: empty before the first line, and
/// carried from each line to the next.
pub open spec fn stack_before(recs: Seq<LineRecord>, k: int) -> StackView
    decreases k,
{
    if k <= 0 {
        empty_view()
    } else {
        apply_all(stack_before(recs, k - 1), change_ops(recs[k - 1].changes))
    }
}

/// The tokens of line `k`: split at its changes, each lexeme with the deepest
/// scope at its start.
pub open spec fn record_tokens(recs: Seq<LineRecord>, k: int) -> Seq<TokenView> {
    let start = stack_before(recs, k);
    let ops = change_ops(recs[k].changes);
    line_tokens_spec(
        recs[k].bytes,
        k,
        change_offsets(recs[k].changes),
        tops_during(start, ops),
        top_of(apply_all(start, ops)),
    )
}

/// The tokens of the first `n` lines, in order.
pub open spec fn stream_upto(recs: Seq<LineRecord>, n: int) -> Seq<TokenView>
    decreases n,
{
    if n <= 0 {
        Seq::empty()
    } else {
        stream_upto(recs, n - 1) + record_tokens(recs, n - 1)
    }
}

/// The tokens of all the lines read.
pub open spec fn stream_tokens(recs: Seq<LineRecord>) -> Seq<TokenView> {
    stream_upto(recs, recs.len() as int)
}

/// The text of the first `n` lines, in order.
pub open spec fn lines_upto(recs: Seq<LineRecord>, n: int) -> Seq<u8>
    decreases n,
{
    if n <= 0 {
        Seq::empty()
    } else {
        lines_upto(recs, n - 1) + recs[n - 1].bytes
    }
}

/// Reading one more line changes nothing of the lines before it.
proof fn lemma_record_prefix(recs: Seq<LineRecord>, r: LineRecord, n: int)
    requires
        0 <= n <= recs.len(),
    ensures
        stack_before(recs.push(r), n) == stack_before(recs, n),
        stream_upto(recs.push(r), n) == stream_upto(recs, n),
        lines_upto(recs.push(r), n) == lines_upto(recs, n),
    decreases n,
{
    if n > 0 {
        lemma_record_prefix(recs, r, n - 1);
        assert(recs.push(r)[n - 1] == recs[n - 1]);
    }
}

/// A lazy stream of the tokens of a text: each line's lexemes, split where the
/// grammar engine changes the scope, with a newline token between lines.
pub struct TokenIterator<'a> {
    scopes: ScopeStack,
    parser: ParseState,
    syntaxes: &'a Syntaxes,
    line_tokens: Vec<Token<'a>>,
    pos: usize,
    lines: LineIterator<'a>,
    emitted: Ghost<Seq<TokenView>>,
    last_line: Ghost<int>,
    records: Ghost<Seq<LineRecord>>,
}

impl<'a> TokenIterator<'a> {
    /// The text the stream was made from, as bytes.
    pub closed spec fn text(&self) -> Seq<u8> {
        self.lines.text()
    }

    /// The tokens handed out so far.
    pub closed spec fn emitted(&self) -> Seq<TokenView> {
        self.emitted@
    }

    /// Whether every token has been handed out.
    pub closed spec fn is_exhausted(&self) -> bool {
        self.lines.is_done() && self.pos == self.line_tokens@.len()
    }

    /// The lines read so far, with the grammar's changes on each.
    pub closed spec fn records(&self) -> Seq<LineRecord> {
        self.records@
    }

    /// The text of the lines read so far, in order.
    pub closed spec fn lines_read(&self) -> Seq<u8> {
        lines_upto(self.records@, self.records@.len() as int)
    }

    /// The text not yet read as lines.
    pub closed spec fn unread(&self) -> Seq<u8> {
        self.lines.rest()
    }

    /// The scope stack as it stands.
    pub closed spec fn stack(&self) -> StackView {
        stack_view(self.scopes)
    }

    /// The tokens of the current line not yet handed out.
    pub closed spec fn buffered(&self) -> Seq<TokenView> {
        views(self.line_tokens@).subrange(self.pos as int, self.line_tokens@.len() as int)
    }

    /// The tokens handed out, those buffered and the lines still to come stand
    /// for the whole text; lexeme positions increase, no lexeme holds a line
    /// terminator, and every buffered token stands for some text. The tokens
    /// handed out and buffered are those of the lines read, and the scope
    /// stack is the one those lines left.
    pub closed spec fn wf(&self) -> bool {
        &&& self.lines.wf()
        &&& self.pos <= self.line_tokens@.len()
        &&& flatten(self.emitted@) + flatten(self.buffered()) + self.lines.pending()
            == self.lines.text()
        &&& !self.lines.is_done() ==> self.lines.next_line() == self.last_line@ + 1
        &&& positions_increase(self.emitted@ + self.buffered())
        &&& lines_at_most(self.emitted@ + self.buffered(), self.last_line@)
        &&& lexemes_without_newline(self.emitted@ + self.buffered())
        &&& forall|i: int|
            0 <= i < self.line_tokens@.len() ==> is_nonempty(#[trigger] self.line_tokens@[i]@)
        &&& self.records@.len() == self.last_line@ + 1
        &&& stack_view(self.scopes) == stack_before(self.records@, self.records@.len() as int)
        &&& self.emitted@ + self.buffered() == stream_tokens(self.records@)
        &&& lines_upto(self.records@, self.records@.len() as int) + self.lines.rest()
            == self.lines.text()
    }

    /// A stream over `data`, parsed with the syntax that claims the file
    /// extension `extension`; `None` exactly when no syntax claims it. The
    /// stream starts before the first line, with an empty scope stack and
    /// nothing buffered.
    pub fn new(data: &'a str, syntaxes: &'a Syntaxes, extension: &str) -> (r: Option<Self>)
        ensures
            r is Some <==> syntaxes.has_syntax(extension@),
            r matches Some(it) ==> {
                &&& it.wf()
                &&& it.text() == data.spec_bytes()
                &&& it.emitted() == Seq::<TokenView>::empty()
                &&& it.buffered() == Seq::<TokenView>::empty()
                &&& it.records() == Seq::<LineRecord>::empty()
                &&& it.stack() == empty_view()
                &&& it.lines_read() + it.unread() == it.text()
                &&& it.unread() == it.text()
                &&& !it.is_exhausted()
            },
    {
        let parser = match start_parse(syntaxes, extension) {
            Some(p) => p,
            None => return None,
        };
        let r = TokenIterator {
            scopes: empty_stack(),
            parser,
            syntaxes,
            line_tokens: Vec::new(),
            pos: 0,
            lines: LineIterator::new(data),
            emitted: Ghost(Seq::empty()),
            last_line: Ghost(-1),
            records: Ghost(Seq::empty()),
        };
        proof {
            assert(r.buffered() =~= Seq::<TokenView>::empty());
            assert(r.emitted@ + r.buffered() =~= Seq::<TokenView>::empty());
            assert(flatten(Seq::<TokenView>::empty()) + flatten(Seq::<TokenView>::empty())
                + data.spec_bytes() =~= data.spec_bytes());
            assert(Seq::<u8>::empty() + data.spec_bytes() =~= data.spec_bytes());
        }
        Some(r)
    }

    /// Reads the next line, if any, and fills the buffer with its tokens.
    /// Returns whether there was a line.
    #[verifier::rlimit(40)]
    fn parse_next_line(&mut self) -> (read: bool)
        requires
            old(self).wf(),
            old(self).pos == old(self).line_tokens@.len(),
        ensures
            final(self).wf(),
            final(self).text() == old(self).text(),
            final(self).emitted() == old(self).emitted(),
            !read ==> *final(self) == *old(self),
            read <==> !old(self).is_exhausted(),
            read ==> final(self).lines.lines_left() < old(self).lines.lines_left(),
            final(self).records().len() >= old(self).records().len(),
            final(self).records().subrange(0, old(self).records().len() as int)
                == old(self).records(),
    {
        let ghost old_lines = self.lines;
        match self.lines.next() {
            None => false,
            Some((number, line)) => {
                let changes = match parse_line_changes(&mut self.parser, line, self.syntaxes) {
                    Ok(v) => v,
                    Err(_) => Vec::new(),
                };
                let (offsets, tops, last) = apply_changes(&mut self.scopes, &changes);
                let tokens = line_tokens(line, number, &offsets, &tops, last);
                proof {
                    let b = line.spec_bytes();
                    let ts = line_tokens_spec(b, number as int, offsets@, tops@, last);
                    lemma_line_round_trip(b, number as int, offsets@, tops@, last);
                    lemma_line_token_shape(b, number as int, offsets@, tops@, last);
                    let nl: int = if number > 0 { 1 } else { 0 };
                    assert forall|i: int| 0 <= i < tokens@.len() implies is_nonempty(
                        #[trigger] tokens@[i]@,
                    ) by {
                        assert(views(tokens@)[i] == tokens@[i]@);
                        if i >= nl {
                            assert(ts.subrange(nl, ts.len() as int)[i - nl] == ts[i]);
                        }
                    }
                    assert(views(tokens@).subrange(0, tokens@.len() as int) =~= views(tokens@));
                    let head: Seq<u8> = if number > 0 { seq![NEWLINE] } else { Seq::empty() };
                    if self.lines.is_done() {
                        assert(b.subrange(0, content_len(b)) =~= b);
                        assert(head + b + self.lines.pending() =~= old_lines.pending());
                    } else {
                        assert(b.drop_last() =~= b.subrange(0, content_len(b)));
                        assert(head + b.drop_last() + self.lines.pending() =~= old_lines.pending());
                    }
                    assert(self.buffered() =~= Seq::<TokenView>::empty());
                    assert(flatten(Seq::<TokenView>::empty()) =~= Seq::<u8>::empty());
                    assert(flatten(self.emitted@) + Seq::<u8>::empty() =~= flatten(self.emitted@));
                }
                let ghost e = self.emitted@;
                let ghost prev_line = self.last_line@;
                let ghost recs = self.records@;
                let ghost rec = LineRecord { bytes: line.spec_bytes(), changes: changes@ };
                let ghost k = recs.len() as int;
                proof {
                    lemma_record_prefix(recs, rec, k);
                    let nrecs = recs.push(rec);
                    assert(nrecs[k] == rec);
                    let ops = change_ops(changes@);
                    assert(offsets@ =~= change_offsets(changes@));
                    assert(tops@ =~= tops_during(stack_before(nrecs, k), ops));
                    assert(views(tokens@) == record_tokens(nrecs, k));
                    assert(stream_upto(nrecs, k + 1) == stream_upto(recs, k) + record_tokens(nrecs, k));
                    assert(lines_upto(nrecs, k + 1) == lines_upto(recs, k) + rec.bytes);
                    assert(lines_upto(recs, k) + old_lines.rest() == self.lines.text());
                    assert(lines_upto(nrecs, k + 1) + self.lines.rest() =~= lines_upto(recs, k) + (
                    rec.bytes + self.lines.rest()));
                }
                proof {
                    let b = line.spec_bytes();
                    let ts = line_tokens_spec(b, number as int, offsets@, tops@, last);
                    let nl: int = if number > 0 { 1 } else { 0 };
                    let lx = ts.subrange(nl, ts.len() as int);
                    assert(old(self).buffered() =~= Seq::<TokenView>::empty());
                    assert(e + Seq::<TokenView>::empty() =~= e);
                    assert(views(tokens@).subrange(0, tokens@.len() as int) =~= ts);
                    let all = e + ts;
                    assert forall|i: int, k: int|
                        0 <= i < k < all.len() && (#[trigger] all[i]) is Lexeme
                            && (#[trigger] all[k]) is Lexeme implies starts_before(all[i], all[k]) by {
                        if k >= e.len() {
                            assert(all[k] == lx[k - e.len() - nl]);
                            if i >= e.len() {
                                assert(all[i] == lx[i - e.len() - nl]);
                            } else {
                                assert(all[i] == e[i]);
                            }
                        } else {
                            assert(all[i] == e[i]);
                            assert(all[k] == e[k]);
                        }
                    }
                    assert forall|k: int| 0 <= k < content_len(b) implies b[k] != NEWLINE by {
                        if !self.lines.is_done() {
                            assert(b.drop_last()[k] == b[k]);
                        }
                    }
                    assert forall|i: int| 0 <= i < all.len() && (#[trigger] all[i]) is Lexeme
                        implies no_newline(all[i]->Lexeme_value) by {
                        if i >= e.len() {
                            let v = lx[i - e.len() - nl];
                            assert(all[i] == v);
                            assert forall|m: int| 0 <= m < v->Lexeme_value.len() implies v->Lexeme_value[m]
                                != NEWLINE by {
                                assert(v->Lexeme_value[m] == b[v->Lexeme_offset + m]);
                            }
                        } else {
                            assert(all[i] == e[i]);
                        }
                    }
                    assert forall|i: int| 0 <= i < all.len() && (#[trigger] all[i]) is Lexeme
                        implies all[i]->Lexeme_line <= number as int by {
                        if i >= e.len() {
                            assert(all[i] == lx[i - e.len() - nl]);
                        } else {
                            assert(all[i] == e[i]);
                        }
                    }
                }
                self.line_tokens = tokens;
                self.pos = 0;
                self.last_line = Ghost(number as int);
                self.records = Ghost(recs.push(rec));
                assert(self.records@.subrange(0, k) =~= recs);
                proof {
                    assert(self.emitted@ + self.buffered() =~= e + line_tokens_spec(
                        line.spec_bytes(),
                        number as int,
                        offsets@,
                        tops@,
                        last,
                    ));
                    assert(flatten(self.emitted@) + flatten(self.buffered())
                        + self.lines.pending() =~= flatten(self.emitted@) + (flatten(
                        self.buffered(),
                    ) + self.lines.pending()));
                }
                true
            },
        }
    }

    /// The next token of the text, or `None` once all have been handed out;
    /// pulling again after that keeps giving `None`. With tokens of the current
    /// line left it hands out the first of them and reads no line; otherwise it
    /// reads lines until one yields tokens. When the grammar engine reports an
    /// error on a line, that line counts as having no scope changes, and any
    /// changes it had reported on it are dropped. Every token stands for at
    /// least one byte of the text, and the stream ends exactly when the tokens
    /// handed out stand for the whole text.
    pub fn next(&mut self) -> (r: Option<Token<'a>>)
        requires
            old(self).wf(),
        ensures
            final(self).wf(),
            final(self).text() == old(self).text(),
            match r {
                Some(t) => {
                    &&& final(self).emitted() == old(self).emitted().push(t@)
                    &&& is_nonempty(t@)
                },
                None => {
                    &&& final(self).emitted() == old(self).emitted()
                    &&& final(self).is_exhausted()
                },
            },
            r is None <==> flatten(old(self).emitted()) == old(self).text(),
            old(self).is_exhausted() ==> r is None && *final(self) == *old(self),
            final(self).emitted() + final(self).buffered() == stream_tokens(final(self).records()),
            final(self).stack() == stack_before(
                final(self).records(),
                final(self).records().len() as int,
            ),
            final(self).records().len() >= old(self).records().len(),
            final(self).records().subrange(0, old(self).records().len() as int)
                == old(self).records(),
            final(self).lines_read() + final(self).unread() == final(self).text(),
            old(self).buffered().len() > 0 ==> {
                &&& r matches Some(t) && t@ == old(self).buffered()[0]
                &&& final(self).buffered() == old(self).buffered().drop_first()
                &&& final(self).records() == old(self).records()
                &&& final(self).stack() == old(self).stack()
            },
    {
        while self.pos >= self.line_tokens.len()
            invariant
                self.wf(),
                self.text() == old(self).text(),
                self.emitted() == old(self).emitted(),
                old(self).is_exhausted() ==> *self == *old(self),
                self.records().len() >= old(self).records().len(),
                self.records().subrange(0, old(self).records().len() as int)
                    == old(self).records(),
                old(self).buffered().len() > 0 ==> *self == *old(self),
            decreases self.lines.lines_left(),
        {
            if !self.parse_next_line() {
                proof {
                    assert(self.buffered() =~= Seq::<TokenView>::empty());
                    assert(flatten(self.emitted@) + flatten(Seq::<TokenView>::empty())
                        + Seq::<u8>::empty() =~= flatten(self.emitted@));
                }
                return None;
            }
        }
        let t = self.line_tokens[self.pos];
        let ghost buf = self.buffered();
        let ghost before = flatten(self.emitted@);
        let ghost old_all = self.emitted@ + buf;
        proof {
            assert(buf =~= seq![t@] + buf.subrange(1, buf.len() as int));
            lemma_flatten_concat(seq![t@], buf.subrange(1, buf.len() as int));
            lemma_flatten_single(t@);
            lemma_flatten_concat(self.emitted@, seq![t@]);
            assert(self.emitted@ + seq![t@] =~= self.emitted@.push(t@));
        }
        self.pos = self.pos + 1;
        self.emitted = Ghost(self.emitted@.push(t@));
        proof {
            assert(self.buffered() =~= buf.subrange(1, buf.len() as int));
            assert(self.emitted@ + self.buffered() =~= old_all);
            assert(flatten(self.emitted@) == before + token_text(t@));
            assert(flatten(buf) == token_text(t@) + flatten(self.buffered()));
            assert(flatten(self.emitted@) + flatten(self.buffered()) + self.lines.pending() =~= before
                + flatten(buf) + self.lines.pending());
        }
        Some(t)
    }
}

/// Once a stream is exhausted, the text of its lexemes, with a line terminator
/// for each newline token, is the text it was made from.
pub proof fn lemma_round_trip(it: &TokenIterator)
    requires
        it.wf(),
        it.is_exhausted(),
    ensures
        flatten(it.emitted()) == it.text(),
{
    assert(it.buffered() =~= Seq::<TokenView>::empty());
    assert(flatten(it.emitted()) + flatten(Seq::<TokenView>::empty()) + Seq::<u8>::empty()
        =~= flatten(it.emitted()));
}

/// The lexemes a stream hands out start at strictly increasing positions, in
/// order of line and then of offset within a line.
pub proof fn lemma_positions_increase(it: &TokenIterator)
    requires
        it.wf(),
    ensures
        positions_increase(it.emitted()),
{
    let all = it.emitted@ + it.buffered();
    assert forall|i: int, k: int|
        0 <= i < k < it.emitted@.len() && (#[trigger] it.emitted@[i]) is Lexeme
            && (#[trigger] it.emitted@[k]) is Lexeme implies starts_before(
        it.emitted@[i],
        it.emitted@[k],
    ) by {
        assert(all[i] == it.emitted@[i]);
        assert(all[k] == it.emitted@[k]);
    }
}

/// An exhausted stream has handed out one newline token for each line
/// terminator of its text, and so one for each move from a line to the next.
pub proof fn lemma_newline_per_line_break(it: &TokenIterator)
    requires
        it.wf(),
        it.is_exhausted(),
    ensures
        newline_tokens(it.emitted()) == newline_bytes(it.text()),
{
    lemma_round_trip(it);
    let all = it.emitted@ + it.buffered();
    assert(all =~= it.emitted@) by {
        assert(it.buffered() =~= Seq::<TokenView>::empty());
    }
    lemma_newline_count(it.emitted@);
}

/// In the tokens of the lines read, each lexeme's line number is the number
/// of newline tokens before it: none comes before the first line, and one
/// before each later line.
pub proof fn lemma_line_is_newlines_before(recs: Seq<LineRecord>, n: int)
    requires
        0 <= n <= recs.len(),
    ensures
        newline_tokens(stream_upto(recs, n)) == if n > 0 { n - 1 } else { 0 },
        forall|i: int|
            0 <= i < stream_upto(recs, n).len() && (#[trigger] stream_upto(recs, n)[i]) is Lexeme
                ==> stream_upto(recs, n)[i]->Lexeme_line == newline_tokens(
                stream_upto(recs, n).subrange(0, i),
            ),
    decreases n,
{
    if n > 0 {
        lemma_line_is_newlines_before(recs, n - 1);
        let s = stream_upto(recs, n - 1);
        let t = record_tokens(recs, n - 1);
        let all = stream_upto(recs, n);
        assert(all == s + t);
        let rec = recs[n - 1];
        let start = stack_before(recs, n - 1);
        let ops = change_ops(rec.changes);
        let offs = change_offsets(rec.changes);
        let tops = tops_during(start, ops);
        let last = top_of(apply_all(start, ops));
        lemma_line_token_shape(rec.bytes, n - 1, offs, tops, last);
        let nl: int = if n - 1 > 0 { 1 } else { 0 };
        let lx = t.subrange(nl, t.len() as int);
        assert forall|m: int| 0 <= m < lx.len() implies (#[trigger] lx[m]) is Lexeme by {}
        lemma_no_newline_tokens(lx);
        let one = seq![t[0]];
        if nl == 1 {
            assert(t[0] is Newline);
            assert(one.drop_last() =~= Seq::<TokenView>::empty());
            assert(newline_tokens(one.drop_last()) == 0);
            assert(newline_tokens(one) == 1);
            assert(t =~= one + lx);
            lemma_newline_tokens_concat(one, lx);
        } else {
            assert(t =~= lx);
        }
        lemma_newline_tokens_concat(s, t);
        assert forall|i: int| 0 <= i < all.len() && (#[trigger] all[i]) is Lexeme implies all[i]->Lexeme_line
            == newline_tokens(all.subrange(0, i)) by {
            if i < s.len() {
                assert(all[i] == s[i]);
                assert(all.subrange(0, i) =~= s.subrange(0, i));
            } else {
                let m = i - s.len();
                assert(all[i] == t[m]);
                assert(m >= nl);
                assert(t[m] == lx[m - nl]);
                let tp = t.subrange(0, m);
                assert(all.subrange(0, i) =~= s + tp);
                lemma_newline_tokens_concat(s, tp);
                let lp = lx.subrange(0, m - nl);
                assert forall|q: int| 0 <= q < lp.len() implies (#[trigger] lp[q]) is Lexeme by {
                    assert(lp[q] == lx[q]);
                }
                lemma_no_newline_tokens(lp);
                assert(lx[m - nl]->Lexeme_line == n - 1);
                if nl == 1 {
                    assert(tp =~= one + lp);
                    lemma_newline_tokens_concat(one, lp);
                } else {
                    assert(tp =~= lp);
                }
            }
        }
    }
}

} // verus!
