//! Splitting a text into numbered lines, each with its terminator.
use crate::token::{no_newline, NEWLINE};
use vstd::prelude::*;
use vstd::string::StringSliceAdditionalSpecFns;
use vstd::utf8::{
    encode_utf8_valid_utf8, is_char_boundary, is_char_boundary_start_end_of_seq,
    is_continuation_byte, length_of_first_scalar, pop_first_scalar, valid_utf8,
};

verus! {

/// A forward-only source of the lines of a text. Each line but the last ends
/// with `\n`; the last one holds what follows the last `\n`, and is empty when
/// the text ends with one.
pub struct LineIterator<'a> {
    rest: &'a str,
    next_line: usize,
    done: bool,
    text: Ghost<Seq<u8>>,
}

/// In valid UTF-8, the byte after a line terminator starts a character.
proof fn lemma_boundary_after_newline(b: Seq<u8>, i: int)
    requires
        valid_utf8(b),
        0 <= i < b.len(),
        b[i] == NEWLINE,
    ensures
        is_char_boundary(b, i + 1),
    decreases b.len(),
{
    let w = length_of_first_scalar(b);
    if i >= w {
        let tail = pop_first_scalar(b);
        assert(tail[i - w] == b[i]);
        lemma_boundary_after_newline(tail, i - w);
    } else if i > 0 {
        assert(is_continuation_byte(b[i]));
    } else {
        let tail = pop_first_scalar(b);
        assert(is_char_boundary(tail, 0));
    }
}

impl<'a> LineIterator<'a> {
    /// The text as given at construction.
    pub closed spec fn text(&self) -> Seq<u8> {
        self.text@
    }

    /// The number that the next line will carry.
    pub closed spec fn next_line(&self) -> int {
        self.next_line as int
    }

    /// Whether every line has been handed out.
    pub closed spec fn is_done(&self) -> bool {
        self.done
    }

    /// The text not yet handed out as lines.
    pub closed spec fn rest(&self) -> Seq<u8> {
        self.rest.spec_bytes()
    }

    /// A measure that each line handed out lowers.
    pub open spec fn lines_left(&self) -> nat {
        self.rest().len() + if self.is_done() { 0nat } else { 1nat }
    }

    /// The text that the lines still to come stand for, counting the
    /// terminator of the line before as the start of the next one.
    pub open spec fn pending(&self) -> Seq<u8> {
        if self.is_done() {
            Seq::empty()
        } else if self.next_line() > 0 {
            seq![NEWLINE] + self.rest()
        } else {
            self.rest()
        }
    }

    /// The rest of the text is a suffix of the text, and a line number never
    /// exceeds the number of bytes handed out, so it cannot overflow.
    pub closed spec fn wf(&self) -> bool {
        &&& self.text@.len() <= usize::MAX
        &&& self.rest.spec_bytes().len() <= self.text@.len()
        &&& self.rest.spec_bytes() == self.text@.subrange(
            self.text@.len() - self.rest.spec_bytes().len(),
            self.text@.len() as int,
        )
        &&& self.next_line <= self.text@.len() - self.rest.spec_bytes().len()
        &&& self.done ==> self.rest.spec_bytes().len() == 0
    }

    pub fn new(data: &'a str) -> (r: Self)
        ensures
            r.wf(),
            r.text() == data.spec_bytes(),
            r.next_line() == 0,
            !r.is_done(),
            r.rest() == data.spec_bytes(),
            r.pending() == data.spec_bytes(),
    {
        let _n = data.as_bytes().len();
        let r = LineIterator { rest: data, next_line: 0, done: false, text: Ghost(data.spec_bytes()) };
        assert(r.rest.spec_bytes() =~= r.text@.subrange(0, r.text@.len() as int));
        r
    }

    /// The next line and its number. A line ends with its first `\n`; the
    /// last line, which holds none, is handed out even when it is empty.
    pub fn next(&mut self) -> (r: Option<(usize, &'a str)>)
        requires
            old(self).wf(),
        ensures
            final(self).wf(),
            final(self).text() == old(self).text(),
            match r {
                None => old(self).is_done() && *final(self) == *old(self),
                Some((n, l)) => {
                    &&& !old(self).is_done()
                    &&& n == old(self).next_line()
                    &&& l.spec_bytes() + final(self).rest() == old(self).rest()
                    &&& if final(self).is_done() {
                        &&& no_newline(l.spec_bytes())
                        &&& final(self).rest().len() == 0
                    } else {
                        &&& l.spec_bytes().len() > 0
                        &&& l.spec_bytes().last() == NEWLINE
                        &&& no_newline(l.spec_bytes().drop_last())
                        &&& final(self).next_line() == n + 1
                    }
                },
            },
            r is Some ==> final(self).lines_left() < old(self).lines_left(),
    {
        if self.done {
            return None;
        }
        let bytes = self.rest.as_bytes();
        let n = bytes.len();
        let mut i: usize = 0;
        while i < n && bytes[i] != NEWLINE
            invariant
                bytes@ == self.rest.spec_bytes(),
                n == bytes@.len(),
                i <= n,
                no_newline(bytes@.subrange(0, i as int)),
            decreases n - i,
        {
            assert(bytes@.subrange(0, i + 1) =~= bytes@.subrange(0, i as int).push(bytes@[i as int]));
            i += 1;
        }
        let number = self.next_line;
        if i < n {
            proof {
                encode_utf8_valid_utf8(self.rest@);
                lemma_boundary_after_newline(bytes@, i as int);
            }
            let (line, tail) = self.rest.split_at(i + 1);
            proof {
                assert(line.spec_bytes().drop_last() =~= bytes@.subrange(0, i as int));
                assert(line.spec_bytes() + tail.spec_bytes() =~= bytes@);
                assert(tail.spec_bytes() =~= self.text@.subrange(
                    self.text@.len() - tail.spec_bytes().len(),
                    self.text@.len() as int,
                ));
            }
            self.rest = tail;
            self.next_line = number + 1;
            Some((number, line))
        } else {
            let line = self.rest;
            proof {
                encode_utf8_valid_utf8(self.rest@);
                is_char_boundary_start_end_of_seq(bytes@);
            }
            let (_, tail) = self.rest.split_at(n);
            proof {
                assert(bytes@.subrange(0, i as int) =~= bytes@);
                assert(tail.spec_bytes() =~= Seq::<u8>::empty());
                assert(line.spec_bytes() + tail.spec_bytes() =~= bytes@);
                assert(tail.spec_bytes() =~= self.text@.subrange(
                    self.text@.len() as int,
                    self.text@.len() as int,
                ));
            }
            self.rest = tail;
            self.done = true;
            Some((number, line))
        }
    }
}

} // verus!
