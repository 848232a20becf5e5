//! CRLF line framing: buffering an arbitrarily chunked byte stream into
//! discrete lines, each ending at (and including) the first CRLF found since
//! the previous line.

use vstd::prelude::*;

verus! {

/// Position right after the first CRLF pair at or after index `i`, if any.
pub open spec fn first_crlf_end(b: Seq<u8>, i: int) -> Option<int>
    decreases b.len() - i,
{
    if i < 0 || i + 2 > b.len() {
        None
    } else if b[i] == 13 && b[i + 1] == 10 {
        Some(i + 2)
    } else {
        first_crlf_end(b, i + 1)
    }
}

pub proof fn lemma_first_crlf_end_bounds(b: Seq<u8>, i: int)
    ensures
        match first_crlf_end(b, i) {
            Some(n) => i + 2 <= n <= b.len() && b[n - 2] == 13 && b[n - 1] == 10,
            None => true,
        },
    decreases b.len() - i,
{
    if i < 0 || i + 2 > b.len() {
    } else if b[i] == 13 && b[i + 1] == 10 {
    } else {
        lemma_first_crlf_end_bounds(b, i + 1);
    }
}

/// The complete (CRLF-terminated) lines at the front of `b`, in order.
pub open spec fn split_lines(b: Seq<u8>) -> Seq<Seq<u8>>
    decreases b.len(),
    via split_lines_decreases
{
    match first_crlf_end(b, 0) {
        Some(n) => seq![b.take(n)] + split_lines(b.skip(n)),
        None => Seq::empty(),
    }
}

#[via_fn]
proof fn split_lines_decreases(b: Seq<u8>) {
    lemma_first_crlf_end_bounds(b, 0);
}

/// The partial trailing line of `b`: what is left after every complete line.
pub open spec fn split_rest(b: Seq<u8>) -> Seq<u8>
    decreases b.len(),
    via split_rest_decreases
{
    match first_crlf_end(b, 0) {
        Some(n) => split_rest(b.skip(n)),
        None => b,
    }
}

#[via_fn]
proof fn split_rest_decreases(b: Seq<u8>) {
    lemma_first_crlf_end_bounds(b, 0);
}

/// A proper line: its one and only CRLF pair sits exactly at its end.
pub open spec fn proper_line(l: Seq<u8>) -> bool {
    first_crlf_end(l, 0) == Some(l.len() as int)
}

proof fn lemma_first_crlf_end_concat(l: Seq<u8>, rest: Seq<u8>, i: int)
    requires
        0 <= i,
        first_crlf_end(l, i) == Some(l.len() as int),
    ensures
        first_crlf_end(l + rest, i) == Some(l.len() as int),
    decreases l.len() - i,
{
    lemma_first_crlf_end_bounds(l, i);
    if l[i] == 13 && l[i + 1] == 10 {
        assert(first_crlf_end(l + rest, i) == Some(i + 2));
    } else {
        lemma_first_crlf_end_concat(l, rest, i + 1);
    }
}

/// Splitting a stream that starts with a proper line yields that line first.
pub proof fn lemma_split_lines_prepend_line(l: Seq<u8>, rest: Seq<u8>)
    requires
        proper_line(l),
    ensures
        split_lines(l + rest) == seq![l] + split_lines(rest),
        split_rest(l + rest) == split_rest(rest),
{
    lemma_first_crlf_end_concat(l, rest, 0);
    assert((l + rest).take(l.len() as int) =~= l);
    assert((l + rest).skip(l.len() as int) =~= rest);
}

proof fn lemma_split_lines_flatten(lines: Seq<Seq<u8>>, tail: Seq<u8>)
    requires
        forall|i: int| 0 <= i < lines.len() ==> proper_line(#[trigger] lines[i]),
    ensures
        split_lines(lines.flatten() + tail) == lines + split_lines(tail),
        split_rest(lines.flatten() + tail) == split_rest(tail),
    decreases lines.len(),
{
    if lines.len() == 0 {
        assert(lines.flatten() + tail =~= tail);
        assert(split_lines(tail) =~= lines + split_lines(tail));
    } else {
        let first = lines[0];
        let rest = lines.drop_first();
        assert(lines.flatten() == first + rest.flatten());
        assert(lines.flatten() + tail =~= first + (rest.flatten() + tail));
        lemma_split_lines_prepend_line(first, rest.flatten() + tail);
        lemma_split_lines_flatten(rest, tail);
        assert(seq![first] + (rest + split_lines(tail)) =~= lines + split_lines(tail));
    }
}

/// An incremental CRLF line framer.
///
/// Bytes are fed in chunks of arbitrary size; complete lines are pulled out
/// one at a time. The ghost input records every byte ever fed, so the
/// contracts state that what comes out depends only on the concatenation of
/// the chunks, never on how the input was cut.
pub struct CrlfLines {
    buf: Vec<u8>,
    inp: Ghost<Seq<u8>>,
    lines: Ghost<Seq<Seq<u8>>>,
}

impl CrlfLines {
    /// Every byte ever fed to the framer, in order.
    pub closed spec fn input(self) -> Seq<u8> {
        self.inp@
    }

    /// Every line already handed out, in order.
    pub closed spec fn delivered(self) -> Seq<Seq<u8>> {
        self.lines@
    }

    /// The bytes fed but not yet handed out as lines.
    pub closed spec fn buffered(self) -> Seq<u8> {
        self.buf@
    }

    pub closed spec fn wf(self) -> bool {
        &&& self.inp@ == self.lines@.flatten() + self.buf@
        &&& forall|i: int| 0 <= i < self.lines@.len() ==> proper_line(#[trigger] self.lines@[i])
    }

    /// The lines handed out so far are exactly the first lines of the input,
    /// and the buffer holds the rest of the input.
    pub proof fn lemma_delivered_prefix(self)
        requires
            self.wf(),
        ensures
            split_lines(self.input()) == self.delivered() + split_lines(self.buffered()),
            split_rest(self.input()) == split_rest(self.buffered()),
    {
        lemma_split_lines_flatten(self.lines@, self.buf@);
    }

    pub fn new() -> (r: CrlfLines)
        ensures
            r.wf(),
            r.input() == Seq::<u8>::empty(),
            r.delivered() == Seq::<Seq<u8>>::empty(),
            r.buffered() == Seq::<u8>::empty(),
    {
        let r = CrlfLines { buf: Vec::new(), inp: Ghost(Seq::empty()), lines: Ghost(Seq::empty()) };
        proof {
            assert(r.lines@.flatten() + r.buf@ =~= Seq::<u8>::empty());
        }
        r
    }

    /// Feed one chunk of bytes. No line is consumed or produced here.
    pub fn push_chunk(&mut self, chunk: &[u8])
        requires
            old(self).wf(),
        ensures
            final(self).wf(),
            final(self).input() == old(self).input() + chunk@,
            final(self).delivered() == old(self).delivered(),
            final(self).buffered() == old(self).buffered() + chunk@,
    {
        let ghost old_buf = self.buf@;
        let mut j: usize = 0;
        while j < chunk.len()
            invariant
                j <= chunk.len(),
                self.buf@ == old_buf + chunk@.take(j as int),
                self.inp@ == old(self).inp@,
                self.lines@ == old(self).lines@,
            decreases chunk.len() - j,
        {
            self.buf.push(chunk[j]);
            proof {
                assert(old_buf + chunk@.take(j as int) + seq![chunk@[j as int]]
                    =~= old_buf + chunk@.take(j + 1));
            }
            j += 1;
        }
        proof {
            assert(chunk@.take(chunk@.len() as int) =~= chunk@);
        }
        self.inp = Ghost(self.inp@ + chunk@);
        proof {
            assert(self.lines@.flatten() + (old_buf + chunk@)
                =~= (self.lines@.flatten() + old_buf) + chunk@);
        }
    }

    /// Pull the next complete line, CRLF included, if one is buffered.
    pub fn next_line(&mut self) -> (r: Option<Vec<u8>>)
        requires
            old(self).wf(),
        ensures
            final(self).wf(),
            final(self).input() == old(self).input(),
            match r {
                Some(l) => {
                    &&& final(self).delivered() == old(self).delivered().push(l@)
                    &&& old(self).delivered().len() < split_lines(old(self).input()).len()
                    &&& l@ == split_lines(old(self).input())[old(self).delivered().len() as int]
                    &&& proper_line(l@)
                    &&& old(self).buffered() == l@ + final(self).buffered()
                    &&& l@.len() >= 2
                },
                None => {
                    &&& *final(self) == *old(self)
                    &&& split_lines(old(self).input()).len() == old(self).delivered().len()
                },
            },
    {
        let n_opt = find_crlf_end(&self.buf);
        match n_opt {
            None => {
                proof {
                    self.lemma_delivered_prefix();
                }
                None
            },
            Some(n) => {
                proof {
                    lemma_first_crlf_end_bounds(old(self).buf@, 0);
                }
                let rest = self.buf.split_off(n);
                let mut line = rest;
                core::mem::swap(&mut self.buf, &mut line);
                proof {
                    let b = old(self).buf@;
                    lemma_first_crlf_end_take(b, 0, n as int);
                    assert(line@ == b.take(n as int));
                    assert(proper_line(line@));
                    assert(self.buf@ == b.skip(n as int));
                    old(self).lemma_delivered_prefix();
                    assert(split_lines(b) == seq![b.take(n as int)] + split_lines(b.skip(n as int)));
                    self.lines = Ghost(self.lines@.push(line@));
                    Seq::lemma_flatten_push(old(self).lines@, line@);
                    assert(self.lines@.flatten() + self.buf@
                        =~= (old(self).lines@.flatten() + line@) + b.skip(n as int));
                    assert(line@ + b.skip(n as int) =~= b);
                    assert(self.lines@.flatten() + self.buf@
                        =~= old(self).lines@.flatten() + b);
                    assert(self.wf());
                    self.lemma_delivered_prefix();
                    assert((self.delivered() + split_lines(self.buffered()))[old(self).delivered().len() as int]
                        == line@);
                }
                Some(line)
            },
        }
    }

    /// Reclaim the buffered, not-yet-framed bytes (to hand the raw stream to
    /// the DATA transcoder). Consumes the framer.
    pub fn underlying(self) -> (r: Vec<u8>)
        ensures
            r@ == self.buffered(),
    {
        self.buf
    }
}

proof fn lemma_first_crlf_end_take(b: Seq<u8>, i: int, n: int)
    requires
        0 <= i,
        first_crlf_end(b, i) == Some(n),
    ensures
        first_crlf_end(b.take(n), i) == Some(n),
    decreases b.len() - i,
{
    lemma_first_crlf_end_bounds(b, i);
    if b[i] == 13 && b[i + 1] == 10 {
        assert(b.take(n)[i] == 13 && b.take(n)[i + 1] == 10);
    } else {
        lemma_first_crlf_end_take(b, i + 1, n);
        assert(b.take(n)[i] == b[i] && b.take(n)[i + 1] == b[i + 1]);
    }
}

/// Scan for the first CRLF pair; return the index just past it.
fn find_crlf_end(buf: &Vec<u8>) -> (r: Option<usize>)
    ensures
        match r {
            Some(n) => first_crlf_end(buf@, 0) == Some(n as int),
            None => first_crlf_end(buf@, 0).is_none(),
        },
{
    if buf.len() < 2 {
        return None;
    }
    let mut i: usize = 0;
    while i <= buf.len() - 2
        invariant
            buf.len() >= 2,
            i <= buf.len() - 1,
            first_crlf_end(buf@, 0) == first_crlf_end(buf@, i as int),
        decreases buf.len() - i,
    {
        if buf[i] == 13 && buf[i + 1] == 10 {
            return Some(i + 2);
        }
        i += 1;
    }
    None
}

/// Law: the sequence of lines a framer produces, and the trailing partial
/// line, depend only on the bytes fed in, never on how they were chunked or
/// on how many lines have been pulled so far.
pub proof fn lemma_framing_chunk_invariant(f1: CrlfLines, f2: CrlfLines)
    requires
        f1.wf(),
        f2.wf(),
        f1.input() == f2.input(),
    ensures
        f1.delivered() + split_lines(f1.buffered()) == f2.delivered() + split_lines(f2.buffered()),
        split_rest(f1.buffered()) == split_rest(f2.buffered()),
{
    f1.lemma_delivered_prefix();
    f2.lemma_delivered_prefix();
}

} // verus!
