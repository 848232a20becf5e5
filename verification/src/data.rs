//! The DATA-phase transcoder: a streaming transducer that removes RFC 5321
//! dot-stuffing from a chunked byte stream, detects the body terminator, and
//! keeps every byte that follows the terminator for the caller to resume on.
//!
//! The reference semantics works on the whole input at once. Prefixing the
//! stream with a virtual CRLF makes the start of the stream an ordinary line
//! start, so one rule covers both the `.\r\n` empty body and a terminator in
//! the middle: the body ends at the first `\r\n.\r\n` window of the prefixed
//! stream, and inside the body every `.` standing right after a CRLF is
//! dropped.

use vstd::prelude::*;

verus! {

/// The input stream with the virtual CRLF that precedes its first line.
pub open spec fn with_preamble(b: Seq<u8>) -> Seq<u8> {
    seq![13u8, 10u8] + b
}

/// A full terminator window `\r\n.\r\n` starts at `q`.
pub open spec fn is_term_at(c: Seq<u8>, q: int) -> bool {
    &&& 0 <= q
    &&& q + 5 <= c.len()
    &&& c[q] == 13
    &&& c[q + 1] == 10
    &&& c[q + 2] == 46
    &&& c[q + 3] == 13
    &&& c[q + 4] == 10
}

/// The first terminator window at or after `i`, if any.
pub open spec fn first_term_from(c: Seq<u8>, i: int) -> Option<int>
    decreases c.len() - i,
{
    if i < 0 || i + 5 > c.len() {
        None
    } else if is_term_at(c, i) {
        Some(i)
    } else {
        first_term_from(c, i + 1)
    }
}

/// Where the terminator of stream `b` starts, in preamble coordinates.
pub open spec fn term_pos(b: Seq<u8>) -> Option<int> {
    first_term_from(with_preamble(b), 0)
}

/// Whether stream `b` contains a body terminator.
pub open spec fn terminated(b: Seq<u8>) -> bool {
    term_pos(b).is_some()
}

/// The unstuffed content of `c[2..end)`: every byte is kept except a `.`
/// standing right after a CRLF.
pub open spec fn unstuff_upto(c: Seq<u8>, end: int) -> Seq<u8>
    decreases end,
{
    if end <= 2 {
        Seq::empty()
    } else if c[end - 3] == 13 && c[end - 2] == 10 && c[end - 1] == 46 {
        unstuff_upto(c, end - 1)
    } else {
        unstuff_upto(c, end - 1) + seq![c[end - 1]]
    }
}

/// The unstuffed message body of a terminated stream.
pub open spec fn body_of(b: Seq<u8>) -> Seq<u8> {
    match term_pos(b) {
        Some(q) => unstuff_upto(with_preamble(b), q + 2),
        None => Seq::empty(),
    }
}

/// The bytes after the terminator of a terminated stream.
pub open spec fn remainder_of(b: Seq<u8>) -> Seq<u8> {
    match term_pos(b) {
        Some(q) => with_preamble(b).skip(q + 5),
        None => Seq::empty(),
    }
}

/// How far the tail of the scanned stream has got into a terminator window.
enum ScanState {
    /// In the middle of a line.
    Mid,
    /// The last byte was a CR (not one of the cases below).
    Cr,
    /// At a line start: the stream so far ends with CRLF.
    CrLf,
    /// The stream ends with CRLF `.`; the dot is not resolved yet.
    CrLfDot,
    /// The stream ends with CRLF `.` CR; one byte decides termination.
    CrLfDotCr,
    /// The terminator has been seen; later bytes go to the remainder.
    Done,
}

/// The scan state that a stream ending like `c` must be in.
spec fn suffix_state(c: Seq<u8>) -> ScanState {
    let n = c.len() as int;
    if n >= 4 && c[n - 4] == 13 && c[n - 3] == 10 && c[n - 2] == 46 && c[n - 1] == 13 {
        ScanState::CrLfDotCr
    } else if n >= 3 && c[n - 3] == 13 && c[n - 2] == 10 && c[n - 1] == 46 {
        ScanState::CrLfDot
    } else if n >= 2 && c[n - 2] == 13 && c[n - 1] == 10 {
        ScanState::CrLf
    } else if n >= 1 && c[n - 1] == 13 {
        ScanState::Cr
    } else {
        ScanState::Mid
    }
}

/// Bytes held back by a state: a trailing CR after a line-start dot is
/// neither output nor discarded until the next byte decides.
spec fn held_back(s: ScanState) -> int {
    if s == ScanState::CrLfDotCr {
        1int
    } else {
        0int
    }
}

/// The streaming dot-unstuffer.
///
/// Chunks of arbitrary size are fed in; the ghost input records their
/// concatenation. Every contract speaks only of that concatenation, so the
/// results cannot depend on how the stream was cut into chunks.
pub struct DataStream {
    state: ScanState,
    out: Vec<u8>,
    rem: Vec<u8>,
    inp: Ghost<Seq<u8>>,
}

impl DataStream {
    /// Every byte ever fed to the transducer, in order.
    pub closed spec fn input(self) -> Seq<u8> {
        self.inp@
    }

    pub closed spec fn wf(self) -> bool {
        let c = with_preamble(self.inp@);
        let n = c.len() as int;
        match first_term_from(c, 0) {
            Some(q) => {
                &&& self.state == ScanState::Done
                &&& self.out@ == unstuff_upto(c, q + 2)
                &&& self.rem@ == c.skip(q + 5)
            },
            None => {
                &&& self.state == suffix_state(c)
                &&& self.state != ScanState::Done
                &&& self.out@ == unstuff_upto(c, n - held_back(self.state))
                &&& self.rem@ == Seq::<u8>::empty()
            },
        }
    }

    pub fn new() -> (r: DataStream)
        ensures
            r.wf(),
            r.input() == Seq::<u8>::empty(),
    {
        let r = DataStream {
            state: ScanState::CrLf,
            out: Vec::new(),
            rem: Vec::new(),
            inp: Ghost(Seq::empty()),
        };
        proof {
            let c = with_preamble(r.inp@);
            assert(c.len() == 2);
            assert(first_term_from(c, 0).is_none());
            assert(r.state == suffix_state(c));
        }
        r
    }

    /// Feed one more byte of the raw stream.
    fn push_byte(&mut self, x: u8)
        requires
            old(self).wf(),
        ensures
            final(self).wf(),
            final(self).input() == old(self).input().push(x),
    {
        proof {
            self.inp = Ghost(self.inp@.push(x));
        }
        let ghost c = with_preamble(old(self).inp@);
        let ghost cx = with_preamble(self.inp@);
        let ghost n = c.len() as int;
        proof {
            assert(cx =~= c.push(x));
            lemma_unstuff_prefix(c, cx, n - 1);
            lemma_unstuff_prefix(c, cx, n);
        }
        match self.state {
            ScanState::Done => {
                self.rem.push(x);
                proof {
                    let q = first_term_from(c, 0)->Some_0;
                    lemma_first_term_bounds(c, 0);
                    lemma_first_term_push(c, x, 0, q);
                    lemma_unstuff_prefix(c, cx, q + 2);
                    assert(cx.skip(q + 5) =~= c.skip(q + 5).push(x));
                }
            },
            ScanState::Mid => {
                self.out.push(x);
                self.state = if x == 13 {
                    ScanState::Cr
                } else {
                    ScanState::Mid
                };
                proof {
                    lemma_no_new_term(c, x);
                    assert(unstuff_upto(cx, n + 1) == unstuff_upto(cx, n) + seq![x]);
                    assert(self.out@ =~= unstuff_upto(cx, n + 1));
                    assert(self.wf());
                }
            },
            ScanState::Cr => {
                self.out.push(x);
                self.state = if x == 10 {
                    ScanState::CrLf
                } else if x == 13 {
                    ScanState::Cr
                } else {
                    ScanState::Mid
                };
                proof {
                    lemma_no_new_term(c, x);
                    assert(unstuff_upto(cx, n + 1) == unstuff_upto(cx, n) + seq![x]);
                    assert(self.out@ =~= unstuff_upto(cx, n + 1));
                    assert(self.wf());
                }
            },
            ScanState::CrLf => {
                if x == 46 {
                    self.state = ScanState::CrLfDot;
                } else {
                    self.out.push(x);
                    self.state = if x == 13 {
                        ScanState::Cr
                    } else {
                        ScanState::Mid
                    };
                }
                proof {
                    lemma_no_new_term(c, x);
                    if x == 46 {
                        assert(unstuff_upto(cx, n + 1) == unstuff_upto(cx, n));
                        assert(self.out@ =~= unstuff_upto(cx, n + 1));
                    } else {
                        assert(unstuff_upto(cx, n + 1) == unstuff_upto(cx, n) + seq![x]);
                        assert(self.out@ =~= unstuff_upto(cx, n + 1));
                    }
                    assert(self.wf());
                }
            },
            ScanState::CrLfDot => {
                if x == 13 {
                    self.state = ScanState::CrLfDotCr;
                } else {
                    self.out.push(x);
                    self.state = ScanState::Mid;
                }
                proof {
                    lemma_no_new_term(c, x);
                    if x == 13 {
                        assert(self.out@ =~= unstuff_upto(cx, n + 1 - 1));
                    } else {
                        assert(unstuff_upto(cx, n + 1) == unstuff_upto(cx, n) + seq![x]);
                        assert(self.out@ =~= unstuff_upto(cx, n + 1));
                    }
                    assert(self.wf());
                }
            },
            ScanState::CrLfDotCr => {
                if x == 10 {
                    self.state = ScanState::Done;
                    proof {
                        assert(is_term_at(cx, n - 4));
                        lemma_none_means_no_term(c, 0);
                        assert forall|r: int| r < n - 4 implies !is_term_at(cx, r) by {
                            if 0 <= r {
                                assert(!is_term_at(c, r));
                                assert(is_term_at(cx, r) ==> is_term_at(c, r));
                            }
                        }
                        lemma_first_term_unique(cx, n - 4);
                        assert(self.out@ == unstuff_upto(c, n - 1));
                        assert(unstuff_upto(cx, n - 2) == unstuff_upto(c, n - 2)) by {
                            lemma_unstuff_prefix(c, cx, n - 2);
                        }
                        assert(unstuff_upto(c, n - 1) == unstuff_upto(c, n - 2));
                        assert(cx.skip((n - 4) + 5) =~= Seq::<u8>::empty());
                        assert(self.wf());
                    }
                } else {
                    self.out.push(13);
                    self.out.push(x);
                    self.state = if x == 13 {
                        ScanState::Cr
                    } else {
                        ScanState::Mid
                    };
                    proof {
                        lemma_no_new_term(c, x);
                        assert(self.out@ == unstuff_upto(c, n - 1) + seq![13u8] + seq![x]);
                        assert(unstuff_upto(cx, n) == unstuff_upto(cx, n - 1) + seq![cx[n - 1]]);
                        assert(unstuff_upto(cx, n + 1) == unstuff_upto(cx, n) + seq![x]);
                        assert(self.out@ =~= unstuff_upto(cx, n + 1));
                        assert(self.wf());
                    }
                }
            },
        }
    }

    /// Feed one chunk of the raw stream.
    pub fn push_chunk(&mut self, chunk: &[u8])
        requires
            old(self).wf(),
        ensures
            final(self).wf(),
            final(self).input() == old(self).input() + chunk@,
    {
        let mut j: usize = 0;
        while j < chunk.len()
            invariant
                j <= chunk.len(),
                self.wf(),
                self.input() == old(self).input() + chunk@.take(j as int),
            decreases chunk.len() - j,
        {
            self.push_byte(chunk[j]);
            proof {
                assert((old(self).input() + chunk@.take(j as int)).push(chunk@[j as int])
                    =~= old(self).input() + chunk@.take(j + 1));
            }
            j += 1;
        }
        proof {
            assert(old(self).input() + chunk@.take(chunk@.len() as int)
                =~= old(self).input() + chunk@);
        }
    }

    /// Whether the terminator has been seen in the bytes fed so far.
    pub fn is_terminated(&self) -> (r: bool)
        requires
            self.wf(),
        ensures
            r == terminated(self.input()),
    {
        match self.state {
            ScanState::Done => true,
            _ => false,
        }
    }

    /// The unstuffed body and the unconsumed bytes after the terminator.
    pub fn into_parts(self) -> (r: (Vec<u8>, Vec<u8>))
        requires
            self.wf(),
            terminated(self.input()),
        ensures
            r.0@ == body_of(self.input()),
            r.1@ == remainder_of(self.input()),
    {
        (self.out, self.rem)
    }

    /// The unstuffed body seen so far.
    pub fn body(&self) -> (r: &Vec<u8>)
        requires
            self.wf(),
            terminated(self.input()),
        ensures
            r@ == body_of(self.input()),
    {
        &self.out
    }
}

/// Pushing a byte onto a stream with no terminator cannot complete one,
/// except when the stream ends with CRLF `.` CR and the byte is LF.
proof fn lemma_no_new_term(c: Seq<u8>, x: u8)
    requires
        c.len() >= 2,
        first_term_from(c, 0).is_none(),
        !(suffix_state(c) == ScanState::CrLfDotCr && x == 10),
    ensures
        first_term_from(c.push(x), 0).is_none(),
{
    let cx = c.push(x);
    let n = c.len() as int;
    assert forall|r: int| true implies !is_term_at(cx, r) by {
        lemma_none_means_no_term(c, 0);
        if 0 <= r && r + 5 <= n {
            assert(!is_term_at(c, r));
            assert(is_term_at(cx, r) ==> is_term_at(c, r));
        } else if r == n - 4 {
            assert(is_term_at(cx, r) ==> suffix_state(c) == ScanState::CrLfDotCr && x == 10);
        }
    }
    lemma_no_term_means_none(cx, 0);
}

/// A found terminator lies within the stream.
pub proof fn lemma_first_term_bounds(c: Seq<u8>, i: int)
    ensures
        match first_term_from(c, i) {
            Some(q) => i <= q && q + 5 <= c.len() && is_term_at(c, q),
            None => true,
        },
    decreases c.len() - i,
{
    if i < 0 || i + 5 > c.len() {
    } else if is_term_at(c, i) {
    } else {
        lemma_first_term_bounds(c, i + 1);
    }
}

/// `first_term_from` returning `None` means there is no terminator at all.
proof fn lemma_none_means_no_term(c: Seq<u8>, i: int)
    requires
        first_term_from(c, i).is_none(),
        0 <= i,
    ensures
        forall|r: int| i <= r ==> !#[trigger] is_term_at(c, r),
    decreases c.len() - i,
{
    if i + 5 > c.len() {
    } else if is_term_at(c, i) {
    } else {
        lemma_none_means_no_term(c, i + 1);
    }
}

/// With no terminator anywhere, `first_term_from` returns `None`.
proof fn lemma_no_term_means_none(c: Seq<u8>, i: int)
    requires
        forall|r: int| !#[trigger] is_term_at(c, r),
        0 <= i,
    ensures
        first_term_from(c, i).is_none(),
    decreases c.len() - i,
{
    if i + 5 > c.len() {
    } else {
        lemma_no_term_means_none(c, i + 1);
    }
}

/// A terminator with none before it is the one `first_term_from` finds.
proof fn lemma_first_term_unique(c: Seq<u8>, q: int)
    requires
        is_term_at(c, q),
        forall|r: int| r < q ==> !#[trigger] is_term_at(c, r),
    ensures
        first_term_from(c, 0) == Some(q),
{
    lemma_first_term_unique_from(c, 0, q);
}

proof fn lemma_first_term_unique_from(c: Seq<u8>, i: int, q: int)
    requires
        0 <= i <= q,
        is_term_at(c, q),
        forall|r: int| i <= r < q ==> !#[trigger] is_term_at(c, r),
    ensures
        first_term_from(c, i) == Some(q),
    decreases q - i,
{
    if i < q {
        lemma_first_term_unique_from(c, i + 1, q);
    }
}

/// The first terminator survives cutting the stream right after it.
pub proof fn lemma_first_term_take(c: Seq<u8>, i: int, q: int)
    requires
        0 <= i,
        first_term_from(c, i) == Some(q),
    ensures
        first_term_from(c.take(q + 5), i) == Some(q),
    decreases c.len() - i,
{
    lemma_first_term_bounds(c, i);
    if is_term_at(c, i) {
        assert(is_term_at(c.take(q + 5), i));
    } else {
        lemma_first_term_take(c, i + 1, q);
        assert(!is_term_at(c.take(q + 5), i));
    }
}

/// The first terminator does not move when a byte is appended.
proof fn lemma_first_term_push(c: Seq<u8>, x: u8, i: int, q: int)
    requires
        0 <= i,
        first_term_from(c, i) == Some(q),
    ensures
        first_term_from(c.push(x), i) == Some(q),
    decreases c.len() - i,
{
    if is_term_at(c, i) {
        assert(is_term_at(c.push(x), i));
    } else if i + 5 <= c.len() {
        lemma_first_term_push(c, x, i + 1, q);
        assert(!is_term_at(c.push(x), i));
    }
}

/// Unstuffing only reads the stream below `end`.
proof fn lemma_unstuff_prefix(c: Seq<u8>, cx: Seq<u8>, end: int)
    requires
        c.len() <= cx.len(),
        forall|i: int| 0 <= i < c.len() ==> c[i] == #[trigger] cx[i],
        end <= c.len(),
    ensures
        unstuff_upto(c, end) == unstuff_upto(cx, end),
    decreases end,
{
    if end > 2 {
        lemma_unstuff_prefix(c, cx, end - 1);
    }
}

/// Law: the transducer's outcome is a function of the concatenated input
/// alone. Two transducers fed the same bytes in different chunkings agree on
/// termination, on the unstuffed body, and on the remainder.
pub proof fn lemma_transcode_chunk_invariant(t1: DataStream, t2: DataStream)
    requires
        t1.wf(),
        t2.wf(),
        t1.input() == t2.input(),
    ensures
        terminated(t1.input()) == terminated(t2.input()),
        body_of(t1.input()) == body_of(t2.input()),
        remainder_of(t1.input()) == remainder_of(t2.input()),
{
}

/// Position `i` of a body is a line start: the body's first byte, or a byte
/// right after a CRLF.
pub open spec fn at_line_start(s: Seq<u8>, i: int) -> bool {
    i == 0 || (i >= 2 && s[i - 2] == 13 && s[i - 1] == 10)
}

/// The dot-stuffed form of the first `i` bytes of a body: a `.` opening a
/// line is doubled, every other byte passes through.
pub open spec fn stuff_upto(s: Seq<u8>, i: int) -> Seq<u8>
    decreases i,
{
    if i <= 0 {
        Seq::empty()
    } else if s[i - 1] == 46 && at_line_start(s, i - 1) {
        stuff_upto(s, i - 1) + seq![46u8, 46u8]
    } else {
        stuff_upto(s, i - 1) + seq![s[i - 1]]
    }
}

/// The dot-stuffed form of a whole body.
pub open spec fn stuffed(s: Seq<u8>) -> Seq<u8> {
    stuff_upto(s, s.len() as int)
}

/// The wire form of a DATA body: the stuffed body followed by the
/// terminator line `.` CRLF.
pub open spec fn stuffed_wire(s: Seq<u8>) -> Seq<u8> {
    stuffed(s) + seq![46u8, 13u8, 10u8]
}

proof fn lemma_stuff_invariant(s: Seq<u8>, i: int)
    requires
        0 <= i <= s.len(),
    ensures
        ({
            let cs = seq![13u8, 10u8] + stuff_upto(s, i);
            let e = cs.len() as int;
            &&& unstuff_upto(cs, e) == s.take(i)
            &&& ((cs[e - 2] == 13 && cs[e - 1] == 10) <==> at_line_start(s, i))
            &&& !(e >= 3 && cs[e - 3] == 13 && cs[e - 2] == 10 && cs[e - 1] == 46)
            &&& forall|j: int|
                3 <= j < e ==> !(cs[j - 3] == 13 && cs[j - 2] == 10 && cs[j - 1] == 46
                    && #[trigger] cs[j] == 13)
        }),
    decreases i,
{
    if i == 0 {
        let cs = seq![13u8, 10u8] + stuff_upto(s, 0);
        assert(cs =~= seq![13u8, 10u8]);
        assert(unstuff_upto(cs, 2) =~= s.take(0));
    } else {
        lemma_stuff_invariant(s, i - 1);
        let co = seq![13u8, 10u8] + stuff_upto(s, i - 1);
        let eo = co.len() as int;
        let cs = seq![13u8, 10u8] + stuff_upto(s, i);
        let e = cs.len() as int;
        let v = s[i - 1];
        if v == 46 && at_line_start(s, i - 1) {
            assert(cs =~= co + seq![46u8, 46u8]);
            lemma_unstuff_prefix(co, cs, eo);
            assert(unstuff_upto(cs, eo + 1) == unstuff_upto(cs, eo));
            assert(unstuff_upto(cs, e) == unstuff_upto(cs, eo + 1) + seq![46u8]);
            assert(unstuff_upto(cs, e) =~= s.take(i));
        } else {
            assert(cs =~= co + seq![v]);
            lemma_unstuff_prefix(co, cs, eo);
            assert(!(cs[e - 3] == 13 && cs[e - 2] == 10 && cs[e - 1] == 46
                && at_line_start(s, i - 1)));
            if cs[e - 3] == 13 && cs[e - 2] == 10 && cs[e - 1] == 46 {
                assert(at_line_start(s, i - 1));
                assert(false);
            }
            assert(unstuff_upto(cs, e) == unstuff_upto(cs, eo) + seq![v]);
            assert(unstuff_upto(cs, e) =~= s.take(i));
        }
    }
}

/// Law: dot round-trip. For every body that is empty or ends with a CRLF,
/// stuffing it and appending the terminator line yields a terminated stream
/// whose unstuffed body is exactly the original and whose remainder is
/// empty. (A body whose last line lacks its CRLF does not round-trip: no
/// bare terminator can follow it, so the stream never terminates.)
pub proof fn lemma_stuff_roundtrip(s: Seq<u8>)
    requires
        s.len() == 0 || (s.len() >= 2 && s[s.len() - 2] == 13 && s[s.len() - 1] == 10),
    ensures
        terminated(stuffed_wire(s)),
        body_of(stuffed_wire(s)) == s,
        remainder_of(stuffed_wire(s)) == Seq::<u8>::empty(),
{
    let t = stuffed(s);
    let l = t.len() as int;
    let cs = seq![13u8, 10u8] + t;
    let c = with_preamble(stuffed_wire(s));
    lemma_stuff_invariant(s, s.len() as int);
    assert(c =~= cs + seq![46u8, 13u8, 10u8]);
    assert(at_line_start(s, s.len() as int));
    assert(is_term_at(c, l));
    assert forall|r: int| r < l implies !is_term_at(c, r) by {
        if 0 <= r {
            if r + 5 <= l + 2 {
                assert(c[r] == cs[r] && c[r + 1] == cs[r + 1] && c[r + 2] == cs[r + 2]
                    && c[r + 3] == cs[r + 3]);
                assert(is_term_at(c, r) ==> cs[r + 3] == 13 && cs[r + 2] == 46
                    && cs[r + 1] == 10 && cs[r] == 13);
            } else {
                assert(r == l - 1 || r == l - 2);
                assert(cs[l] == 13 && cs[l + 1] == 10);
            }
        }
    }
    lemma_first_term_unique(c, l);
    lemma_unstuff_prefix(cs, c, l + 2);
    assert(s.take(s.len() as int) =~= s);
    assert(c.skip(l + 5) =~= Seq::<u8>::empty());
}

/// Dot-stuff a body for the wire: double every `.` that opens a line and
/// append the terminator line `.` CRLF.
pub fn dot_stuff(body: &[u8]) -> (r: Vec<u8>)
    ensures
        r@ == stuffed_wire(body@),
{
    let mut out: Vec<u8> = Vec::new();
    let mut at_ls: bool = true;
    let mut i: usize = 0;
    while i < body.len()
        invariant
            i <= body.len(),
            out@ == stuff_upto(body@, i as int),
            at_ls == at_line_start(body@, i as int),
        decreases body.len() - i,
    {
        let b = body[i];
        if b == 46 && at_ls {
            out.push(46);
            out.push(46);
            proof {
                assert(out@ =~= stuff_upto(body@, i + 1));
            }
        } else {
            out.push(b);
            proof {
                assert(out@ =~= stuff_upto(body@, i + 1));
            }
        }
        at_ls = i >= 1 && b == 10 && body[i - 1] == 13;
        i += 1;
    }
    out.push(46);
    out.push(13);
    out.push(10);
    proof {
        assert(body@.take(body@.len() as int) =~= body@);
        assert(out@ =~= stuffed_wire(body@));
    }
    out
}

} // verus!
