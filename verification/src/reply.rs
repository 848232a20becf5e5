//! Reply codes, reply lines, and their wire encoding.
//!
//! A reply line goes out as `<3-digit code><marker><text><CRLF>`, where the
//! marker is `-` on every line of a multi-line reply but the last, and a
//! space on the last. A full line is at most 512 bytes, which leaves
//! [`MAX_LEN`] bytes for the text.

use vstd::prelude::*;

use crate::util::copy_range;

verus! {

/// Longest text one reply line may carry: 512 bytes for the whole line,
/// minus three code digits, one marker and the CRLF.
pub const MAX_LEN: usize = 506;

/// Reply text may hold only horizontal tab and printable ASCII.
pub open spec fn valid_text_byte(b: u8) -> bool {
    b == 9 || (32 <= b && b <= 126)
}

pub open spec fn valid_text(t: Seq<u8>) -> bool {
    forall|i: int| 0 <= i < t.len() ==> valid_text_byte(#[trigger] t[i])
}

/// A three-digit SMTP reply code.
#[derive(Clone, Copy, Debug, PartialEq, Eq, Structural)]
pub struct ReplyCode {
    code: u16,
}

impl ReplyCode {
    /// Every reply code has exactly three digits.
    #[verifier::type_invariant]
    pub closed spec fn inv(self) -> bool {
        100 <= self.code <= 999
    }

    pub closed spec fn spec_code(self) -> int {
        self.code as int
    }

    pub fn code(&self) -> (r: u16)
        ensures
            r == self.spec_code(),
            100 <= r <= 999,
    {
        proof {
            use_type_invariant(self);
        }
        self.code
    }

    /// A code of the caller's choosing; `None` unless it has three digits.
    pub fn new(code: u16) -> (r: Option<ReplyCode>)
        ensures
            match r {
                Some(c) => c.spec_code() == code && 100 <= code <= 999,
                None => !(100 <= code <= 999),
            },
    {
        if 100 <= code && code <= 999 {
            Some(ReplyCode { code })
        } else {
            None
        }
    }

    /// 250: the requested action was taken.
    pub fn okay() -> (r: ReplyCode)
        ensures
            r.spec_code() == 250,
    {
        ReplyCode { code: 250 }
    }

    /// 354: go ahead, send the message body.
    pub fn data_okay() -> (r: ReplyCode)
        ensures
            r.spec_code() == 354,
    {
        ReplyCode { code: 354 }
    }

    /// 500: the command line was not recognized.
    pub fn command_unrecognized() -> (r: ReplyCode)
        ensures
            r.spec_code() == 500,
    {
        ReplyCode { code: 500 }
    }

    /// 502: the command is recognized but not implemented.
    pub fn command_unimplemented() -> (r: ReplyCode)
        ensures
            r.spec_code() == 502,
    {
        ReplyCode { code: 502 }
    }

    /// 503: bad sequence of commands.
    pub fn bad_sequence() -> (r: ReplyCode)
        ensures
            r.spec_code() == 503,
    {
        ReplyCode { code: 503 }
    }

    /// 550: the policy refused the request.
    pub fn policy_reason() -> (r: ReplyCode)
        ensures
            r.spec_code() == 550,
    {
        ReplyCode { code: 550 }
    }
}

/// Whether a reply line is the last of its reply.
#[derive(Clone, Copy, Debug, PartialEq, Eq, Structural)]
pub enum IsLastLine {
    Yes,
    No,
}

/// Why a reply line could not be built.
#[derive(Clone, Copy, Debug, PartialEq, Eq, Structural)]
pub enum BuildError {
    /// The text holds a byte outside horizontal tab and printable ASCII.
    InvalidTextByte,
    /// The text does not fit on one line.
    TextTooLong,
}

/// The wire bytes of one reply line.
pub open spec fn wire_of(code: int, last: bool, text: Seq<u8>) -> Seq<u8> {
    seq![
        (48 + code / 100) as u8,
        (48 + (code / 10) % 10) as u8,
        (48 + code % 10) as u8,
        (if last { 32u8 } else { 45u8 }),
    ] + text + seq![13u8, 10u8]
}

/// The wire bytes of a whole reply: the text split into chunks of at most
/// [`MAX_LEN`] bytes, every chunk but the last marked as a continuation.
pub open spec fn reply_wire(code: int, text: Seq<u8>) -> Seq<u8>
    decreases text.len(),
{
    if text.len() <= MAX_LEN {
        wire_of(code, true, text)
    } else {
        wire_of(code, false, text.take(MAX_LEN as int)) + reply_wire(code, text.skip(MAX_LEN as int))
    }
}

/// The texts of a sequence of reply lines, in order.
pub open spec fn texts_of(v: Seq<ReplyLine>) -> Seq<Seq<u8>> {
    v.map_values(|l: ReplyLine| l.spec_text())
}

/// One line of a reply: code, continuation marker, and its slice of text.
#[derive(Debug, PartialEq, Eq)]
pub struct ReplyLine {
    code: ReplyCode,
    is_last: IsLastLine,
    text: Vec<u8>,
}

impl ReplyLine {
    pub closed spec fn spec_code(self) -> int {
        self.code.spec_code()
    }

    pub closed spec fn spec_is_last(self) -> bool {
        self.is_last == IsLastLine::Yes
    }

    pub closed spec fn spec_text(self) -> Seq<u8> {
        self.text@
    }

    /// Valid text that fits on one line.
    pub open spec fn wf(self) -> bool {
        valid_text(self.spec_text()) && self.spec_text().len() <= MAX_LEN
    }

    /// Build one reply line, refusing text that no line may carry.
    pub fn build(code: ReplyCode, is_last: IsLastLine, text: Vec<u8>) -> (r: Result<
        ReplyLine,
        BuildError,
    >)
        ensures
            match r {
                Ok(l) => {
                    &&& l.wf()
                    &&& l.spec_code() == code.spec_code()
                    &&& l.spec_is_last() == (is_last == IsLastLine::Yes)
                    &&& l.spec_text() == text@
                },
                Err(BuildError::InvalidTextByte) => !valid_text(text@),
                Err(BuildError::TextTooLong) => valid_text(text@) && text@.len() > MAX_LEN,
            },
    {
        if !check_text(text.as_slice()) {
            Err(BuildError::InvalidTextByte)
        } else if text.len() > MAX_LEN {
            Err(BuildError::TextTooLong)
        } else {
            Ok(ReplyLine { code, is_last, text })
        }
    }

    pub fn code(&self) -> (r: ReplyCode)
        ensures
            r.spec_code() == self.spec_code(),
    {
        self.code
    }

    pub fn is_last(&self) -> (r: IsLastLine)
        ensures
            (r == IsLastLine::Yes) == self.spec_is_last(),
    {
        self.is_last
    }

    pub fn text(&self) -> (r: &Vec<u8>)
        ensures
            r@ == self.spec_text(),
    {
        &self.text
    }

    /// Append this line's wire encoding to `w`.
    pub fn send_to(&self, w: &mut Vec<u8>)
        ensures
            final(w)@ == old(w)@ + wire_of(self.spec_code(), self.spec_is_last(), self.spec_text()),
    {
        let last = match self.is_last {
            IsLastLine::Yes => true,
            IsLastLine::No => false,
        };
        append_wire(w, self.code, last, self.text.as_slice());
    }
}

/// Whether every byte may appear in reply text.
fn check_text(text: &[u8]) -> (r: bool)
    ensures
        r == valid_text(text@),
{
    let mut i: usize = 0;
    while i < text.len()
        invariant
            i <= text.len(),
            forall|j: int| 0 <= j < i ==> valid_text_byte(#[trigger] text@[j]),
        decreases text.len() - i,
    {
        let b = text[i];
        if !(b == 9 || (32 <= b && b <= 126)) {
            return false;
        }
        i += 1;
    }
    true
}

/// Append the wire encoding of one reply line to `out`.
fn append_wire(out: &mut Vec<u8>, code: ReplyCode, last: bool, text: &[u8])
    ensures
        final(out)@ == old(out)@ + wire_of(code.spec_code(), last, text@),
{
    proof {
        use_type_invariant(&code);
    }
    let c = code.code();
    out.push((48 + c / 100) as u8);
    out.push((48 + (c / 10) % 10) as u8);
    out.push((48 + c % 10) as u8);
    out.push(if last { 32 } else { 45 });
    let ghost head = out@;
    let mut i: usize = 0;
    while i < text.len()
        invariant
            i <= text.len(),
            out@ == head + text@.take(i as int),
        decreases text.len() - i,
    {
        out.push(text[i]);
        proof {
            assert(head + text@.take(i as int) + seq![text@[i as int]]
                =~= head + text@.take(i + 1));
        }
        i += 1;
    }
    out.push(13);
    out.push(10);
    proof {
        assert(text@.take(text@.len() as int) =~= text@);
        assert(out@ =~= old(out)@ + wire_of(code.spec_code(), last, text@));
    }
}

/// Split a reply text into its lines.
///
/// Every produced line carries at most [`MAX_LEN`] bytes of text, all lines
/// carry the given code, exactly the last is marked last, and the texts of
/// all lines in order concatenate back to the given text.
pub fn build_reply(code: ReplyCode, text: &[u8]) -> (r: Result<Vec<ReplyLine>, BuildError>)
    ensures
        match r {
            Ok(v) => {
                &&& valid_text(text@)
                &&& v@.len() >= 1
                &&& forall|i: int| 0 <= i < v@.len() ==> (#[trigger] v@[i]).wf()
                &&& forall|i: int|
                    0 <= i < v@.len() ==> (#[trigger] v@[i]).spec_code() == code.spec_code()
                &&& forall|i: int|
                    0 <= i < v@.len() ==> ((#[trigger] v@[i]).spec_is_last() <==> i == v@.len() - 1)
                &&& texts_of(v@).flatten() == text@
            },
            Err(e) => !valid_text(text@) && e == BuildError::InvalidTextByte,
        },
{
    if !check_text(text) {
        return Err(BuildError::InvalidTextByte);
    }
    let mut v: Vec<ReplyLine> = Vec::new();
    let mut pos: usize = 0;
    proof {
        assert(texts_of(v@) =~= Seq::<Seq<u8>>::empty());
        assert(texts_of(v@).flatten() =~= text@.take(0));
    }
    loop
        invariant
            pos <= text@.len(),
            valid_text(text@),
            texts_of(v@).flatten() == text@.take(pos as int),
            pos < text@.len() || (pos == 0 && text@.len() == 0),
            forall|i: int| 0 <= i < v@.len() ==> (#[trigger] v@[i]).wf(),
            forall|i: int| 0 <= i < v@.len() ==> (#[trigger] v@[i]).spec_code() == code.spec_code(),
            forall|i: int| 0 <= i < v@.len() ==> !(#[trigger] v@[i]).spec_is_last(),
        decreases text@.len() - pos,
    {
        let remaining = text.len() - pos;
        let ghost old_lines = v@;
        if remaining > MAX_LEN {
            let chunk = copy_range(text, pos, pos + MAX_LEN);
            let line = ReplyLine { code, is_last: IsLastLine::No, text: chunk };
            v.push(line);
            proof {
                assert(v@ == old_lines.push(line));
                assert(texts_of(v@) =~~= texts_of(old_lines).push(line.spec_text()));
                Seq::lemma_flatten_push(texts_of(old_lines), line.spec_text());
                assert(text@.take(pos as int) + text@.subrange(pos as int, pos + MAX_LEN)
                    =~= text@.take(pos + MAX_LEN));
            }
            pos += MAX_LEN;
        } else {
            let chunk = copy_range(text, pos, text.len());
            let line = ReplyLine { code, is_last: IsLastLine::Yes, text: chunk };
            v.push(line);
            proof {
                assert(v@ == old_lines.push(line));
                assert(texts_of(v@) =~~= texts_of(old_lines).push(line.spec_text()));
                Seq::lemma_flatten_push(texts_of(old_lines), line.spec_text());
                assert(text@.take(pos as int) + text@.subrange(pos as int, text@.len() as int)
                    =~= text@);
            }
            return Ok(v);
        }
    }
}

/// Append the whole wire encoding of one reply (possibly several lines) to
/// `out`. Fails, leaving `out` untouched, exactly when the text holds a
/// byte that reply text may not carry; text of any length is split.
pub fn send_reply(out: &mut Vec<u8>, code: ReplyCode, text: &[u8]) -> (r: Result<(), BuildError>)
    ensures
        match r {
            Ok(()) => valid_text(text@) && final(out)@ == old(out)@ + reply_wire(
                code.spec_code(),
                text@,
            ),
            Err(e) => {
                &&& !valid_text(text@)
                &&& *final(out) == *old(out)
                &&& e == BuildError::InvalidTextByte
            },
        },
{
    if !check_text(text) {
        return Err(BuildError::InvalidTextByte);
    }
    let ghost cd = code.spec_code();
    let mut pos: usize = 0;
    proof {
        assert(text@.skip(0) =~= text@);
    }
    loop
        invariant
            pos <= text@.len(),
            valid_text(text@),
            pos < text@.len() || (pos == 0 && text@.len() == 0),
            out@ + reply_wire(cd, text@.skip(pos as int)) == old(out)@ + reply_wire(cd, text@),
            code.spec_code() == cd,
        decreases text@.len() - pos,
    {
        let remaining = text.len() - pos;
        if remaining > MAX_LEN {
            let ghost pre = out@;
            append_wire(out, code, false, &text[pos..pos + MAX_LEN]);
            proof {
                let rest = text@.skip(pos as int);
                assert(rest.take(MAX_LEN as int) =~= text@.subrange(pos as int, pos + MAX_LEN));
                assert(rest.skip(MAX_LEN as int) =~= text@.skip(pos + MAX_LEN));
                assert(reply_wire(cd, rest) == wire_of(cd, false, rest.take(MAX_LEN as int))
                    + reply_wire(cd, rest.skip(MAX_LEN as int)));
                assert(out@ + reply_wire(cd, text@.skip(pos + MAX_LEN))
                    =~= pre + reply_wire(cd, rest));
            }
            pos += MAX_LEN;
        } else {
            append_wire(out, code, true, &text[pos..text.len()]);
            proof {
                let rest = text@.skip(pos as int);
                assert(rest =~= text@.subrange(pos as int, text@.len() as int));
                assert(reply_wire(cd, rest) == wire_of(cd, true, rest));
            }
            return Ok(());
        }
    }
}

} // verus!
