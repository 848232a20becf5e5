//! The connection-level protocol driver: sequencing MAIL/RCPT/DATA
//! transactions over framed lines, delegating accept/reject decisions to a
//! policy, and emitting wire replies.

use vstd::prelude::*;

use crate::command::{parse_model, Command, CommandModel};
use crate::data::{
    lemma_first_term_bounds, lemma_first_term_take, remainder_of, term_pos, terminated,
    with_preamble, DataStream,
};
use crate::framer::{first_crlf_end, proper_line, split_lines, CrlfLines};
use crate::reply::{reply_wire, send_reply, valid_text, BuildError, ReplyCode};

verus! {

/// Opaque per-connection data supplied by the embedder; handed by reference
/// to every policy hook, never touched by the driver.
pub struct ConnectionMetadata<U> {
    pub user: U,
}

/// The state of one mail transaction: the accepted sender and the accepted
/// recipients, in order.
pub struct MailMetadata {
    pub from: Vec<u8>,
    pub to: Vec<Vec<u8>>,
}

/// A policy's refusal: the reply code and message to relay verbatim.
pub struct Refusal {
    pub code: ReplyCode,
    pub msg: Vec<u8>,
}

/// A policy verdict. `Accept` carries the policy's own state onward.
pub enum Decision<T> {
    Accept(T),
    Reject(Refusal),
}

/// The default text of an accepting reply.
pub open spec fn okay_text() -> Seq<u8> {
    seq![79u8, 107u8, 97u8, 121u8]
}

/// The default text of a bad-sequence reply.
pub open spec fn bad_sequence_text() -> Seq<u8> {
    seq![
        66u8, 97u8, 100u8, 32u8, 115u8, 101u8, 113u8, 117u8, 101u8, 110u8, 99u8, 101u8, 32u8,
        111u8, 102u8, 32u8, 99u8, 111u8, 109u8, 109u8, 97u8, 110u8, 100u8, 115u8,
    ]
}

/// The default text of an unimplemented-command reply.
pub open spec fn command_unimplemented_text() -> Seq<u8> {
    seq![
        67u8, 111u8, 109u8, 109u8, 97u8, 110u8, 100u8, 32u8, 110u8, 111u8, 116u8, 32u8, 105u8,
        109u8, 112u8, 108u8, 101u8, 109u8, 101u8, 110u8, 116u8, 101u8, 100u8,
    ]
}

/// The default text of an unrecognized-command reply.
pub open spec fn command_unrecognized_text() -> Seq<u8> {
    seq![
        67u8, 111u8, 109u8, 109u8, 97u8, 110u8, 100u8, 32u8, 110u8, 111u8, 116u8, 32u8, 114u8,
        101u8, 99u8, 111u8, 103u8, 110u8, 105u8, 122u8, 101u8, 100u8,
    ]
}

/// The default text of the go-ahead reply that opens the DATA phase.
pub open spec fn data_okay_text() -> Seq<u8> {
    seq![
        83u8, 116u8, 97u8, 114u8, 116u8, 32u8, 109u8, 97u8, 105u8, 108u8, 32u8, 105u8, 110u8,
        112u8, 117u8, 116u8, 59u8, 32u8, 101u8, 110u8, 100u8, 32u8, 119u8, 105u8, 116u8, 104u8,
        32u8, 60u8, 67u8, 82u8, 76u8, 70u8, 62u8, 46u8, 60u8, 67u8, 82u8, 76u8, 70u8, 62u8,
    ]
}

/// `Okay`.
pub fn default_okay() -> (r: Vec<u8>)
    ensures
        r@ == okay_text(),
{
    let v = vec![79u8, 107u8, 97u8, 121u8];
    proof {
        assert(v@ =~= okay_text());
    }
    v
}

/// `Bad sequence of commands`.
pub fn default_bad_sequence() -> (r: Vec<u8>)
    ensures
        r@ == bad_sequence_text(),
{
    let v = vec![
        66u8, 97u8, 100u8, 32u8, 115u8, 101u8, 113u8, 117u8, 101u8, 110u8, 99u8, 101u8, 32u8,
        111u8, 102u8, 32u8, 99u8, 111u8, 109u8, 109u8, 97u8, 110u8, 100u8, 115u8,
    ];
    proof {
        assert(v@ =~= bad_sequence_text());
    }
    v
}

/// `Command not implemented`.
pub fn default_command_unimplemented() -> (r: Vec<u8>)
    ensures
        r@ == command_unimplemented_text(),
{
    let v = vec![
        67u8, 111u8, 109u8, 109u8, 97u8, 110u8, 100u8, 32u8, 110u8, 111u8, 116u8, 32u8, 105u8,
        109u8, 112u8, 108u8, 101u8, 109u8, 101u8, 110u8, 116u8, 101u8, 100u8,
    ];
    proof {
        assert(v@ =~= command_unimplemented_text());
    }
    v
}

/// `Command not recognized`.
pub fn default_command_unrecognized() -> (r: Vec<u8>)
    ensures
        r@ == command_unrecognized_text(),
{
    let v = vec![
        67u8, 111u8, 109u8, 109u8, 97u8, 110u8, 100u8, 32u8, 110u8, 111u8, 116u8, 32u8, 114u8,
        101u8, 99u8, 111u8, 103u8, 110u8, 105u8, 122u8, 101u8, 100u8,
    ];
    proof {
        assert(v@ =~= command_unrecognized_text());
    }
    v
}

/// `Start mail input; end with <CRLF>.<CRLF>`.
pub fn default_data_okay() -> (r: Vec<u8>)
    ensures
        r@ == data_okay_text(),
{
    let v = vec![
        83u8, 116u8, 97u8, 114u8, 116u8, 32u8, 109u8, 97u8, 105u8, 108u8, 32u8, 105u8, 110u8,
        112u8, 117u8, 116u8, 59u8, 32u8, 101u8, 110u8, 100u8, 32u8, 119u8, 105u8, 116u8, 104u8,
        32u8, 60u8, 67u8, 82u8, 76u8, 70u8, 62u8, 46u8, 60u8, 67u8, 82u8, 76u8, 70u8, 62u8,
    ];
    proof {
        assert(v@ =~= data_okay_text());
    }
    v
}

/// The policy collaborator: accept/reject decisions for sender, recipients
/// and message body, and overridable texts for the driver's replies. The
/// reply codes themselves are fixed by the driver; a policy customizes the
/// wording only. `U` is the embedder's connection data, `S` the policy's
/// transaction state, threaded from `filter_from` through `filter_to` into
/// `handle_mail`.
pub trait Config<U, S>: Sized {
    /// Verdict on the reverse path of a MAIL command.
    fn filter_from(&mut self, from: &Vec<u8>, conn_meta: &ConnectionMetadata<U>) -> Decision<S>;

    /// Verdict on one recipient of a RCPT command. The transaction state is
    /// borrowed so that it survives a rejection.
    fn filter_to(
        &mut self,
        to: &Vec<u8>,
        state: &mut S,
        conn_meta: &ConnectionMetadata<U>,
        meta: &MailMetadata,
    ) -> Decision<()>;

    /// Verdict on a complete, unstuffed message body.
    fn handle_mail(
        &mut self,
        body: Vec<u8>,
        state: S,
        meta: MailMetadata,
        conn_meta: &ConnectionMetadata<U>,
    ) -> Decision<()>;

    /// Text of a plain accepting reply; the per-situation accepting texts
    /// default to it.
    fn okay(&self) -> Vec<u8> {
        default_okay()
    }

    /// Text of a plain out-of-sequence reply; the per-situation sequencing
    /// texts default to it.
    fn bad_sequence(&self) -> Vec<u8> {
        default_bad_sequence()
    }

    /// Text of the accepting reply to MAIL.
    fn mail_okay(&self) -> Vec<u8> {
        self.okay()
    }

    /// Text of the accepting reply to RCPT.
    fn rcpt_okay(&self) -> Vec<u8> {
        self.okay()
    }

    /// Text of the reply after a body was accepted.
    fn mail_accepted(&self) -> Vec<u8> {
        self.okay()
    }

    /// Text of the reply to a second MAIL in one transaction.
    fn already_in_mail(&self) -> Vec<u8> {
        self.bad_sequence()
    }

    /// Text of the reply to RCPT before MAIL.
    fn rcpt_before_mail(&self) -> Vec<u8> {
        self.bad_sequence()
    }

    /// Text of the reply to DATA before MAIL.
    fn data_before_mail(&self) -> Vec<u8> {
        self.bad_sequence()
    }

    /// Text of the reply to DATA before any accepted RCPT.
    fn data_before_rcpt(&self) -> Vec<u8> {
        self.bad_sequence()
    }

    /// Text of the go-ahead reply that opens the DATA phase.
    fn data_okay(&self) -> Vec<u8> {
        default_data_okay()
    }

    /// Text of the reply to a recognized but unimplemented command.
    fn command_unimplemented(&self) -> Vec<u8> {
        default_command_unimplemented()
    }

    /// Text of the reply to an unparseable line.
    fn command_unrecognized(&self) -> Vec<u8> {
        default_command_unrecognized()
    }
}

/// Exactly one reply with the given code was appended to the output.
pub open spec fn appended_reply(pre: Seq<u8>, post: Seq<u8>, code: int) -> bool {
    exists|t: Seq<u8>| valid_text(t) && post == pre + #[trigger] reply_wire(code, t)
}

/// Exactly one reply, with some code, was appended to the output.
pub open spec fn appended_some_reply(pre: Seq<u8>, post: Seq<u8>) -> bool {
    exists|c: int, t: Seq<u8>| valid_text(t) && post == pre + #[trigger] reply_wire(c, t)
}


/// Apply the policy's verdict on a MAIL sender.
///
/// Acceptance opens the transaction with this sender and no recipients and
/// draws a 250 reply with the given text; a refusal leaves the connection
/// idle and relays the refusal's code and message verbatim. The call fails,
/// leaving the output untouched, exactly when the text to be sent holds a
/// byte that no reply may carry.
pub fn apply_from_decision<S>(
    d: Decision<S>,
    from: Vec<u8>,
    accept_text: &Vec<u8>,
    out: &mut Vec<u8>,
) -> (r: Result<Option<(MailMetadata, S)>, BuildError>)
    ensures
        match r {
            Ok(st) => match d {
                Decision::Accept(s) => {
                    &&& st matches Some(p) && p.0.from@ == from@ && p.0.to@
                        == Seq::<Vec<u8>>::empty() && p.1 == s
                    &&& valid_text(accept_text@)
                    &&& final(out)@ == old(out)@ + reply_wire(250, accept_text@)
                },
                Decision::Reject(rf) => {
                    &&& st is None
                    &&& valid_text(rf.msg@)
                    &&& final(out)@ == old(out)@ + reply_wire(rf.code.spec_code(), rf.msg@)
                },
            },
            Err(e) => {
                &&& *final(out) == *old(out)
                &&& e == BuildError::InvalidTextByte
                &&& !valid_text(
                    match d {
                        Decision::Accept(_) => accept_text@,
                        Decision::Reject(rf) => rf.msg@,
                    },
                )
            },
        },
{
    match d {
        Decision::Accept(s) => {
            send_reply(out, ReplyCode::okay(), accept_text.as_slice())?;
            Ok(Some((MailMetadata { from, to: Vec::new() }, s)))
        },
        Decision::Reject(rf) => {
            send_reply(out, rf.code, rf.msg.as_slice())?;
            Ok(None)
        },
    }
}

/// Apply the policy's verdict on one RCPT recipient.
///
/// Acceptance appends the recipient to the transaction and draws a 250
/// reply with the given text; a refusal leaves the transaction exactly as
/// it was and relays the refusal's code and message verbatim. The call
/// fails, leaving transaction and output untouched, exactly when the text
/// to be sent holds a byte that no reply may carry.
pub fn apply_to_decision(
    d: Decision<()>,
    to: Vec<u8>,
    accept_text: &Vec<u8>,
    meta: &mut MailMetadata,
    out: &mut Vec<u8>,
) -> (r: Result<(), BuildError>)
    ensures
        match r {
            Ok(()) => match d {
                Decision::Accept(_) => {
                    &&& final(meta).from@ == old(meta).from@
                    &&& final(meta).to@ == old(meta).to@.push(to)
                    &&& valid_text(accept_text@)
                    &&& final(out)@ == old(out)@ + reply_wire(250, accept_text@)
                },
                Decision::Reject(rf) => {
                    &&& *final(meta) == *old(meta)
                    &&& valid_text(rf.msg@)
                    &&& final(out)@ == old(out)@ + reply_wire(rf.code.spec_code(), rf.msg@)
                },
            },
            Err(e) => {
                &&& *final(meta) == *old(meta)
                &&& *final(out) == *old(out)
                &&& e == BuildError::InvalidTextByte
                &&& !valid_text(
                    match d {
                        Decision::Accept(_) => accept_text@,
                        Decision::Reject(rf) => rf.msg@,
                    },
                )
            },
        },
{
    match d {
        Decision::Accept(_) => {
            send_reply(out, ReplyCode::okay(), accept_text.as_slice())?;
            meta.to.push(to);
            Ok(())
        },
        Decision::Reject(rf) => {
            send_reply(out, rf.code, rf.msg.as_slice())?;
            Ok(())
        },
    }
}

/// Apply the policy's verdict on a completed message body.
///
/// Acceptance draws a 250 reply with the given text; a refusal relays the
/// refusal's code and message verbatim. The call fails, leaving the output
/// untouched, exactly when the text to be sent holds a byte that no reply
/// may carry.
pub fn apply_mail_decision(d: Decision<()>, accept_text: &Vec<u8>, out: &mut Vec<u8>) -> (r:
    Result<(), BuildError>)
    ensures
        match r {
            Ok(()) => match d {
                Decision::Accept(_) => {
                    &&& valid_text(accept_text@)
                    &&& final(out)@ == old(out)@ + reply_wire(250, accept_text@)
                },
                Decision::Reject(rf) => {
                    &&& valid_text(rf.msg@)
                    &&& final(out)@ == old(out)@ + reply_wire(rf.code.spec_code(), rf.msg@)
                },
            },
            Err(e) => {
                &&& *final(out) == *old(out)
                &&& e == BuildError::InvalidTextByte
                &&& !valid_text(
                    match d {
                        Decision::Accept(_) => accept_text@,
                        Decision::Reject(rf) => rf.msg@,
                    },
                )
            },
        },
{
    match d {
        Decision::Accept(_) => send_reply(out, ReplyCode::okay(), accept_text.as_slice()),
        Decision::Reject(rf) => send_reply(out, rf.code, rf.msg.as_slice()),
    }
}

/// What handling one line asks the driver to do next.
pub enum LineOutcome<S> {
    /// Go on reading lines with this transaction state.
    Continue(Option<(MailMetadata, S)>),
    /// The go-ahead was sent: run the DATA phase for this transaction.
    StartData(MailMetadata, S),
}

/// Handle one framed command line: parse it, enforce command sequencing,
/// consult the policy where one is owed a say, and append exactly one reply
/// to `out`.
///
/// The sequencing rules are part of the contract: RCPT before MAIL, a
/// second MAIL, and DATA before MAIL or before any accepted RCPT each leave
/// the transaction state exactly as it was and draw a 503 reply; commands
/// outside the MAIL/RCPT/DATA core draw 502, unparseable lines 500, and
/// none of them touches the state. An error is returned, with `out`
/// untouched, only when the policy supplied reply text that no reply may
/// carry.
pub fn handle_line<U, S, C: Config<U, S>>(
    state: Option<(MailMetadata, S)>,
    line: &Vec<u8>,
    cfg: &mut C,
    conn_meta: &ConnectionMetadata<U>,
    out: &mut Vec<u8>,
) -> (r: Result<LineOutcome<S>, BuildError>)
    ensures
        match r {
            Ok(oc) => {
                let m = parse_model(line@);
                &&& appended_some_reply(old(out)@, final(out)@)
                &&& (m == CommandModel::Unrecognized || m == CommandModel::Malformed) ==> (oc
                    == LineOutcome::Continue(state) && appended_reply(old(out)@, final(out)@, 500))
                &&& (m is Rcpt && state is None) ==> (oc == LineOutcome::Continue(state)
                    && appended_reply(old(out)@, final(out)@, 503))
                &&& (m is Mail && state is Some) ==> (oc == LineOutcome::Continue(state)
                    && appended_reply(old(out)@, final(out)@, 503))
                &&& (m is Helo || m is Ehlo || m is Rset || m is Noop || m is Vrfy || m is Expn
                    || m is Help || m is Quit) ==> (oc == LineOutcome::Continue(state)
                    && appended_reply(old(out)@, final(out)@, 502))
                &&& (m is Mail && state is None) ==> match oc {
                    LineOutcome::Continue(st) => match st {
                        None => true,
                        Some(p) => p.0.from@ == m->Mail_0 && p.0.to@.len() == 0 && appended_reply(
                            old(out)@,
                            final(out)@,
                            250,
                        ),
                    },
                    LineOutcome::StartData(..) => false,
                }
                &&& (m is Rcpt && state is Some) ==> match (oc, state) {
                    (LineOutcome::Continue(Some(p)), Some(q)) => p.0.from@ == q.0.from@ && (p.0.to@
                        == q.0.to@ || (p.0.to@ == q.0.to@.push(p.0.to@.last()) && p.0.to@.last()@
                        == m->Rcpt_0 && appended_reply(old(out)@, final(out)@, 250))),
                    _ => false,
                }
                &&& m == CommandModel::Data ==> match state {
                    None => oc == LineOutcome::Continue(None::<(MailMetadata, S)>)
                        && appended_reply(old(out)@, final(out)@, 503),
                    Some(q) => if q.0.to@.len() == 0 {
                        oc == LineOutcome::Continue(state) && appended_reply(
                            old(out)@,
                            final(out)@,
                            503,
                        )
                    } else {
                        match oc {
                            LineOutcome::StartData(meta, _) => meta.from@ == q.0.from@ && meta.to@
                                == q.0.to@ && appended_reply(old(out)@, final(out)@, 354),
                            _ => false,
                        }
                    },
                }
            },
            Err(_) => *final(out) == *old(out),
        },
{
    match Command::parse(line.as_slice()) {
        Err(_) => {
            let text = cfg.command_unrecognized();
            send_reply(out, ReplyCode::command_unrecognized(), text.as_slice())?;
            Ok(LineOutcome::Continue(state))
        },
        Ok(Command::Mail(a)) => {
            match state {
                Some(p) => {
                    let text = cfg.already_in_mail();
                    send_reply(out, ReplyCode::bad_sequence(), text.as_slice())?;
                    Ok(LineOutcome::Continue(Some(p)))
                },
                None => {
                    let d = cfg.filter_from(&a, conn_meta);
                    let text = cfg.mail_okay();
                    let st = apply_from_decision(d, a, &text, out)?;
                    Ok(LineOutcome::Continue(st))
                },
            }
        },
        Ok(Command::Rcpt(a)) => {
            match state {
                None => {
                    let text = cfg.rcpt_before_mail();
                    send_reply(out, ReplyCode::bad_sequence(), text.as_slice())?;
                    Ok(LineOutcome::Continue(None))
                },
                Some((mut meta, mut s)) => {
                    let d = cfg.filter_to(&a, &mut s, conn_meta, &meta);
                    let text = cfg.rcpt_okay();
                    apply_to_decision(d, a, &text, &mut meta, out)?;
                    Ok(LineOutcome::Continue(Some((meta, s))))
                },
            }
        },
        Ok(Command::Data) => {
            match state {
                None => {
                    let text = cfg.data_before_mail();
                    send_reply(out, ReplyCode::bad_sequence(), text.as_slice())?;
                    Ok(LineOutcome::Continue(None))
                },
                Some((meta, s)) => {
                    if meta.to.len() == 0 {
                        let text = cfg.data_before_rcpt();
                        send_reply(out, ReplyCode::bad_sequence(), text.as_slice())?;
                        Ok(LineOutcome::Continue(Some((meta, s))))
                    } else {
                        let text = cfg.data_okay();
                        send_reply(out, ReplyCode::data_okay(), text.as_slice())?;
                        Ok(LineOutcome::StartData(meta, s))
                    }
                },
            }
        },
        Ok(_) => {
            let text = cfg.command_unimplemented();
            send_reply(out, ReplyCode::command_unimplemented(), text.as_slice())?;
            Ok(LineOutcome::Continue(state))
        },
    }
}

/// The wire bytes of a whole sequence of replies.
pub open spec fn replies_wire(log: Seq<(int, Seq<u8>)>) -> Seq<u8>
    decreases log.len(),
{
    if log.len() == 0 {
        Seq::empty()
    } else {
        reply_wire(log[0].0, log[0].1) + replies_wire(log.skip(1))
    }
}

proof fn lemma_replies_wire_push(log: Seq<(int, Seq<u8>)>, e: (int, Seq<u8>))
    ensures
        replies_wire(log.push(e)) == replies_wire(log) + reply_wire(e.0, e.1),
    decreases log.len(),
{
    let lp = log.push(e);
    if log.len() == 0 {
        assert(lp.skip(1) =~= Seq::<(int, Seq<u8>)>::empty());
        assert(lp[0] == e);
        assert(replies_wire(lp) == reply_wire(e.0, e.1) + replies_wire(lp.skip(1)));
        assert(replies_wire(lp) =~= replies_wire(log) + reply_wire(e.0, e.1));
    } else {
        assert(lp.skip(1) =~= log.skip(1).push(e));
        lemma_replies_wire_push(log.skip(1), e);
        assert(lp[0] == log[0]);
        assert(replies_wire(lp) == reply_wire(log[0].0, log[0].1) + replies_wire(lp.skip(1)));
        assert(replies_wire(lp.skip(1)) == replies_wire(log.skip(1)) + reply_wire(e.0, e.1));
        assert(replies_wire(log) == reply_wire(log[0].0, log[0].1) + replies_wire(log.skip(1)));
        assert(replies_wire(lp) =~= replies_wire(log) + reply_wire(e.0, e.1));
    }
}

/// The output is a concatenation of wire replies.
pub open spec fn is_reply_output(b: Seq<u8>) -> bool {
    exists|log: Seq<(int, Seq<u8>)>| b == #[trigger] replies_wire(log)
}



/// Whether a transaction is open in this driver state.
pub open spec fn in_mail_flag<S>(st: Option<(MailMetadata, S)>) -> bool {
    st is Some
}

/// Whether the open transaction has at least one accepted recipient.
pub open spec fn has_rcpt_flag<S>(st: Option<(MailMetadata, S)>) -> bool {
    match st {
        Some(p) => p.0.to@.len() > 0,
        None => false,
    }
}

/// One piece of the session the output is accounted by: a byte region of
/// the input and the reply traffic it drew.
pub enum SessionStep {
    /// One command line (framed, or the CRLF-less trailing rest of the
    /// input) and its single reply.
    Line { line: Seq<u8>, reply: Seq<u8> },
    /// An accepted DATA command: its line, the 354 go-ahead, the raw body
    /// region up to and including its terminator, and the reply to the
    /// policy's verdict on the unstuffed body.
    Data { line: Seq<u8>, go_ahead: Seq<u8>, raw: Seq<u8>, verdict: Seq<u8> },
    /// An accepted DATA command whose body never terminates: its line, the
    /// 354 go-ahead, and the unterminated rest of the input. No further
    /// reply follows.
    Incomplete { line: Seq<u8>, go_ahead: Seq<u8>, raw: Seq<u8> },
}

/// `b` is exactly one wire reply carrying the given code.
pub open spec fn one_reply(b: Seq<u8>, code: int) -> bool {
    exists|t: Seq<u8>| valid_text(t) && b == #[trigger] reply_wire(code, t)
}

/// `b` is exactly one wire reply, whatever its code.
pub open spec fn one_reply_any(b: Seq<u8>) -> bool {
    exists|c: int, t: Seq<u8>| valid_text(t) && b == #[trigger] reply_wire(c, t)
}

/// How one non-DATA-phase line moves the session along: from the flags
/// `(im, hr)` — a transaction is open, it has a recipient — to
/// `(im2, hr2)`, drawing exactly the reply the sequencing rules force. The
/// policy's decisions and texts are existential: an accepted MAIL or RCPT
/// draws a 250 and updates the transaction, a refused one draws one reply
/// of the refusal's own making and leaves the transaction alone.
pub open spec fn line_step(
    line: Seq<u8>,
    im: bool,
    hr: bool,
    reply: Seq<u8>,
    im2: bool,
    hr2: bool,
) -> bool {
    let m = parse_model(line);
    if m == CommandModel::Unrecognized || m == CommandModel::Malformed {
        one_reply(reply, 500) && im2 == im && hr2 == hr
    } else if m is Mail {
        if im {
            one_reply(reply, 503) && im2 == im && hr2 == hr
        } else {
            ||| (one_reply(reply, 250) && im2 && !hr2)
            ||| (one_reply_any(reply) && !im2 && !hr2)
        }
    } else if m is Rcpt {
        if !im {
            one_reply(reply, 503) && im2 == im && hr2 == hr
        } else {
            ||| (one_reply(reply, 250) && im2 && hr2)
            ||| (one_reply_any(reply) && im2 && hr2 == hr)
        }
    } else if m == CommandModel::Data {
        (!im || !hr) && one_reply(reply, 503) && im2 == im && hr2 == hr
    } else {
        one_reply(reply, 502) && im2 == im && hr2 == hr
    }
}

/// What one session step demands of its pieces and of the flags around it.
pub open spec fn step_ok(s: SessionStep, im: bool, hr: bool, im2: bool, hr2: bool) -> bool {
    match s {
        SessionStep::Line { line, reply } => {
            &&& line_step(line, im, hr, reply, im2, hr2)
            &&& (proper_line(line) || crate::framer::first_crlf_end(line, 0) is None)
        },
        SessionStep::Data { line, go_ahead, raw, verdict } => {
            &&& parse_model(line) == CommandModel::Data
            &&& im && hr
            &&& proper_line(line)
            &&& one_reply(go_ahead, 354)
            &&& terminated(raw)
            &&& remainder_of(raw) == Seq::<u8>::empty()
            &&& one_reply_any(verdict)
            &&& !im2 && !hr2
        },
        SessionStep::Incomplete { line, go_ahead, raw } => {
            &&& parse_model(line) == CommandModel::Data
            &&& im && hr
            &&& one_reply(go_ahead, 354)
            &&& !terminated(raw)
            &&& !im2 && !hr2
        },
    }
}

/// The input bytes one step accounts for.
pub open spec fn step_consumed(s: SessionStep) -> Seq<u8> {
    match s {
        SessionStep::Line { line, .. } => line,
        SessionStep::Data { line, raw, .. } => line + raw,
        SessionStep::Incomplete { line, raw, .. } => line + raw,
    }
}

/// The reply bytes one step accounts for.
pub open spec fn step_replies(s: SessionStep) -> Seq<u8> {
    match s {
        SessionStep::Line { reply, .. } => reply,
        SessionStep::Data { go_ahead, verdict, .. } => go_ahead + verdict,
        SessionStep::Incomplete { go_ahead, .. } => go_ahead,
    }
}

pub open spec fn steps_consumed(steps: Seq<SessionStep>) -> Seq<u8>
    decreases steps.len(),
{
    if steps.len() == 0 {
        Seq::empty()
    } else {
        step_consumed(steps[0]) + steps_consumed(steps.skip(1))
    }
}

pub open spec fn steps_replies(steps: Seq<SessionStep>) -> Seq<u8>
    decreases steps.len(),
{
    if steps.len() == 0 {
        Seq::empty()
    } else {
        step_replies(steps[0]) + steps_replies(steps.skip(1))
    }
}

/// The whole session trace: processing `steps` from the flags `(im, hr)`
/// is step-by-step lawful and ends at `(imf, hrf)`.
pub open spec fn session_from(
    steps: Seq<SessionStep>,
    im: bool,
    hr: bool,
    imf: bool,
    hrf: bool,
) -> bool
    decreases steps.len(),
{
    if steps.len() == 0 {
        imf == im && hrf == hr
    } else {
        exists|im2: bool, hr2: bool|
            #[trigger] step_ok(steps[0], im, hr, im2, hr2) && session_from(
                steps.skip(1),
                im2,
                hr2,
                imf,
                hrf,
            )
    }
}

proof fn lemma_steps_consumed_push(steps: Seq<SessionStep>, s: SessionStep)
    ensures
        steps_consumed(steps.push(s)) == steps_consumed(steps) + step_consumed(s),
        steps_replies(steps.push(s)) == steps_replies(steps) + step_replies(s),
    decreases steps.len(),
{
    let lp = steps.push(s);
    if steps.len() == 0 {
        assert(lp.skip(1) =~= Seq::<SessionStep>::empty());
        assert(lp[0] == s);
        assert(steps_consumed(lp.skip(1)) == Seq::<u8>::empty());
        assert(steps_replies(lp.skip(1)) == Seq::<u8>::empty());
        assert(steps_consumed(lp) == step_consumed(lp[0]) + steps_consumed(lp.skip(1)));
        assert(steps_replies(lp) == step_replies(lp[0]) + steps_replies(lp.skip(1)));
        assert(steps_consumed(lp) =~= steps_consumed(steps) + step_consumed(s));
        assert(steps_replies(lp) =~= steps_replies(steps) + step_replies(s));
    } else {
        assert(lp.skip(1) =~= steps.skip(1).push(s));
        lemma_steps_consumed_push(steps.skip(1), s);
        assert(lp[0] == steps[0]);
        assert(steps_consumed(lp) == step_consumed(lp[0]) + steps_consumed(lp.skip(1)));
        assert(steps_consumed(lp.skip(1)) == steps_consumed(steps.skip(1)) + step_consumed(s));
        assert(steps_consumed(steps) == step_consumed(steps[0]) + steps_consumed(steps.skip(1)));
        assert(steps_consumed(lp) =~= steps_consumed(steps) + step_consumed(s));
        assert(steps_replies(lp) == step_replies(lp[0]) + steps_replies(lp.skip(1)));
        assert(steps_replies(lp.skip(1)) == steps_replies(steps.skip(1)) + step_replies(s));
        assert(steps_replies(steps) == step_replies(steps[0]) + steps_replies(steps.skip(1)));
        assert(steps_replies(lp) =~= steps_replies(steps) + step_replies(s));
    }
}

proof fn lemma_session_from_push(
    steps: Seq<SessionStep>,
    s: SessionStep,
    im0: bool,
    hr0: bool,
    im1: bool,
    hr1: bool,
    im2: bool,
    hr2: bool,
)
    requires
        session_from(steps, im0, hr0, im1, hr1),
        step_ok(s, im1, hr1, im2, hr2),
    ensures
        session_from(steps.push(s), im0, hr0, im2, hr2),
    decreases steps.len(),
{
    let lp = steps.push(s);
    if steps.len() == 0 {
        assert(lp.skip(1) =~= Seq::<SessionStep>::empty());
        assert(step_ok(lp[0], im0, hr0, im2, hr2));
        assert(session_from(lp.skip(1), im2, hr2, im2, hr2));
    } else {
        let (ima, hra) = choose|ima: bool, hra: bool|
            step_ok(steps[0], im0, hr0, ima, hra) && session_from(
                steps.skip(1),
                ima,
                hra,
                im1,
                hr1,
            );
        lemma_session_from_push(steps.skip(1), s, ima, hra, im1, hr1, im2, hr2);
        assert(lp.skip(1) =~= steps.skip(1).push(s));
        assert(lp[0] == steps[0]);
        assert(step_ok(lp[0], im0, hr0, ima, hra));
    }
}

/// Drive one whole connection over an in-memory byte stream.
///
/// The input is framed into lines; each line is handled by [`handle_line`];
/// an accepted DATA command hands the unframed rest of the input to the
/// transcoder, lets the policy judge the unstuffed body through
/// [`apply_mail_decision`], and resumes framing on the bytes after the body
/// terminator. A body that never terminates ends the connection with no
/// further replies, as does the end of the input; a trailing line without
/// CRLF is handled like a framed line. An error is returned only when the
/// policy supplied reply text that no reply may carry.
///
/// The returned bytes are the connection's whole reply traffic: they are
/// accounted for, byte by byte, by a session trace that partitions the
/// input into command lines and DATA body regions and pins, for every
/// line, the one reply the sequencing rules force.
pub fn interact<U, S, C: Config<U, S>>(input: &[u8], metadata: U, cfg: &mut C) -> (r: Result<
    Vec<u8>,
    BuildError,
>)
    ensures
        match r {
            Ok(out) => {
                &&& is_reply_output(out@)
                &&& input@.len() == 0 ==> out@ == Seq::<u8>::empty()
                &&& exists|steps: Seq<SessionStep>, imf: bool, hrf: bool|
                    {
                        &&& #[trigger] session_from(steps, false, false, imf, hrf)
                        &&& steps_consumed(steps) == input@
                        &&& out@ == steps_replies(steps)
                    }
            },
            Err(_) => true,
        },
{
    let conn_meta = ConnectionMetadata { user: metadata };
    let mut framer = CrlfLines::new();
    framer.push_chunk(input);
    let mut out: Vec<u8> = Vec::new();
    let mut state: Option<(MailMetadata, S)> = None;
    let ghost mut log: Seq<(int, Seq<u8>)> = Seq::empty();
    let ghost mut trace: Seq<SessionStep> = Seq::empty();
    proof {
        assert(out@ =~= replies_wire(log));
        assert(out@ =~= steps_replies(trace));
        assert(steps_consumed(trace) + framer.buffered() =~= input@);
        assert(session_from(trace, false, false, false, false));
    }
    loop
        invariant
            framer.wf(),
            out@ == replies_wire(log),
            out@ == steps_replies(trace),
            steps_consumed(trace) + framer.buffered() == input@,
            session_from(trace, false, false, in_mail_flag(state), has_rcpt_flag(state)),
            input@.len() == 0 ==> out@ == Seq::<u8>::empty() && framer.buffered().len() == 0,
        decreases framer.buffered().len(),
    {
        let ghost pre_state = state;
        let ghost im0 = in_mail_flag(state);
        let ghost hr0 = has_rcpt_flag(state);
        let ghost pre_out = out@;
        match framer.next_line() {
            None => {
                proof {
                    framer.lemma_delivered_prefix();
                    if first_crlf_end(framer.buffered(), 0) is Some {
                        assert(split_lines(framer.buffered()).len() >= 1);
                    }
                }
                // What is left holds no CRLF: handle it as the final,
                // unterminated line, then close the connection.
                let partial = framer.underlying();
                if partial.len() == 0 {
                    proof {
                        assert(steps_consumed(trace) =~= input@);
                    }
                    return Ok(out);
                }
                match handle_line(state, &partial, cfg, &conn_meta, &mut out) {
                    Err(e) => {
                        return Err(e);
                    },
                    Ok(LineOutcome::Continue(st)) => {
                        proof {
                            let (c, t) = choose|c: int, t: Seq<u8>|
                                valid_text(t) && out@ == pre_out + reply_wire(c, t);
                            lemma_replies_wire_push(log, (c, t));
                            log = log.push((c, t));
                            let delta = reply_wire(c, t);
                            let im1 = in_mail_flag(st);
                            let hr1 = has_rcpt_flag(st);
                            lemma_line_reply(
                                partial@,
                                pre_state,
                                st,
                                pre_out,
                                out@,
                                delta,
                                im0,
                                hr0,
                                im1,
                                hr1,
                            );
                            let step = (SessionStep::Line { line: partial@, reply: delta });
                            assert(step_ok(step, im0, hr0, im1, hr1));
                            lemma_session_from_push(trace, step, false, false, im0, hr0, im1, hr1);
                            lemma_steps_consumed_push(trace, step);
                            trace = trace.push(step);
                            assert(steps_consumed(trace) =~= input@);
                            assert(out@ =~= steps_replies(trace));
                        }
                        return Ok(out);
                    },
                    Ok(LineOutcome::StartData(..)) => {
                        // A DATA line always carries a CRLF, and the rest
                        // holds none: the data phase opens on an empty,
                        // necessarily unterminated body stream.
                        proof {
                            let t3 = choose|tx: Seq<u8>|
                                valid_text(tx) && out@ == pre_out + reply_wire(354, tx);
                            lemma_replies_wire_push(log, (354 as int, t3));
                            log = log.push((354 as int, t3));
                            let go_ahead = reply_wire(354, t3);
                            let step = (SessionStep::Incomplete {
                                line: partial@,
                                go_ahead: go_ahead,
                                raw: Seq::<u8>::empty(),
                            });
                            assert(!terminated(Seq::<u8>::empty()));
                            assert(step_ok(step, im0, hr0, false, false));
                            lemma_session_from_push(trace, step, false, false, im0, hr0, false, false);
                            lemma_steps_consumed_push(trace, step);
                            trace = trace.push(step);
                            assert(steps_consumed(trace) =~= input@);
                            assert(out@ =~= steps_replies(trace));
                        }
                        return Ok(out);
                    },
                }
            },
            Some(line) => {
                match handle_line(state, &line, cfg, &conn_meta, &mut out) {
                    Err(e) => {
                        return Err(e);
                    },
                    Ok(LineOutcome::Continue(st)) => {
                        proof {
                            let (c, t) = choose|c: int, t: Seq<u8>|
                                valid_text(t) && out@ == pre_out + reply_wire(c, t);
                            lemma_replies_wire_push(log, (c, t));
                            log = log.push((c, t));
                            let delta = reply_wire(c, t);
                            let im1 = in_mail_flag(st);
                            let hr1 = has_rcpt_flag(st);
                            lemma_line_reply(
                                line@,
                                pre_state,
                                st,
                                pre_out,
                                out@,
                                delta,
                                im0,
                                hr0,
                                im1,
                                hr1,
                            );
                            let step = (SessionStep::Line { line: line@, reply: delta });
                            assert(step_ok(step, im0, hr0, im1, hr1));
                            lemma_session_from_push(trace, step, false, false, im0, hr0, im1, hr1);
                            lemma_steps_consumed_push(trace, step);
                            trace = trace.push(step);
                            assert(steps_consumed(trace) + framer.buffered() =~= input@);
                            assert(out@ =~= steps_replies(trace));
                        }
                        state = st;
                    },
                    Ok(LineOutcome::StartData(meta, s)) => {
                        let ghost t3 = choose|tx: Seq<u8>|
                            valid_text(tx) && out@ == pre_out + reply_wire(354, tx);
                        let ghost go_ahead = reply_wire(354, t3);
                        proof {
                            lemma_replies_wire_push(log, (354 as int, t3));
                            log = log.push((354 as int, t3));
                        }
                        let rest = framer.underlying();
                        let mut ds = DataStream::new();
                        ds.push_chunk(rest.as_slice());
                        proof {
                            assert(ds.input() =~= rest@);
                        }
                        if !ds.is_terminated() {
                            // Incomplete body: close with no further replies.
                            proof {
                                let step = (SessionStep::Incomplete {
                                    line: line@,
                                    go_ahead: go_ahead,
                                    raw: rest@,
                                });
                                assert(step_ok(step, im0, hr0, false, false));
                                lemma_session_from_push(
                                    trace,
                                    step,
                                    false,
                                    false,
                                    im0,
                                    hr0,
                                    false,
                                    false,
                                );
                                lemma_steps_consumed_push(trace, step);
                                trace = trace.push(step);
                                assert(steps_consumed(trace) =~= input@);
                                assert(out@ =~= steps_replies(trace));
                            }
                            return Ok(out);
                        }
                        let ghost q = term_pos(rest@)->Some_0;
                        let ghost raw = rest@.take(q + 3);
                        let (body, rem) = ds.into_parts();
                        proof {
                            lemma_first_term_bounds(with_preamble(rest@), 0);
                            assert(rem@ =~= rest@.skip(q + 3));
                            assert(raw + rem@ =~= rest@);
                            assert(with_preamble(raw) =~= with_preamble(rest@).take(q + 5));
                            lemma_first_term_take(with_preamble(rest@), 0, q);
                            assert(term_pos(raw) == Some(q));
                            assert(terminated(raw));
                            assert(remainder_of(raw) =~= Seq::<u8>::empty());
                        }
                        let d = cfg.handle_mail(body, s, meta, &conn_meta);
                        let ghost d0 = d;
                        let text = cfg.mail_accepted();
                        let ghost pre2 = out@;
                        match apply_mail_decision(d, &text, &mut out) {
                            Ok(()) => {},
                            Err(e) => {
                                return Err(e);
                            },
                        }
                        proof {
                            if d0 is Accept {
                                assert(out@ == pre2 + reply_wire(250, text@));
                            } else {
                                let rf = d0->Reject_0;
                                assert(out@ == pre2 + reply_wire(rf.code.spec_code(), rf.msg@));
                            }
                            let (c2, t2) = choose|c: int, t: Seq<u8>|
                                valid_text(t) && out@ == pre2 + reply_wire(c, t);
                            lemma_replies_wire_push(log, (c2, t2));
                            log = log.push((c2, t2));
                            let verdict = reply_wire(c2, t2);
                            assert(one_reply_any(verdict));
                            let step = (SessionStep::Data {
                                line: line@,
                                go_ahead: go_ahead,
                                raw: raw,
                                verdict: verdict,
                            });
                            assert(step_ok(step, im0, hr0, false, false));
                            lemma_session_from_push(
                                trace,
                                step,
                                false,
                                false,
                                im0,
                                hr0,
                                false,
                                false,
                            );
                            lemma_steps_consumed_push(trace, step);
                            trace = trace.push(step);
                            assert(steps_consumed(trace) + rem@ =~= input@);
                        }
                        state = None;
                        let mut next = CrlfLines::new();
                        next.push_chunk(rem.as_slice());
                        proof {
                            assert(rem@.len() + 3 <= rest@.len());
                            assert(out@ =~= steps_replies(trace));
                        }
                        framer = next;
                    },
                }
            },
        }
    }
}

/// A chunk appended to a common prefix is determined by the whole.
proof fn lemma_append_cancel(pre: Seq<u8>, a: Seq<u8>, b: Seq<u8>)
    requires
        pre + a == pre + b,
    ensures
        a == b,
{
    assert((pre + a).skip(pre.len() as int) =~= a);
    assert((pre + b).skip(pre.len() as int) =~= b);
}

/// From `handle_line`'s contract at a `Continue` outcome, the appended
/// bytes form the one reply the sequencing rules force for this line.
proof fn lemma_line_reply<S>(
    line: Seq<u8>,
    pre_state: Option<(MailMetadata, S)>,
    st: Option<(MailMetadata, S)>,
    pre_out: Seq<u8>,
    post_out: Seq<u8>,
    delta: Seq<u8>,
    im0: bool,
    hr0: bool,
    im1: bool,
    hr1: bool,
)
    requires
        post_out == pre_out + delta,
        one_reply_any(delta),
        im0 == in_mail_flag(pre_state),
        hr0 == has_rcpt_flag(pre_state),
        im1 == in_mail_flag(st),
        hr1 == has_rcpt_flag(st),
        ({
            // handle_line's contract for the outcome Continue(st)
            let m = parse_model(line);
            &&& (m == CommandModel::Unrecognized || m == CommandModel::Malformed) ==> (st
                == pre_state && appended_reply(pre_out, post_out, 500))
            &&& (m is Rcpt && pre_state is None) ==> (st == pre_state && appended_reply(
                pre_out,
                post_out,
                503,
            ))
            &&& (m is Mail && pre_state is Some) ==> (st == pre_state && appended_reply(
                pre_out,
                post_out,
                503,
            ))
            &&& (m is Helo || m is Ehlo || m is Rset || m is Noop || m is Vrfy || m is Expn
                || m is Help || m is Quit) ==> (st == pre_state && appended_reply(
                pre_out,
                post_out,
                502,
            ))
            &&& (m is Mail && pre_state is None) ==> match st {
                None => true,
                Some(p) => p.0.from@ == m->Mail_0 && p.0.to@.len() == 0 && appended_reply(
                    pre_out,
                    post_out,
                    250,
                ),
            }
            &&& (m is Rcpt && pre_state is Some) ==> match (st, pre_state) {
                (Some(p), Some(q)) => p.0.from@ == q.0.from@ && (p.0.to@ == q.0.to@ || (p.0.to@
                    == q.0.to@.push(p.0.to@.last()) && appended_reply(pre_out, post_out, 250))),
                _ => false,
            }
            &&& m == CommandModel::Data ==> match pre_state {
                None => st is None && appended_reply(pre_out, post_out, 503),
                Some(q) => q.0.to@.len() == 0 && st == pre_state && appended_reply(
                    pre_out,
                    post_out,
                    503,
                ),
            }
        }),
    ensures
        line_step(line, im0, hr0, delta, im1, hr1),
{
    let m = parse_model(line);
    if m == CommandModel::Unrecognized || m == CommandModel::Malformed {
        let tx = choose|tx: Seq<u8>| valid_text(tx) && post_out == pre_out + reply_wire(500, tx);
        lemma_append_cancel(pre_out, delta, reply_wire(500, tx));
        assert(one_reply(delta, 500));
    } else if m is Helo || m is Ehlo || m is Rset || m is Noop || m is Vrfy || m is Expn
        || m is Help || m is Quit {
        let tx = choose|tx: Seq<u8>| valid_text(tx) && post_out == pre_out + reply_wire(502, tx);
        lemma_append_cancel(pre_out, delta, reply_wire(502, tx));
        assert(one_reply(delta, 502));
    } else if m is Mail {
        if im0 {
            let tx = choose|tx: Seq<u8>|
                valid_text(tx) && post_out == pre_out + reply_wire(503, tx);
            lemma_append_cancel(pre_out, delta, reply_wire(503, tx));
            assert(one_reply(delta, 503));
        } else {
            if st is Some {
                let tx = choose|tx: Seq<u8>|
                    valid_text(tx) && post_out == pre_out + reply_wire(250, tx);
                lemma_append_cancel(pre_out, delta, reply_wire(250, tx));
                assert(one_reply(delta, 250));
            }
        }
    } else if m is Rcpt {
        if !im0 {
            let tx = choose|tx: Seq<u8>|
                valid_text(tx) && post_out == pre_out + reply_wire(503, tx);
            lemma_append_cancel(pre_out, delta, reply_wire(503, tx));
            assert(one_reply(delta, 503));
        } else {
            let p = st->Some_0;
            let q = pre_state->Some_0;
            if p.0.to@ == q.0.to@ {
                assert(hr1 == hr0);
            } else {
                let tx = choose|tx: Seq<u8>|
                    valid_text(tx) && post_out == pre_out + reply_wire(250, tx);
                lemma_append_cancel(pre_out, delta, reply_wire(250, tx));
                assert(one_reply(delta, 250));
                assert(p.0.to@.len() > 0);
            }
        }
    } else if m == CommandModel::Data {
        let tx = choose|tx: Seq<u8>| valid_text(tx) && post_out == pre_out + reply_wire(503, tx);
        lemma_append_cancel(pre_out, delta, reply_wire(503, tx));
        assert(one_reply(delta, 503));
        assert(!im0 || !hr0);
    }
}

} // verus!
