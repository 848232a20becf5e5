use smtp_core::reply::{BuildError, ReplyCode};
use smtp_core::server::{interact, Config, ConnectionMetadata, Decision, MailMetadata, Refusal};

/// Accepts every sender and recipient; the mail handler is configurable.
struct Policy {
    accept_mail: bool,
    reject_rcpt: bool,
    rcpt_count: usize,
}

impl Policy {
    fn accepting() -> Policy {
        Policy { accept_mail: true, reject_rcpt: false, rcpt_count: 0 }
    }

    fn rejecting_mail() -> Policy {
        Policy { accept_mail: false, reject_rcpt: false, rcpt_count: 0 }
    }

    fn rejecting_rcpt() -> Policy {
        Policy { accept_mail: true, reject_rcpt: true, rcpt_count: 0 }
    }
}

impl Config<(), ()> for Policy {
    fn filter_from(&mut self, _from: &Vec<u8>, _cm: &ConnectionMetadata<()>) -> Decision<()> {
        Decision::Accept(())
    }

    fn filter_to(
        &mut self,
        _to: &Vec<u8>,
        _state: &mut (),
        _cm: &ConnectionMetadata<()>,
        _meta: &MailMetadata,
    ) -> Decision<()> {
        if self.reject_rcpt {
            Decision::Reject(Refusal { code: ReplyCode::policy_reason(), msg: b"foo".to_vec() })
        } else {
            self.rcpt_count += 1;
            Decision::Accept(())
        }
    }

    fn handle_mail(
        &mut self,
        _body: Vec<u8>,
        _state: (),
        _meta: MailMetadata,
        _cm: &ConnectionMetadata<()>,
    ) -> Decision<()> {
        if self.accept_mail {
            Decision::Accept(())
        } else {
            Decision::Reject(Refusal { code: ReplyCode::policy_reason(), msg: b"foo".to_vec() })
        }
    }
}

#[test]
fn interacts_ok() {
    // The mail handler rejects every body with `550 foo`.
    let tests: &[(&[u8], &[u8])] = &[
        (
            b"MAIL FROM:<foo@bar.example.org>\r\n\
              RCPT TO:<baz@quux.example.org>\r\n\
              RCPT TO:<foo2@bar.example.org>\r\n\
              DATA\r\n\
              Hello World\r\n\
              .\r\n\
              QUIT\r\n",
            b"250 Okay\r\n\
              250 Okay\r\n\
              250 Okay\r\n\
              354 Start mail input; end with <CRLF>.<CRLF>\r\n\
              550 foo\r\n\
              502 Command not implemented\r\n",
        ),
        (b"HELP hello\r\n", b"502 Command not implemented\r\n"),
        (
            // The second MAIL is refused without resetting the transaction,
            // and the body below never carries a terminator, so the
            // connection ends quietly after the go-ahead.
            b"MAIL FROM:<foo@bar.example.org>\r\n\
              MAIL FROM:<baz@quux.example.org>\r\n\
              RCPT TO:<foo2@bar.example.org>\r\n\
              DATA\r\n\
              Hello\r\n\nindented .\r\n\
              QUIT\r\n",
            b"250 Okay\r\n\
              503 Bad sequence of commands\r\n\
              250 Okay\r\n\
              354 Start mail input; end with <CRLF>.<CRLF>\r\n",
        ),
    ];
    for &(inp, expected) in tests {
        let mut cfg = Policy::rejecting_mail();
        let out = interact(inp, (), &mut cfg).unwrap();
        assert_eq!(
            String::from_utf8(out).unwrap(),
            String::from_utf8(expected.to_vec()).unwrap()
        );
    }
}

#[test]
fn accepted_mail_end_to_end() {
    let input: &[u8] = b"MAIL FROM:<foo@bar.example.org>\r\n\
        RCPT TO:<baz@quux.example.org>\r\n\
        RCPT TO:<foo2@bar.example.org>\r\n\
        DATA\r\n\
        Hello World\r\n\
        .\r\n\
        QUIT\r\n";
    let mut cfg = Policy::accepting();
    let out = interact(input, (), &mut cfg).unwrap();
    assert_eq!(
        String::from_utf8(out).unwrap(),
        "250 Okay\r\n\
         250 Okay\r\n\
         250 Okay\r\n\
         354 Start mail input; end with <CRLF>.<CRLF>\r\n\
         250 Okay\r\n\
         502 Command not implemented\r\n"
    );
    assert_eq!(cfg.rcpt_count, 2);
}

#[test]
fn rcpt_before_mail_is_bad_sequence() {
    let mut cfg = Policy::accepting();
    let out = interact(b"RCPT TO:<a@b.c>\r\n", (), &mut cfg).unwrap();
    assert_eq!(out, b"503 Bad sequence of commands\r\n".to_vec());
    assert_eq!(cfg.rcpt_count, 0);
}

#[test]
fn data_before_mail_is_bad_sequence() {
    let mut cfg = Policy::accepting();
    let out = interact(b"DATA\r\n", (), &mut cfg).unwrap();
    assert_eq!(out, b"503 Bad sequence of commands\r\n".to_vec());
}

#[test]
fn data_before_rcpt_is_bad_sequence() {
    let mut cfg = Policy::accepting();
    let out = interact(b"MAIL FROM:<a@b.c>\r\nDATA\r\nstray\r\n", (), &mut cfg).unwrap();
    assert_eq!(
        out,
        b"250 Okay\r\n503 Bad sequence of commands\r\n500 Command not recognized\r\n".to_vec()
    );
}

#[test]
fn second_mail_keeps_pending_transaction() {
    let mut cfg = Policy::accepting();
    let out = interact(
        b"MAIL FROM:<a@b.c>\r\nMAIL FROM:<d@e.f>\r\nRCPT TO:<g@h.i>\r\n",
        (),
        &mut cfg,
    )
    .unwrap();
    // The RCPT still lands in the transaction opened by the first MAIL.
    assert_eq!(
        out,
        b"250 Okay\r\n503 Bad sequence of commands\r\n250 Okay\r\n".to_vec()
    );
    assert_eq!(cfg.rcpt_count, 1);
}

#[test]
fn rejecting_policy_never_accepts_recipients() {
    let mut cfg = Policy::rejecting_rcpt();
    let out = interact(
        b"MAIL FROM:<a@b.c>\r\n\
          RCPT TO:<g@h.i>\r\n\
          RCPT TO:<j@k.l>\r\n\
          DATA\r\n",
        (),
        &mut cfg,
    )
    .unwrap();
    // Every RCPT draws `550 foo`; the transaction never gains a recipient,
    // so DATA is still out of sequence.
    assert_eq!(
        out,
        b"250 Okay\r\n550 foo\r\n550 foo\r\n503 Bad sequence of commands\r\n".to_vec()
    );
    assert_eq!(cfg.rcpt_count, 0);
}

#[test]
fn unrecognized_lines_keep_the_connection_going() {
    let mut cfg = Policy::accepting();
    let out = interact(b"what is this\r\nNOOP\r\n", (), &mut cfg).unwrap();
    assert_eq!(
        out,
        b"500 Command not recognized\r\n502 Command not implemented\r\n".to_vec()
    );
}

#[test]
fn trailing_partial_line_is_answered() {
    let mut cfg = Policy::accepting();
    let out = interact(b"NOOP\r\nMAIL FROM:<a@b.c>", (), &mut cfg).unwrap();
    // The partial final line lacks its CRLF: malformed, so unrecognized
    // traffic as far as replies go.
    assert_eq!(
        out,
        b"502 Command not implemented\r\n500 Command not recognized\r\n".to_vec()
    );
}

/// A policy whose accepting reply text holds a byte no reply may carry.
struct BadTextPolicy;

impl Config<(), ()> for BadTextPolicy {
    fn filter_from(&mut self, _from: &Vec<u8>, _cm: &ConnectionMetadata<()>) -> Decision<()> {
        Decision::Accept(())
    }

    fn filter_to(
        &mut self,
        _to: &Vec<u8>,
        _state: &mut (),
        _cm: &ConnectionMetadata<()>,
        _meta: &MailMetadata,
    ) -> Decision<()> {
        Decision::Accept(())
    }

    fn handle_mail(
        &mut self,
        _body: Vec<u8>,
        _state: (),
        _meta: MailMetadata,
        _cm: &ConnectionMetadata<()>,
    ) -> Decision<()> {
        Decision::Accept(())
    }

    fn mail_okay(&self) -> Vec<u8> {
        vec![1u8]
    }
}

#[test]
fn invalid_policy_text_is_fatal() {
    let mut cfg = BadTextPolicy;
    assert_eq!(
        interact(b"MAIL FROM:<a@b.c>\r\n", (), &mut cfg),
        Err(BuildError::InvalidTextByte)
    );
}

#[test]
fn empty_input_produces_no_replies() {
    let mut cfg = Policy::accepting();
    let out = interact(b"", (), &mut cfg).unwrap();
    assert_eq!(out, Vec::<u8>::new());
}

#[test]
fn empty_line_is_unrecognized() {
    let mut cfg = Policy::accepting();
    let out = interact(b"\r\n", (), &mut cfg).unwrap();
    assert_eq!(out, b"500 Command not recognized\r\n".to_vec());
}

#[test]
fn empty_body_is_handled() {
    // The body terminator standing alone right after DATA: an empty body.
    let mut cfg = Policy::accepting();
    let out = interact(b"MAIL FROM:<a@b.c>\r\nRCPT TO:<g@h.i>\r\nDATA\r\n.\r\nNOOP\r\n", (), &mut cfg)
        .unwrap();
    assert_eq!(
        out,
        b"250 Okay\r\n\
          250 Okay\r\n\
          354 Start mail input; end with <CRLF>.<CRLF>\r\n\
          250 Okay\r\n\
          502 Command not implemented\r\n"
            .to_vec()
    );
}
