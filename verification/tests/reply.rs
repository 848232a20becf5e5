use smtp_core::reply::{
    build_reply, send_reply, BuildError, IsLastLine, ReplyCode, ReplyLine, MAX_LEN,
};

#[test]
fn reply_codes() {
    assert_eq!(ReplyCode::okay().code(), 250);
    assert_eq!(ReplyCode::data_okay().code(), 354);
    assert_eq!(ReplyCode::command_unrecognized().code(), 500);
    assert_eq!(ReplyCode::command_unimplemented().code(), 502);
    assert_eq!(ReplyCode::bad_sequence().code(), 503);
    assert_eq!(ReplyCode::policy_reason().code(), 550);
    assert_eq!(ReplyCode::new(550).unwrap().code(), 550);
    assert!(ReplyCode::new(99).is_none());
    assert!(ReplyCode::new(100).is_some());
    assert!(ReplyCode::new(999).is_some());
    assert!(ReplyCode::new(1000).is_none());
}

#[test]
fn build_checks_text() {
    let line = ReplyLine::build(ReplyCode::okay(), IsLastLine::Yes, b"Okay".to_vec()).unwrap();
    assert_eq!(line.text().as_slice(), b"Okay");
    assert_eq!(
        ReplyLine::build(ReplyCode::okay(), IsLastLine::Yes, vec![1u8]),
        Err(BuildError::InvalidTextByte)
    );
    assert_eq!(
        ReplyLine::build(ReplyCode::okay(), IsLastLine::Yes, vec![b'a'; MAX_LEN + 1]),
        Err(BuildError::TextTooLong)
    );
    // Tab is allowed; CR and LF are not.
    assert!(ReplyLine::build(ReplyCode::okay(), IsLastLine::Yes, b"a\tb".to_vec()).is_ok());
    assert!(ReplyLine::build(ReplyCode::okay(), IsLastLine::Yes, b"a\r\n".to_vec()).is_err());
}

#[test]
fn line_wire_encoding() {
    let mut w = Vec::new();
    ReplyLine::build(ReplyCode::okay(), IsLastLine::Yes, b"Okay".to_vec())
        .unwrap()
        .send_to(&mut w);
    assert_eq!(w, b"250 Okay\r\n");

    let mut w = Vec::new();
    ReplyLine::build(ReplyCode::bad_sequence(), IsLastLine::No, b"more".to_vec())
        .unwrap()
        .send_to(&mut w);
    assert_eq!(w, b"503-more\r\n");
}

#[test]
fn send_reply_single_line() {
    let mut out = Vec::new();
    send_reply(&mut out, ReplyCode::okay(), b"Okay").unwrap();
    assert_eq!(out, b"250 Okay\r\n");

    let mut out = Vec::new();
    send_reply(&mut out, ReplyCode::okay(), b"").unwrap();
    assert_eq!(out, b"250 \r\n");

    let mut out = Vec::new();
    assert_eq!(
        send_reply(&mut out, ReplyCode::okay(), b"\x07bell"),
        Err(BuildError::InvalidTextByte)
    );
    assert_eq!(out, b"");
}

#[test]
fn long_text_splits_into_continuations() {
    let text = vec![b'x'; MAX_LEN + 40];
    let lines = build_reply(ReplyCode::okay(), &text).unwrap();
    assert_eq!(lines.len(), 2);
    assert_eq!(lines[0].text().len(), MAX_LEN);
    assert_eq!(lines[1].text().len(), 40);
    // Concatenating the texts in order reconstructs the original text.
    let mut joined = Vec::new();
    for l in lines.iter() {
        assert!(l.text().len() <= MAX_LEN);
        assert_eq!(l.code().code(), 250);
        joined.extend_from_slice(l.text().as_slice());
    }
    assert_eq!(joined, text);

    let mut out = Vec::new();
    send_reply(&mut out, ReplyCode::okay(), &text).unwrap();
    let mut expected = Vec::new();
    expected.extend_from_slice(b"250-");
    expected.extend_from_slice(&vec![b'x'; MAX_LEN]);
    expected.extend_from_slice(b"\r\n250 ");
    expected.extend_from_slice(&vec![b'x'; 40]);
    expected.extend_from_slice(b"\r\n");
    assert_eq!(out, expected);
}

#[test]
fn exact_boundary_is_one_line() {
    let text = vec![b'y'; MAX_LEN];
    let lines = build_reply(ReplyCode::okay(), &text).unwrap();
    assert_eq!(lines.len(), 1);
    assert_eq!(lines[0].is_last(), IsLastLine::Yes);
}
