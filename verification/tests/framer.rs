use smtp_core::framer::CrlfLines;

fn drain(f: &mut CrlfLines) -> Vec<Vec<u8>> {
    let mut lines = Vec::new();
    while let Some(l) = f.next_line() {
        lines.push(l);
    }
    lines
}

#[test]
fn crlflines_looks_good() {
    let mut framer = CrlfLines::new();
    framer.push_chunk(
        b"MAIL FROM:<foo@bar.example.org>\r\n\
          RCPT TO:<baz@quux.example.org>\r\n\
          RCPT TO:<foo2@bar.example.org>\r\n\
          DATA\r\n\
          Hello World\r\n\
          .\r\n\
          QUIT\r\n",
    );

    assert_eq!(
        drain(&mut framer),
        vec![
            b"MAIL FROM:<foo@bar.example.org>\r\n".to_vec(),
            b"RCPT TO:<baz@quux.example.org>\r\n".to_vec(),
            b"RCPT TO:<foo2@bar.example.org>\r\n".to_vec(),
            b"DATA\r\n".to_vec(),
            b"Hello World\r\n".to_vec(),
            b".\r\n".to_vec(),
            b"QUIT\r\n".to_vec(),
        ]
    );
    assert_eq!(framer.underlying(), Vec::<u8>::new());
}

#[test]
fn framing_is_chunk_invariant() {
    let input = b"first line\r\nsecond\rstill second\r\n\ntail without end";
    let mut whole = CrlfLines::new();
    whole.push_chunk(input);
    let whole_lines = drain(&mut whole);

    let mut bytewise = CrlfLines::new();
    for b in input.iter() {
        bytewise.push_chunk(&[*b]);
    }
    let byte_lines = drain(&mut bytewise);

    let mut split = CrlfLines::new();
    split.push_chunk(&input[..13]);
    split.push_chunk(&input[13..]);
    let split_lines = drain(&mut split);

    assert_eq!(whole_lines, byte_lines);
    assert_eq!(whole_lines, split_lines);
    assert_eq!(
        whole_lines,
        vec![b"first line\r\n".to_vec(), b"second\rstill second\r\n".to_vec()]
    );
    assert_eq!(whole.underlying(), b"\ntail without end".to_vec());
    assert_eq!(bytewise.underlying(), b"\ntail without end".to_vec());
}

#[test]
fn crlf_split_across_chunks() {
    let mut framer = CrlfLines::new();
    framer.push_chunk(b"abc\r");
    assert!(framer.next_line().is_none());
    framer.push_chunk(b"\ndef");
    assert_eq!(framer.next_line(), Some(b"abc\r\n".to_vec()));
    assert!(framer.next_line().is_none());
    assert_eq!(framer.underlying(), b"def".to_vec());
}

#[test]
fn bare_line_feed_does_not_end_a_line() {
    let mut framer = CrlfLines::new();
    framer.push_chunk(b"a\nb\r\n");
    assert_eq!(framer.next_line(), Some(b"a\nb\r\n".to_vec()));
    assert!(framer.next_line().is_none());
}
