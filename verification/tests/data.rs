use smtp_core::data::{dot_stuff, DataStream};

/// Run the transducer over the given chunks; return `(body, remainder)` if
/// the stream terminated.
fn transcode(chunks: &[&[u8]]) -> Option<(Vec<u8>, Vec<u8>)> {
    let mut ds = DataStream::new();
    for c in chunks.iter() {
        ds.push_chunk(c);
    }
    if ds.is_terminated() {
        Some(ds.into_parts())
    } else {
        None
    }
}

/// Every way of cutting `input` into two chunks gives the same outcome as
/// the whole input at once, and so does feeding it byte by byte.
fn assert_chunk_invariant(input: &[u8], expected: Option<(&[u8], &[u8])>) {
    let expected = expected.map(|(b, r)| (b.to_vec(), r.to_vec()));
    assert_eq!(transcode(&[input]), expected, "whole input: {:?}", input);
    for cut in 0..=input.len() {
        assert_eq!(
            transcode(&[&input[..cut], &input[cut..]]),
            expected,
            "cut at {} of {:?}",
            cut,
            input
        );
    }
    let bytes: Vec<&[u8]> = input.chunks(1).collect();
    assert_eq!(transcode(&bytes), expected, "byte by byte: {:?}", input);
}

#[test]
fn transcoding_is_chunk_invariant() {
    assert_chunk_invariant(b"Hello World\r\n.\r\nQUIT\r\n", Some((b"Hello World\r\n", b"QUIT\r\n")));
    assert_chunk_invariant(b".\r\nrest", Some((b"", b"rest")));
    assert_chunk_invariant(b"\r\n.\r\n", Some((b"\r\n", b"")));
    assert_chunk_invariant(b"..x\r\n.\r\n", Some((b".x\r\n", b"")));
    assert_chunk_invariant(b"a\r\n..\r\n.\r\n", Some((b"a\r\n.\r\n", b"")));
    assert_chunk_invariant(b"a\r\n.\rx\r\n.\r\n", Some((b"a\r\n\rx\r\n", b"")));
    assert_chunk_invariant(b"no terminator at all", None);
    assert_chunk_invariant(b"ends mid-way\r\n.\r", None);
    assert_chunk_invariant(b"", None);
}

#[test]
fn empty_body_at_stream_start() {
    let (body, rem) = transcode(&[b".\r\n"]).unwrap();
    assert_eq!(body, b"".to_vec());
    assert_eq!(rem, b"".to_vec());
}

#[test]
fn remainder_keeps_bytes_after_terminator() {
    let (body, rem) = transcode(&[b"line\r\n.\r\nMAIL FROM:<x@y.z>\r\n"]).unwrap();
    assert_eq!(body, b"line\r\n".to_vec());
    assert_eq!(rem, b"MAIL FROM:<x@y.z>\r\n".to_vec());
}

#[test]
fn stuffing_doubles_line_opening_dots() {
    assert_eq!(dot_stuff(b"Hello\r\n"), b"Hello\r\n.\r\n".to_vec());
    assert_eq!(dot_stuff(b""), b".\r\n".to_vec());
    assert_eq!(dot_stuff(b".x\r\n"), b"..x\r\n.\r\n".to_vec());
    assert_eq!(dot_stuff(b"a\r\n.\r\n"), b"a\r\n..\r\n.\r\n".to_vec());
    assert_eq!(dot_stuff(b"a.b\r\n"), b"a.b\r\n.\r\n".to_vec());
}

#[test]
fn stuff_then_unstuff_round_trips() {
    let bodies: Vec<&[u8]> = vec![
        b"",
        b"Hello World\r\n",
        b".\r\n",
        b"..\r\n",
        b".start\r\nmiddle.\r\n.end\r\n",
        b"a\r\n\r\n.b\r\n",
        b"contains\r\n.\r\na bare terminator\r\n",
    ];
    for body in bodies.into_iter() {
        let wire = dot_stuff(body);
        let (back, rem) = transcode(&[wire.as_slice()]).unwrap();
        assert_eq!(back, body.to_vec(), "round trip of {:?}", body);
        assert_eq!(rem, b"".to_vec());
    }
}
