use smtp_core::command::{
    command_helo_args, command_quit_args, Command, Domain, HeloCommand, ParseError, QuitCommand,
};

#[test]
fn valid_command_helo_args() {
    let tests: Vec<(&[u8], &[u8])> = vec![
        (b"hElO\t hello.world \t \r\n", b"hello.world"),
        (b"HELO hello.world\r\n", b"hello.world"),
    ];
    for (s, r) in tests.into_iter() {
        match command_helo_args(s) {
            Ok(h) => assert_eq!(h.domain().bytes().as_slice(), r),
            x => panic!("Unexpected result: {:?}", x),
        }
    }
}

#[test]
fn valid_build() {
    let mut v = Vec::new();
    HeloCommand::new(Domain::parse_slice(b"test.example.org").unwrap()).send_to(&mut v);
    assert_eq!(v, b"HELO test.example.org\r\n");

    assert!(Domain::parse_slice(b"test.").is_err());
}

#[test]
fn valid_command_quit_args() {
    let tests: Vec<&[u8]> = vec![b" \t  \t \r\n", b"\r\n"];
    for test in tests.into_iter() {
        assert_eq!(command_quit_args(test), Ok(QuitCommand {}));
    }
}

#[test]
fn parse_mail_and_rcpt() {
    match Command::parse(b"MAIL FROM:<foo@bar.example.org>\r\n") {
        Ok(Command::Mail(a)) => assert_eq!(a, b"foo@bar.example.org".to_vec()),
        x => panic!("Unexpected result: {:?}", x),
    }
    match Command::parse(b"mail from:<>\r\n") {
        Ok(Command::Mail(a)) => assert_eq!(a, Vec::<u8>::new()),
        x => panic!("Unexpected result: {:?}", x),
    }
    match Command::parse(b"RCPT TO:<baz@quux.example.org>\r\n") {
        Ok(Command::Rcpt(a)) => assert_eq!(a, b"baz@quux.example.org".to_vec()),
        x => panic!("Unexpected result: {:?}", x),
    }
}

#[test]
fn parse_simple_commands() {
    assert_eq!(Command::parse(b"DATA\r\n"), Ok(Command::Data));
    assert_eq!(Command::parse(b"  DATA  \r\n"), Ok(Command::Data));
    assert_eq!(Command::parse(b"RSET\r\n"), Ok(Command::Rset));
    assert_eq!(Command::parse(b"NOOP\r\n"), Ok(Command::Noop));
    assert_eq!(Command::parse(b"VRFY someone\r\n"), Ok(Command::Vrfy));
    assert_eq!(Command::parse(b"EXPN list\r\n"), Ok(Command::Expn));
    assert_eq!(Command::parse(b"HELP hello\r\n"), Ok(Command::Help));
    assert_eq!(Command::parse(b"quit\r\n"), Ok(Command::Quit(QuitCommand {})));
}

#[test]
fn parse_errors() {
    // Unknown keywords are unrecognized.
    assert_eq!(Command::parse(b"FOO\r\n"), Err(ParseError::Unrecognized));
    assert_eq!(Command::parse(b"\r\n"), Err(ParseError::Unrecognized));
    assert_eq!(Command::parse(b".\r\n"), Err(ParseError::Unrecognized));
    assert_eq!(Command::parse(b"Hello World\r\n"), Err(ParseError::Unrecognized));
    // Known keywords with bad arguments are malformed.
    assert_eq!(Command::parse(b"MAIL FROM foo\r\n"), Err(ParseError::Malformed));
    assert_eq!(Command::parse(b"MAIL FROM:<foo"), Err(ParseError::Malformed));
    assert_eq!(Command::parse(b"RCPT TO:<a@b> junk\r\n"), Err(ParseError::Malformed));
    assert_eq!(Command::parse(b"DATA now\r\n"), Err(ParseError::Malformed));
    assert_eq!(Command::parse(b"HELO bad..host\r\n"), Err(ParseError::Malformed));
    assert_eq!(Command::parse(b"HELO host"), Err(ParseError::Malformed));
    // A missing CRLF is malformed even for the trivial commands.
    assert_eq!(Command::parse(b"QUIT"), Err(ParseError::Malformed));
}

#[test]
fn parse_error_describe() {
    assert_eq!(ParseError::Unrecognized.describe(), "command keyword not recognized");
    assert_eq!(ParseError::Malformed.describe(), "malformed command line");
}

#[test]
fn domain_validation() {
    assert!(Domain::parse_slice(b"example.org").is_ok());
    assert!(Domain::parse_slice(b"a-b.c-d.e").is_ok());
    assert!(Domain::parse_slice(b"1.2.3.4").is_ok());
    assert!(Domain::parse_slice(b"").is_err());
    assert!(Domain::parse_slice(b".org").is_err());
    assert!(Domain::parse_slice(b"a..b").is_err());
    assert!(Domain::parse_slice(b"-a.b").is_err());
    assert!(Domain::parse_slice(b"a b").is_err());
}
