//! The command grammar: parsing one CRLF-terminated line into a typed
//! command, and the validated domain token.
//!
//! Runs of spaces and horizontal tabs around tokens are tolerated and not
//! significant. Keywords match case-insensitively. An unknown keyword is an
//! unrecognized command; a known keyword with bad arguments, a missing CRLF
//! or trailing garbage is a malformed one.

use vstd::prelude::*;

use crate::util::copy_range;

verus! {

/// Why a line failed to parse.
#[derive(Clone, Copy, Debug, PartialEq, Eq, Structural)]
pub enum ParseError {
    /// The command keyword is not part of the grammar.
    Unrecognized,
    /// The keyword is known but the rest of the line does not fit its form.
    Malformed,
}

impl ParseError {
    /// A short human-readable account of the error.
    pub fn describe(&self) -> &'static str {
        match self {
            ParseError::Unrecognized => "command keyword not recognized",
            ParseError::Malformed => "malformed command line",
        }
    }
}

pub open spec fn is_sp(b: u8) -> bool {
    b == 32 || b == 9
}

pub open spec fn is_alpha(b: u8) -> bool {
    (65 <= b && b <= 90) || (97 <= b && b <= 122)
}

pub open spec fn is_alnum(b: u8) -> bool {
    is_alpha(b) || (48 <= b && b <= 57)
}

/// Bytes a hostname may contain.
pub open spec fn is_host_byte(b: u8) -> bool {
    is_alnum(b) || b == 45 || b == 46
}

/// Bytes a free-standing argument token may contain: printable, non-space.
pub open spec fn is_token_byte(b: u8) -> bool {
    33 <= b && b <= 126
}

/// Bytes a bracketed path may contain: printable, non-space, no brackets.
pub open spec fn is_addr_byte(b: u8) -> bool {
    33 <= b && b <= 126 && b != 60 && b != 62
}

/// ASCII uppercase of one byte.
pub open spec fn upper(b: u8) -> u8 {
    if 97 <= b && b <= 122 {
        (b - 32) as u8
    } else {
        b
    }
}

/// ASCII uppercase of a byte sequence.
pub open spec fn upper_seq(s: Seq<u8>) -> Seq<u8> {
    Seq::new(s.len(), |i: int| upper(s[i]))
}

/// First position at or after `i` that is not a space or tab.
pub open spec fn skip_sp(s: Seq<u8>, i: int) -> int
    decreases s.len() - i,
{
    if 0 <= i && i < s.len() && is_sp(s[i]) {
        skip_sp(s, i + 1)
    } else {
        i
    }
}

/// End of the run of ASCII letters starting at `i`.
pub open spec fn alpha_end(s: Seq<u8>, i: int) -> int
    decreases s.len() - i,
{
    if 0 <= i && i < s.len() && is_alpha(s[i]) {
        alpha_end(s, i + 1)
    } else {
        i
    }
}

/// End of the run of hostname bytes starting at `i`.
pub open spec fn host_end(s: Seq<u8>, i: int) -> int
    decreases s.len() - i,
{
    if 0 <= i && i < s.len() && is_host_byte(s[i]) {
        host_end(s, i + 1)
    } else {
        i
    }
}

/// End of the run of token bytes starting at `i`.
pub open spec fn token_end(s: Seq<u8>, i: int) -> int
    decreases s.len() - i,
{
    if 0 <= i && i < s.len() && is_token_byte(s[i]) {
        token_end(s, i + 1)
    } else {
        i
    }
}

/// End of the run of path bytes starting at `i`.
pub open spec fn addr_end(s: Seq<u8>, i: int) -> int
    decreases s.len() - i,
{
    if 0 <= i && i < s.len() && is_addr_byte(s[i]) {
        addr_end(s, i + 1)
    } else {
        i
    }
}

/// The line ends, with its CRLF, exactly at position `j`.
pub open spec fn ends_crlf_at(line: Seq<u8>, j: int) -> bool {
    &&& 0 <= j
    &&& j + 2 == line.len()
    &&& line[j] == 13
    &&& line[j + 1] == 10
}

/// A valid hostname: dot-separated labels, each starting with a letter or
/// digit and continuing with letters, digits and hyphens.
pub open spec fn is_hostname(d: Seq<u8>) -> bool {
    &&& d.len() >= 1
    &&& is_alnum(d[0])
    &&& forall|i: int| 0 <= i < d.len() ==> is_host_byte(#[trigger] d[i])
    &&& forall|i: int| 0 <= i < d.len() && #[trigger] d[i] == 46 ==> i + 1 < d.len() && is_alnum(
        d[i + 1],
    )
}

/// A validated hostname token, only constructible through the grammar.
#[derive(Debug, PartialEq, Eq)]
pub struct Domain {
    bytes: Vec<u8>,
}

impl View for Domain {
    type V = Seq<u8>;

    closed spec fn view(&self) -> Seq<u8> {
        self.bytes@
    }
}

impl Domain {
    /// A domain always holds a valid hostname.
    #[verifier::type_invariant]
    pub closed spec fn inv(self) -> bool {
        is_hostname(self.bytes@)
    }

    /// Parse a whole byte slice as a hostname.
    pub fn parse_slice(b: &[u8]) -> (r: Result<Domain, ParseError>)
        ensures
            match r {
                Ok(d) => is_hostname(b@) && d@ == b@,
                Err(e) => !is_hostname(b@) && e == ParseError::Malformed,
            },
    {
        if check_hostname(b) {
            Ok(Domain { bytes: copy_range(b, 0, b.len()) })
        } else {
            Err(ParseError::Malformed)
        }
    }

    /// The hostname bytes.
    pub fn bytes(&self) -> (r: &Vec<u8>)
        ensures
            r@ == self@,
    {
        &self.bytes
    }

    /// Append the hostname bytes to `w`.
    pub fn send_to(&self, w: &mut Vec<u8>)
        ensures
            final(w)@ == old(w)@ + self@,
    {
        let mut i: usize = 0;
        while i < self.bytes.len()
            invariant
                i <= self.bytes@.len(),
                w@ == old(w)@ + self.bytes@.take(i as int),
            decreases self.bytes@.len() - i,
        {
            w.push(self.bytes[i]);
            proof {
                assert(old(w)@ + self.bytes@.take(i as int) + seq![self.bytes@[i as int]]
                    =~= old(w)@ + self.bytes@.take(i + 1));
            }
            i += 1;
        }
        proof {
            assert(self.bytes@.take(self.bytes@.len() as int) =~= self.bytes@);
        }
    }
}

/// Whether a whole slice is a valid hostname.
fn check_hostname(b: &[u8]) -> (r: bool)
    ensures
        r == is_hostname(b@),
{
    if b.len() == 0 {
        return false;
    }
    let b0 = b[0];
    if !((65 <= b0 && b0 <= 90) || (97 <= b0 && b0 <= 122) || (48 <= b0 && b0 <= 57)) {
        return false;
    }
    let mut i: usize = 0;
    while i < b.len()
        invariant
            i <= b@.len(),
            b@.len() >= 1,
            is_alnum(b@[0]),
            forall|j: int| 0 <= j < i ==> is_host_byte(#[trigger] b@[j]),
            forall|j: int|
                0 <= j < i && #[trigger] b@[j] == 46 ==> j + 1 < b@.len() && is_alnum(b@[j + 1]),
        decreases b@.len() - i,
    {
        let c = b[i];
        let alnum = (65 <= c && c <= 90) || (97 <= c && c <= 122) || (48 <= c && c <= 57);
        if !(alnum || c == 45 || c == 46) {
            return false;
        }
        if c == 46 {
            if i + 1 >= b.len() {
                return false;
            }
            let d = b[i + 1];
            if !((65 <= d && d <= 90) || (97 <= d && d <= 122) || (48 <= d && d <= 57)) {
                return false;
            }
        }
        i += 1;
    }
    true
}

/// A HELO command: the client names itself with a hostname.
#[derive(Debug, PartialEq, Eq)]
pub struct HeloCommand {
    domain: Domain,
}

impl View for HeloCommand {
    type V = Seq<u8>;

    closed spec fn view(&self) -> Seq<u8> {
        self.domain@
    }
}

/// The wire bytes of a HELO command line.
pub open spec fn helo_wire(d: Seq<u8>) -> Seq<u8> {
    seq![72u8, 69u8, 76u8, 79u8, 32u8] + d + seq![13u8, 10u8]
}

impl HeloCommand {
    pub fn new(domain: Domain) -> (r: HeloCommand)
        ensures
            r@ == domain@,
    {
        HeloCommand { domain }
    }

    pub fn domain(&self) -> (r: &Domain)
        ensures
            r@ == self@,
    {
        &self.domain
    }

    /// Append the command's wire form, `HELO <domain>` CRLF, to `w`.
    pub fn send_to(&self, w: &mut Vec<u8>)
        ensures
            final(w)@ == old(w)@ + helo_wire(self@),
    {
        w.push(72);
        w.push(69);
        w.push(76);
        w.push(79);
        w.push(32);
        self.domain.send_to(w);
        w.push(13);
        w.push(10);
        proof {
            assert(w@ =~= old(w)@ + helo_wire(self@));
        }
    }
}

/// A QUIT command carries nothing.
#[derive(Clone, Copy, Debug, PartialEq, Eq, Structural)]
pub struct QuitCommand {}

/// The abstract result of parsing a line: the command with its payload, or
/// which kind of parse failure the line is.
pub enum CommandModel {
    Helo(Seq<u8>),
    Ehlo(Seq<u8>),
    Mail(Seq<u8>),
    Rcpt(Seq<u8>),
    Data,
    Rset,
    Noop,
    Vrfy,
    Expn,
    Help,
    Quit,
    Unrecognized,
    Malformed,
}

pub open spec fn kw_helo() -> Seq<u8> {
    seq![72u8, 69u8, 76u8, 79u8]
}

pub open spec fn kw_ehlo() -> Seq<u8> {
    seq![69u8, 72u8, 76u8, 79u8]
}

pub open spec fn kw_mail() -> Seq<u8> {
    seq![77u8, 65u8, 73u8, 76u8]
}

pub open spec fn kw_rcpt() -> Seq<u8> {
    seq![82u8, 67u8, 80u8, 84u8]
}

pub open spec fn kw_data() -> Seq<u8> {
    seq![68u8, 65u8, 84u8, 65u8]
}

pub open spec fn kw_rset() -> Seq<u8> {
    seq![82u8, 83u8, 69u8, 84u8]
}

pub open spec fn kw_noop() -> Seq<u8> {
    seq![78u8, 79u8, 79u8, 80u8]
}

pub open spec fn kw_vrfy() -> Seq<u8> {
    seq![86u8, 82u8, 70u8, 89u8]
}

pub open spec fn kw_expn() -> Seq<u8> {
    seq![69u8, 88u8, 80u8, 78u8]
}

pub open spec fn kw_help() -> Seq<u8> {
    seq![72u8, 69u8, 76u8, 80u8]
}

pub open spec fn kw_quit() -> Seq<u8> {
    seq![81u8, 85u8, 73u8, 84u8]
}

/// `FROM:` after the MAIL keyword.
pub open spec fn tag_from() -> Seq<u8> {
    seq![70u8, 82u8, 79u8, 77u8, 58u8]
}

/// `TO:` after the RCPT keyword.
pub open spec fn tag_to() -> Seq<u8> {
    seq![84u8, 79u8, 58u8]
}

/// A hostname argument then the end of the line, starting after the
/// keyword at `k`: the domain if the rest of the line fits.
pub open spec fn host_args_model(line: Seq<u8>, k: int) -> Option<Seq<u8>> {
    let j = skip_sp(line, k);
    let h = host_end(line, j);
    let j2 = skip_sp(line, h);
    if is_hostname(line.subrange(j, h)) && ends_crlf_at(line, j2) {
        Some(line.subrange(j, h))
    } else {
        None
    }
}

/// A bracketed path then the end of the line, starting right after the
/// `FROM:`/`TO:` tag at `j5`: the raw path if the rest of the line fits.
pub open spec fn path_args_model(line: Seq<u8>, j5: int) -> Option<Seq<u8>> {
    let j2 = skip_sp(line, j5);
    if 0 <= j2 && j2 < line.len() && line[j2] == 60 {
        let e = addr_end(line, j2 + 1);
        if e < line.len() && line[e] == 62 && ends_crlf_at(line, skip_sp(line, e + 1)) {
            Some(line.subrange(j2 + 1, e))
        } else {
            None
        }
    } else {
        None
    }
}

/// Nothing but blanks between the keyword end `k` and the final CRLF.
pub open spec fn bare_args_model(line: Seq<u8>, k: int) -> bool {
    ends_crlf_at(line, skip_sp(line, k))
}

/// An optional single token between the keyword end `k` and the final CRLF.
pub open spec fn token_args_model(line: Seq<u8>, k: int) -> bool {
    ends_crlf_at(line, skip_sp(line, token_end(line, skip_sp(line, k))))
}

/// What one line parses to.
pub open spec fn parse_model(line: Seq<u8>) -> CommandModel {
    let i0 = skip_sp(line, 0);
    let k = alpha_end(line, i0);
    let kw = upper_seq(line.subrange(i0, k));
    if kw == kw_helo() {
        match host_args_model(line, k) {
            Some(d) => CommandModel::Helo(d),
            None => CommandModel::Malformed,
        }
    } else if kw == kw_ehlo() {
        match host_args_model(line, k) {
            Some(d) => CommandModel::Ehlo(d),
            None => CommandModel::Malformed,
        }
    } else if kw == kw_mail() {
        let j = skip_sp(line, k);
        if j + 5 <= line.len() && upper_seq(line.subrange(j, j + 5)) == tag_from() {
            match path_args_model(line, j + 5) {
                Some(a) => CommandModel::Mail(a),
                None => CommandModel::Malformed,
            }
        } else {
            CommandModel::Malformed
        }
    } else if kw == kw_rcpt() {
        let j = skip_sp(line, k);
        if j + 3 <= line.len() && upper_seq(line.subrange(j, j + 3)) == tag_to() {
            match path_args_model(line, j + 3) {
                Some(a) => CommandModel::Rcpt(a),
                None => CommandModel::Malformed,
            }
        } else {
            CommandModel::Malformed
        }
    } else if kw == kw_data() {
        if bare_args_model(line, k) {
            CommandModel::Data
        } else {
            CommandModel::Malformed
        }
    } else if kw == kw_rset() {
        if token_args_model(line, k) {
            CommandModel::Rset
        } else {
            CommandModel::Malformed
        }
    } else if kw == kw_noop() {
        if token_args_model(line, k) {
            CommandModel::Noop
        } else {
            CommandModel::Malformed
        }
    } else if kw == kw_vrfy() {
        if token_args_model(line, k) {
            CommandModel::Vrfy
        } else {
            CommandModel::Malformed
        }
    } else if kw == kw_expn() {
        if token_args_model(line, k) {
            CommandModel::Expn
        } else {
            CommandModel::Malformed
        }
    } else if kw == kw_help() {
        if token_args_model(line, k) {
            CommandModel::Help
        } else {
            CommandModel::Malformed
        }
    } else if kw == kw_quit() {
        if token_args_model(line, k) {
            CommandModel::Quit
        } else {
            CommandModel::Malformed
        }
    } else {
        CommandModel::Unrecognized
    }
}

/// One parsed command line.
#[derive(Debug, PartialEq, Eq)]
pub enum Command {
    Helo(HeloCommand),
    Ehlo(Domain),
    Mail(Vec<u8>),
    Rcpt(Vec<u8>),
    Data,
    Rset,
    Noop,
    Vrfy,
    Expn,
    Help,
    Quit(QuitCommand),
}

/// The parsed command carries exactly the payload of the abstract model.
pub open spec fn models(c: Command, m: CommandModel) -> bool {
    match c {
        Command::Helo(h) => m == CommandModel::Helo(h@),
        Command::Ehlo(d) => m == CommandModel::Ehlo(d@),
        Command::Mail(a) => m == CommandModel::Mail(a@),
        Command::Rcpt(a) => m == CommandModel::Rcpt(a@),
        Command::Data => m == CommandModel::Data,
        Command::Rset => m == CommandModel::Rset,
        Command::Noop => m == CommandModel::Noop,
        Command::Vrfy => m == CommandModel::Vrfy,
        Command::Expn => m == CommandModel::Expn,
        Command::Help => m == CommandModel::Help,
        Command::Quit(_) => m == CommandModel::Quit,
    }
}

/// ASCII uppercase of one byte.
fn upper_x(b: u8) -> (r: u8)
    ensures
        r == upper(b),
{
    if 97 <= b && b <= 122 {
        b - 32
    } else {
        b
    }
}

fn skip_sp_x(line: &[u8], i: usize) -> (r: usize)
    requires
        i <= line@.len(),
    ensures
        r == skip_sp(line@, i as int),
        i <= r <= line@.len(),
{
    let mut cur = i;
    loop
        invariant
            i <= cur <= line@.len(),
            skip_sp(line@, i as int) == skip_sp(line@, cur as int),
        decreases line@.len() - cur,
    {
        if cur < line.len() {
            let b = line[cur];
            if b == 32 || b == 9 {
                cur += 1;
            } else {
                return cur;
            }
        } else {
            return cur;
        }
    }
}

fn alpha_end_x(line: &[u8], i: usize) -> (r: usize)
    requires
        i <= line@.len(),
    ensures
        r == alpha_end(line@, i as int),
        i <= r <= line@.len(),
{
    let mut cur = i;
    loop
        invariant
            i <= cur <= line@.len(),
            alpha_end(line@, i as int) == alpha_end(line@, cur as int),
        decreases line@.len() - cur,
    {
        if cur < line.len() {
            let b = line[cur];
            if (65 <= b && b <= 90) || (97 <= b && b <= 122) {
                cur += 1;
            } else {
                return cur;
            }
        } else {
            return cur;
        }
    }
}

fn host_end_x(line: &[u8], i: usize) -> (r: usize)
    requires
        i <= line@.len(),
    ensures
        r == host_end(line@, i as int),
        i <= r <= line@.len(),
{
    let mut cur = i;
    loop
        invariant
            i <= cur <= line@.len(),
            host_end(line@, i as int) == host_end(line@, cur as int),
        decreases line@.len() - cur,
    {
        if cur < line.len() {
            let b = line[cur];
            if (65 <= b && b <= 90) || (97 <= b && b <= 122) || (48 <= b && b <= 57) || b == 45
                || b == 46 {
                cur += 1;
            } else {
                return cur;
            }
        } else {
            return cur;
        }
    }
}

fn token_end_x(line: &[u8], i: usize) -> (r: usize)
    requires
        i <= line@.len(),
    ensures
        r == token_end(line@, i as int),
        i <= r <= line@.len(),
{
    let mut cur = i;
    loop
        invariant
            i <= cur <= line@.len(),
            token_end(line@, i as int) == token_end(line@, cur as int),
        decreases line@.len() - cur,
    {
        if cur < line.len() {
            let b = line[cur];
            if 33 <= b && b <= 126 {
                cur += 1;
            } else {
                return cur;
            }
        } else {
            return cur;
        }
    }
}

fn addr_end_x(line: &[u8], i: usize) -> (r: usize)
    requires
        i <= line@.len(),
    ensures
        r == addr_end(line@, i as int),
        i <= r <= line@.len(),
{
    let mut cur = i;
    loop
        invariant
            i <= cur <= line@.len(),
            addr_end(line@, i as int) == addr_end(line@, cur as int),
        decreases line@.len() - cur,
    {
        if cur < line.len() {
            let b = line[cur];
            if 33 <= b && b <= 126 && b != 60 && b != 62 {
                cur += 1;
            } else {
                return cur;
            }
        } else {
            return cur;
        }
    }
}

fn ends_crlf_x(line: &[u8], j: usize) -> (r: bool)
    requires
        j <= line@.len(),
    ensures
        r == ends_crlf_at(line@, j as int),
{
    if line.len() < 2 {
        return false;
    }
    j == line.len() - 2 && line[j] == 13 && line[j + 1] == 10
}

/// Case-insensitive match of `line[i..k]` against a four-letter keyword.
fn kw_is(line: &[u8], i: usize, k: usize, w0: u8, w1: u8, w2: u8, w3: u8) -> (r: bool)
    requires
        i <= k <= line@.len(),
    ensures
        r == (upper_seq(line@.subrange(i as int, k as int)) == seq![w0, w1, w2, w3]),
{
    let ghost u = upper_seq(line@.subrange(i as int, k as int));
    if k - i != 4 {
        proof {
            assert(u.len() != 4);
        }
        return false;
    }
    let r = upper_x(line[i]) == w0 && upper_x(line[i + 1]) == w1 && upper_x(line[i + 2]) == w2
        && upper_x(line[i + 3]) == w3;
    proof {
        if r {
            assert(u =~= seq![w0, w1, w2, w3]);
        } else {
            assert(u != seq![w0, w1, w2, w3]) by {
                assert(u[0] == upper(line@[i as int]));
                assert(u[1] == upper(line@[i + 1]));
                assert(u[2] == upper(line@[i + 2]));
                assert(u[3] == upper(line@[i + 3]));
            }
        }
    }
    r
}

/// Case-insensitive match of the five bytes at `j` against `FROM:`,
/// returning the position right after the tag.
fn tag_from_is(line: &[u8], j: usize) -> (r: Option<usize>)
    requires
        j <= line@.len(),
    ensures
        match r {
            Some(j5) => j5 == j + 5 && j + 5 <= line@.len() && upper_seq(
                line@.subrange(j as int, j + 5),
            ) == tag_from(),
            None => !(j + 5 <= line@.len() && upper_seq(line@.subrange(j as int, j + 5))
                == tag_from()),
        },
{
    if line.len() < 5 || j > line.len() - 5 {
        return None;
    }
    let ghost u = upper_seq(line@.subrange(j as int, j + 5));
    let ok = upper_x(line[j]) == 70 && upper_x(line[j + 1]) == 82 && upper_x(line[j + 2]) == 79
        && upper_x(line[j + 3]) == 77 && line[j + 4] == 58;
    proof {
        assert(u[0] == upper(line@[j as int]));
        assert(u[1] == upper(line@[j + 1]));
        assert(u[2] == upper(line@[j + 2]));
        assert(u[3] == upper(line@[j + 3]));
        assert(u[4] == upper(line@[j + 4]));
        if ok {
            assert(u =~= tag_from());
        }
    }
    if ok {
        Some(j + 5)
    } else {
        None
    }
}

/// Case-insensitive match of the three bytes at `j` against `TO:`,
/// returning the position right after the tag.
fn tag_to_is(line: &[u8], j: usize) -> (r: Option<usize>)
    requires
        j <= line@.len(),
    ensures
        match r {
            Some(j3) => j3 == j + 3 && j + 3 <= line@.len() && upper_seq(
                line@.subrange(j as int, j + 3),
            ) == tag_to(),
            None => !(j + 3 <= line@.len() && upper_seq(line@.subrange(j as int, j + 3))
                == tag_to()),
        },
{
    if line.len() < 3 || j > line.len() - 3 {
        return None;
    }
    let ghost u = upper_seq(line@.subrange(j as int, j + 3));
    let ok = upper_x(line[j]) == 84 && upper_x(line[j + 1]) == 79 && line[j + 2] == 58;
    proof {
        assert(u[0] == upper(line@[j as int]));
        assert(u[1] == upper(line@[j + 1]));
        assert(u[2] == upper(line@[j + 2]));
        if ok {
            assert(u =~= tag_to());
        }
    }
    if ok {
        Some(j + 3)
    } else {
        None
    }
}

/// Parse a hostname argument and the line end after keyword end `k`.
fn parse_host_args(line: &[u8], k: usize) -> (r: Option<Domain>)
    requires
        k <= line@.len(),
    ensures
        match r {
            Some(d) => host_args_model(line@, k as int) == Some(d@),
            None => host_args_model(line@, k as int) is None,
        },
{
    let j = skip_sp_x(line, k);
    let h = host_end_x(line, j);
    let j2 = skip_sp_x(line, h);
    let ok = ends_crlf_x(line, j2);
    if !ok {
        return None;
    }
    match Domain::parse_slice(&line[j..h]) {
        Ok(d) => {
            proof {
                assert(line@.subrange(j as int, h as int) == d@);
            }
            Some(d)
        },
        Err(_) => None,
    }
}

/// Parse a bracketed path argument and the line end after the tag end `j5`.
fn parse_path_args(line: &[u8], j5: usize) -> (r: Option<Vec<u8>>)
    requires
        j5 <= line@.len(),
    ensures
        match r {
            Some(a) => path_args_model(line@, j5 as int) == Some(a@),
            None => path_args_model(line@, j5 as int) is None,
        },
{
    let j2 = skip_sp_x(line, j5);
    if !(j2 < line.len() && line[j2] == 60) {
        return None;
    }
    let e = addr_end_x(line, j2 + 1);
    if !(e < line.len() && line[e] == 62) {
        return None;
    }
    let j3 = skip_sp_x(line, e + 1);
    if !ends_crlf_x(line, j3) {
        return None;
    }
    Some(copy_range(line, j2 + 1, e))
}

impl Command {
    /// Parse one CRLF-terminated line into a command.
    ///
    /// Exactly the lines whose keyword is outside the grammar fail as
    /// unrecognized; exactly the lines with a known keyword and a malformed
    /// rest fail as malformed; every other line yields the command the
    /// abstract grammar assigns to it.
    pub fn parse(line: &[u8]) -> (r: Result<Command, ParseError>)
        ensures
            match r {
                Ok(c) => models(c, parse_model(line@)),
                Err(ParseError::Unrecognized) => parse_model(line@) == CommandModel::Unrecognized,
                Err(ParseError::Malformed) => parse_model(line@) == CommandModel::Malformed,
            },
    {
        let i0 = skip_sp_x(line, 0);
        let k = alpha_end_x(line, i0);
        if kw_is(line, i0, k, 72, 69, 76, 79) {
            match parse_host_args(line, k) {
                Some(d) => Ok(Command::Helo(HeloCommand::new(d))),
                None => Err(ParseError::Malformed),
            }
        } else if kw_is(line, i0, k, 69, 72, 76, 79) {
            match parse_host_args(line, k) {
                Some(d) => Ok(Command::Ehlo(d)),
                None => Err(ParseError::Malformed),
            }
        } else if kw_is(line, i0, k, 77, 65, 73, 76) {
            let j = skip_sp_x(line, k);
            match tag_from_is(line, j) {
                Some(j5) => match parse_path_args(line, j5) {
                    Some(a) => Ok(Command::Mail(a)),
                    None => Err(ParseError::Malformed),
                },
                None => Err(ParseError::Malformed),
            }
        } else if kw_is(line, i0, k, 82, 67, 80, 84) {
            let j = skip_sp_x(line, k);
            match tag_to_is(line, j) {
                Some(j3) => match parse_path_args(line, j3) {
                    Some(a) => Ok(Command::Rcpt(a)),
                    None => Err(ParseError::Malformed),
                },
                None => Err(ParseError::Malformed),
            }
        } else if kw_is(line, i0, k, 68, 65, 84, 65) {
            let j = skip_sp_x(line, k);
            if ends_crlf_x(line, j) {
                Ok(Command::Data)
            } else {
                Err(ParseError::Malformed)
            }
        } else if kw_is(line, i0, k, 82, 83, 69, 84) {
            if parse_token_args(line, k) {
                Ok(Command::Rset)
            } else {
                Err(ParseError::Malformed)
            }
        } else if kw_is(line, i0, k, 78, 79, 79, 80) {
            if parse_token_args(line, k) {
                Ok(Command::Noop)
            } else {
                Err(ParseError::Malformed)
            }
        } else if kw_is(line, i0, k, 86, 82, 70, 89) {
            if parse_token_args(line, k) {
                Ok(Command::Vrfy)
            } else {
                Err(ParseError::Malformed)
            }
        } else if kw_is(line, i0, k, 69, 88, 80, 78) {
            if parse_token_args(line, k) {
                Ok(Command::Expn)
            } else {
                Err(ParseError::Malformed)
            }
        } else if kw_is(line, i0, k, 72, 69, 76, 80) {
            if parse_token_args(line, k) {
                Ok(Command::Help)
            } else {
                Err(ParseError::Malformed)
            }
        } else if kw_is(line, i0, k, 81, 85, 73, 84) {
            if parse_token_args(line, k) {
                Ok(Command::Quit(QuitCommand {  }))
            } else {
                Err(ParseError::Malformed)
            }
        } else {
            Err(ParseError::Unrecognized)
        }
    }
}

/// Check for an optional token and the line end after keyword end `k`.
fn parse_token_args(line: &[u8], k: usize) -> (r: bool)
    requires
        k <= line@.len(),
    ensures
        r == token_args_model(line@, k as int),
{
    let j = skip_sp_x(line, k);
    let t = token_end_x(line, j);
    let j2 = skip_sp_x(line, t);
    ends_crlf_x(line, j2)
}

/// What a line parses to when only the HELO form is admitted.
pub open spec fn helo_line_model(line: Seq<u8>) -> CommandModel {
    let i0 = skip_sp(line, 0);
    let k = alpha_end(line, i0);
    if upper_seq(line.subrange(i0, k)) == kw_helo() {
        match host_args_model(line, k) {
            Some(d) => CommandModel::Helo(d),
            None => CommandModel::Malformed,
        }
    } else {
        CommandModel::Unrecognized
    }
}

/// Parse the arguments of a HELO line, keyword included.
pub fn command_helo_args(line: &[u8]) -> (r: Result<HeloCommand, ParseError>)
    ensures
        match r {
            Ok(h) => helo_line_model(line@) == CommandModel::Helo(h@),
            Err(ParseError::Malformed) => helo_line_model(line@) == CommandModel::Malformed,
            Err(ParseError::Unrecognized) => helo_line_model(line@) == CommandModel::Unrecognized,
        },
{
    let i0 = skip_sp_x(line, 0);
    let k = alpha_end_x(line, i0);
    if kw_is(line, i0, k, 72, 69, 76, 79) {
        match parse_host_args(line, k) {
            Some(d) => Ok(HeloCommand::new(d)),
            None => Err(ParseError::Malformed),
        }
    } else {
        Err(ParseError::Unrecognized)
    }
}

/// Parse the arguments of a QUIT line, the keyword already consumed:
/// blanks, then the final CRLF.
pub fn command_quit_args(rest: &[u8]) -> (r: Result<QuitCommand, ParseError>)
    ensures
        match r {
            Ok(q) => ends_crlf_at(rest@, skip_sp(rest@, 0)),
            Err(e) => !ends_crlf_at(rest@, skip_sp(rest@, 0)) && e == ParseError::Malformed,
        },
{
    let j = skip_sp_x(rest, 0);
    if ends_crlf_x(rest, j) {
        Ok(QuitCommand {  })
    } else {
        Err(ParseError::Malformed)
    }
}

} // verus!
