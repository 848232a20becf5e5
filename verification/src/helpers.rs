//! Debug rendering of raw byte buffers.

use vstd::prelude::*;

verus! {

/// What a byte buffer decodes to as UTF-8, when it is valid UTF-8: the
/// sequence of decoded characters. Stands for the result of
/// `str::from_utf8`, which depends on the bytes alone.
pub uninterp spec fn utf8_decode(b: Seq<u8>) -> Option<Seq<char>>;

/// Relies on `str::from_utf8`: whether a buffer is valid UTF-8, and what
/// it decodes to, depend on the bytes alone; ASCII bytes are always valid
/// UTF-8 and decode one character per byte, with the same code points.
#[verifier::external_body]
fn utf8_chars(b: &[u8]) -> (r: Option<Vec<char>>)
    ensures
        match r {
            Some(cs) => utf8_decode(b@) == Some(cs@) && ((forall|i: int|
                0 <= i < b@.len() ==> b@[i] < 128) ==> cs@ == b@.map_values(|x: u8| x as char)),
            None => utf8_decode(b@) is None && !(forall|i: int|
                0 <= i < b@.len() ==> b@[i] < 128),
        },
{
    str::from_utf8(b).ok().map(|s| s.chars().collect())
}

/// Relies on `String::from_utf8`: ASCII bytes are valid UTF-8 and decode to
/// the characters with the same code points, one per byte.
#[verifier::external_body]
fn ascii_to_string(v: Vec<u8>) -> (r: String)
    requires
        forall|i: int| 0 <= i < v@.len() ==> v@[i] < 128,
    ensures
        r@ == v@.map_values(|b: u8| b as char),
{
    String::from_utf8(v).unwrap_or_default()
}

/// Lowercase hexadecimal digits of `n`, most significant first, without
/// leading zeros; a single `0` for zero.
pub open spec fn hex_of(n: int) -> Seq<u8>
    decreases n,
{
    if n <= 0 {
        seq![48u8]
    } else if n < 16 {
        seq![hex_digit(n)]
    } else {
        hex_of(n / 16) + seq![hex_digit(n % 16)]
    }
}

/// The lower-case hexadecimal digit for a value below sixteen.
pub open spec fn hex_digit(n: int) -> u8 {
    if n < 10 {
        (48 + n) as u8
    } else {
        (87 + n) as u8
    }
}

/// Decimal digits of `n`, most significant first, without leading zeros; a
/// single `0` for zero.
pub open spec fn dec_of(n: int) -> Seq<u8>
    decreases n,
{
    if n <= 0 {
        seq![48u8]
    } else if n < 10 {
        seq![(48 + n) as u8]
    } else {
        dec_of(n / 10) + seq![(48 + n % 10) as u8]
    }
}

/// The default literal escape of one character, as ASCII bytes: tab, CR,
/// LF, backslash and both quotes get a backslash escape, printable ASCII
/// stands for itself, and every other character becomes a braced
/// hexadecimal escape.
pub open spec fn escape_char(c: char) -> Seq<u8> {
    if c == '\t' {
        seq![92u8, 116u8]
    } else if c == '\r' {
        seq![92u8, 114u8]
    } else if c == '\n' {
        seq![92u8, 110u8]
    } else if c == '\\' {
        seq![92u8, 92u8]
    } else if c == '\'' {
        seq![92u8, 39u8]
    } else if c == '"' {
        seq![92u8, 34u8]
    } else if 32 <= c as int && c as int <= 126 {
        seq![c as u8]
    } else {
        seq![92u8, 117u8, 123u8] + hex_of(c as int) + seq![125u8]
    }
}

/// The escapes of the first `i` characters, concatenated.
pub open spec fn escaped_chars(cs: Seq<char>, i: int) -> Seq<u8>
    decreases i,
{
    if i <= 0 {
        Seq::empty()
    } else {
        escaped_chars(cs, i - 1) + escape_char(cs[i - 1])
    }
}

/// The first `i` bytes as a comma-separated decimal list.
pub open spec fn debug_items(b: Seq<u8>, i: int) -> Seq<u8>
    decreases i,
{
    if i <= 0 {
        Seq::empty()
    } else if i == 1 {
        dec_of(b[0] as int)
    } else {
        debug_items(b, i - 1) + seq![44u8, 32u8] + dec_of(b[i - 1] as int)
    }
}

/// The bracketed decimal list form of a byte buffer.
pub open spec fn debug_list(b: Seq<u8>) -> Seq<u8> {
    seq![91u8] + debug_items(b, b.len() as int) + seq![93u8]
}

/// The debug form of a byte buffer, as ASCII bytes: `b"` and the escaped
/// decoded characters and a closing quote when the buffer is valid UTF-8,
/// the bracketed decimal list of its bytes otherwise.
pub open spec fn dbg_form(b: Seq<u8>) -> Seq<u8> {
    match utf8_decode(b) {
        Some(cs) => seq![98u8, 34u8] + escaped_chars(cs, cs.len() as int) + seq![34u8],
        None => debug_list(b),
    }
}

proof fn lemma_hex_ascii(n: int)
    ensures
        forall|j: int| 0 <= j < hex_of(n).len() ==> #[trigger] hex_of(n)[j] < 128,
    decreases n,
{
    if n >= 16 {
        lemma_hex_ascii(n / 16);
        assert forall|j: int| 0 <= j < hex_of(n).len() implies hex_of(n)[j] < 128 by {
            if j < hex_of(n / 16).len() {
                assert(hex_of(n)[j] == hex_of(n / 16)[j]);
            } else {
                assert(hex_of(n)[j] == hex_digit(n % 16));
            }
        }
    }
}

proof fn lemma_dec_ascii(n: int)
    ensures
        forall|j: int| 0 <= j < dec_of(n).len() ==> #[trigger] dec_of(n)[j] < 128,
    decreases n,
{
    if n >= 10 {
        lemma_dec_ascii(n / 10);
        assert forall|j: int| 0 <= j < dec_of(n).len() implies dec_of(n)[j] < 128 by {
            if j < dec_of(n / 10).len() {
                assert(dec_of(n)[j] == dec_of(n / 10)[j]);
            } else {
                assert(dec_of(n)[j] == (48 + n % 10) as u8);
            }
        }
    }
}

proof fn lemma_escape_ascii(c: char)
    ensures
        forall|j: int| 0 <= j < escape_char(c).len() ==> #[trigger] escape_char(c)[j] < 128,
{
    lemma_hex_ascii(c as int);
}

/// Append the lowercase hexadecimal form of `n`.
fn push_hex(v: &mut Vec<u8>, n: u32)
    ensures
        final(v)@ == old(v)@ + hex_of(n as int),
    decreases n,
{
    if n < 16 {
        let d: u32 = n;
        v.push(if d < 10 { (48 + d) as u8 } else { (87 + d) as u8 });
        proof {
            assert(v@ =~= old(v)@ + hex_of(n as int));
        }
    } else {
        push_hex(v, n / 16);
        let d: u32 = n % 16;
        v.push(if d < 10 { (48 + d) as u8 } else { (87 + d) as u8 });
        proof {
            assert(v@ =~= old(v)@ + hex_of(n as int));
        }
    }
}

/// Append the decimal form of `n`.
fn push_dec(v: &mut Vec<u8>, n: u8)
    ensures
        final(v)@ == old(v)@ + dec_of(n as int),
    decreases n,
{
    if n < 10 {
        v.push(48 + n);
        proof {
            assert(v@ =~= old(v)@ + dec_of(n as int));
        }
    } else {
        push_dec(v, n / 10);
        v.push(48 + n % 10);
        proof {
            assert(v@ =~= old(v)@ + dec_of(n as int));
        }
    }
}

/// Append the escape of one character.
fn push_escape(v: &mut Vec<u8>, c: char)
    ensures
        final(v)@ == old(v)@ + escape_char(c),
        (forall|j: int| 0 <= j < old(v)@.len() ==> old(v)@[j] < 128) ==> forall|j: int|
            0 <= j < final(v)@.len() ==> final(v)@[j] < 128,
{
    if c == '\t' {
        v.push(92);
        v.push(116);
    } else if c == '\r' {
        v.push(92);
        v.push(114);
    } else if c == '\n' {
        v.push(92);
        v.push(110);
    } else if c == '\\' {
        v.push(92);
        v.push(92);
    } else if c == '\'' {
        v.push(92);
        v.push(39);
    } else if c == '"' {
        v.push(92);
        v.push(34);
    } else {
        let code = c as u32;
        if 32 <= code && code <= 126 {
            v.push(code as u8);
        } else {
            v.push(92);
            v.push(117);
            v.push(123);
            push_hex(v, code);
            v.push(125);
        }
    }
    proof {
        lemma_escape_ascii(c);
        assert(final(v)@ =~= old(v)@ + escape_char(c));
    }
}

/// Render a byte buffer for debugging, as the original literal form: for
/// valid UTF-8, `b"..."` with each character's default literal escape; for
/// anything else, the bracketed decimal list of the bytes.
pub fn bytes_to_dbg(b: &[u8]) -> (r: String)
    ensures
        r@ == dbg_form(b@).map_values(|x: u8| x as char),
{
    match utf8_chars(b) {
        Some(cs) => {
            let mut v: Vec<u8> = Vec::new();
            v.push(98);
            v.push(34);
            let mut i: usize = 0;
            while i < cs.len()
                invariant
                    i <= cs@.len(),
                    v@ == seq![98u8, 34u8] + escaped_chars(cs@, i as int),
                    forall|j: int| 0 <= j < v@.len() ==> v@[j] < 128,
                decreases cs@.len() - i,
            {
                push_escape(&mut v, cs[i]);
                i += 1;
            }
            v.push(34);
            proof {
                assert(v@ =~= dbg_form(b@));
            }
            ascii_to_string(v)
        },
        None => {
            let mut v: Vec<u8> = Vec::new();
            v.push(91);
            let mut i: usize = 0;
            while i < b.len()
                invariant
                    i <= b@.len(),
                    v@ == seq![91u8] + debug_items(b@, i as int),
                    forall|j: int| 0 <= j < v@.len() ==> v@[j] < 128,
                decreases b@.len() - i,
            {
                if i > 0 {
                    v.push(44);
                    v.push(32);
                }
                let ghost pre = v@;
                push_dec(&mut v, b[i]);
                proof {
                    lemma_dec_ascii(b@[i as int] as int);
                    assert(v@ =~= seq![91u8] + debug_items(b@, i + 1));
                }
                i += 1;
            }
            v.push(93);
            proof {
                assert(v@ =~= dbg_form(b@));
            }
            ascii_to_string(v)
        },
    }
}

} // verus!
