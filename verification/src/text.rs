//! Header text handling: the bridge between raw wire bytes and header
//! strings (UTF-8 validation), and the command-dependent backslash-escaping
//! of header keys and values.

use vstd::prelude::*;
use vstd::utf8::*;
use crate::command::StompCommand;
use crate::frame::StompFrameError;

verus! {

#[verifier::external_type_specification]
#[verifier::external_body]
pub struct ExUtf8Error(std::str::Utf8Error);

/// Relies on std::str::from_utf8 (and str::to_owned): the result is `Ok`
/// exactly when the bytes are valid UTF-8, and the returned string is their
/// decoding.
#[verifier::external_body]
pub(crate) fn bytes_to_string(b: &[u8]) -> (r: Result<String, std::str::Utf8Error>)
    ensures
        r matches Ok(s) ==> valid_utf8(b@) && s@ == decode_utf8(b@),
        r is Err ==> !valid_utf8(b@),
{
    match std::str::from_utf8(b) {
        Ok(s) => Ok(s.to_owned()),
        Err(e) => Err(e),
    }
}

/// What String::from_utf8_lossy returns: a function of the bytes alone.
pub uninterp spec fn lossy_utf8(b: Seq<u8>) -> Seq<char>;

/// Relies on String::from_utf8_lossy: the result depends on the bytes alone,
/// and bytes that are valid UTF-8 are returned as their decoding, unchanged.
#[verifier::external_body]
pub(crate) fn bytes_to_string_lossy(b: &[u8]) -> (r: String)
    ensures
        r@ == lossy_utf8(b@),
        valid_utf8(b@) ==> r@ == decode_utf8(b@),
{
    String::from_utf8_lossy(b).into_owned()
}

/// Relies on String::push: appends the given character to the end of the
/// string.
#[verifier::external_body]
pub(crate) fn push_char(s: &mut String, c: char)
    ensures
        final(s)@ == old(s)@.push(c),
{
    s.push(c);
}

/// The escaping of one header character: the backslash, carriage return,
/// line feed and separator characters become two-character escape sequences;
/// every other character passes through unchanged.
pub open spec fn escape_char(c: char) -> Seq<char> {
    if c == '\\' {
        seq!['\\', '\\']
    } else if c == '\r' {
        seq!['\\', 'r']
    } else if c == '\n' {
        seq!['\\', 'n']
    } else if c == ':' {
        seq!['\\', 'c']
    } else {
        seq![c]
    }
}

/// Left-to-right escaping of a header string, with no re-scanning of already
/// escaped output.
pub open spec fn escape_seq(s: Seq<char>) -> Seq<char>
    decreases s.len(),
{
    if s.len() == 0 {
        Seq::empty()
    } else {
        escape_char(s[0]) + escape_seq(s.drop_first())
    }
}

/// Whether a character is accepted after an escape introducer.
pub open spec fn is_escape_code(c: char) -> bool {
    c == '\\' || c == 'r' || c == 'n' || c == 'c'
}

/// The character an escape code stands for.
pub open spec fn unescape_code(c: char) -> char
    recommends
        is_escape_code(c),
{
    if c == '\\' {
        '\\'
    } else if c == 'r' {
        '\r'
    } else if c == 'n' {
        '\n'
    } else {
        ':'
    }
}

/// Left-to-right unescaping: an escape introducer followed by `\`, `r`, `n`
/// or `c` maps back to the literal character; an introducer followed by
/// anything else, or standing last, makes the whole string malformed.
pub open spec fn unescape_seq(s: Seq<char>) -> Option<Seq<char>>
    decreases s.len(),
{
    if s.len() == 0 {
        Some(Seq::empty())
    } else if s[0] == '\\' {
        if s.len() >= 2 && is_escape_code(s[1]) {
            match unescape_seq(s.skip(2)) {
                Some(r) => Some(seq![unescape_code(s[1])] + r),
                None => None,
            }
        } else {
            None
        }
    } else {
        match unescape_seq(s.drop_first()) {
            Some(r) => Some(seq![s[0]] + r),
            None => None,
        }
    }
}

/// What encoding does to a header string of the given command: escaped only
/// when the command escapes headers.
pub open spec fn spec_escape_header(s: Seq<char>, cmd: StompCommand) -> Seq<char> {
    if cmd.spec_has_escaped_headers() {
        escape_seq(s)
    } else {
        s
    }
}

/// What decoding does to a header string of the given command: unescaped only
/// when the command escapes headers.
pub open spec fn spec_unescape_header(s: Seq<char>, cmd: StompCommand) -> Option<Seq<char>> {
    if cmd.spec_has_escaped_headers() {
        unescape_seq(s)
    } else {
        Some(s)
    }
}

/// Escaping distributes over concatenation.
pub proof fn lemma_escape_append(a: Seq<char>, b: Seq<char>)
    ensures
        escape_seq(a + b) == escape_seq(a) + escape_seq(b),
    decreases a.len(),
{
    if a.len() == 0 {
        assert(a + b =~= b);
        assert(escape_seq(a) + escape_seq(b) =~= escape_seq(b));
    } else {
        assert((a + b).drop_first() =~= a.drop_first() + b);
        assert((a + b)[0] == a[0]);
        lemma_escape_append(a.drop_first(), b);
        assert(escape_seq(a + b) =~= escape_seq(a) + escape_seq(b));
    }
}

/// Escaped output never contains a carriage return, line feed or separator
/// character, and is at least as long as its input.
pub proof fn lemma_escape_clean(s: Seq<char>)
    ensures
        escape_seq(s).len() >= s.len(),
        forall|j: int|
            0 <= j < escape_seq(s).len() ==> escape_seq(s)[j] != '\r' && escape_seq(s)[j] != '\n'
                && escape_seq(s)[j] != ':',
    decreases s.len(),
{
    if s.len() == 0 {
    } else {
        lemma_escape_clean(s.drop_first());
    }
}

/// The unescaper walks over a well-escaped prefix and continues in whatever
/// follows it: the prefix contributes its original text, and a malformed
/// tail fails the whole string.
pub proof fn lemma_unescape_prefix(u: Seq<char>, b: Seq<char>)
    ensures
        unescape_seq(escape_seq(u) + b) == (match unescape_seq(b) {
            Some(t) => Some(u + t),
            None => None::<Seq<char>>,
        }),
    decreases u.len(),
{
    if u.len() == 0 {
        assert(escape_seq(u) + b =~= b);
        match unescape_seq(b) {
            Some(t) => {
                assert(u + t =~= t);
            },
            None => {},
        }
    } else {
        let rest = u.drop_first();
        let e = escape_seq(u) + b;
        lemma_unescape_prefix(rest, b);
        if u[0] == '\\' || u[0] == '\r' || u[0] == '\n' || u[0] == ':' {
            assert(e[0] == '\\');
            assert(is_escape_code(e[1]));
            assert(unescape_code(e[1]) == u[0]);
            assert(e.skip(2) =~= escape_seq(rest) + b);
            match unescape_seq(b) {
                Some(t) => {
                    assert(unescape_seq(e.skip(2)) == Some(rest + t));
                    assert(seq![u[0]] + (rest + t) =~= u + t);
                },
                None => {},
            }
        } else {
            assert(e[0] == u[0]);
            assert(e[0] != '\\');
            assert(e.drop_first() =~= escape_seq(rest) + b);
            match unescape_seq(b) {
                Some(t) => {
                    assert(unescape_seq(e.drop_first()) == Some(rest + t));
                    assert(seq![u[0]] + (rest + t) =~= u + t);
                },
                None => {},
            }
        }
    }
}

/// Unescaping inverts escaping: every escaped header string unescapes back to
/// the original, for every input.
pub proof fn lemma_unescape_escape(s: Seq<char>)
    ensures
        unescape_seq(escape_seq(s)) == Some(s),
{
    lemma_unescape_prefix(s, Seq::empty());
    assert(escape_seq(s) + Seq::<char>::empty() =~= escape_seq(s));
    assert(s + Seq::<char>::empty() =~= s);
}

/// The UTF-8 encoding of a string that avoids a given ASCII character also
/// avoids that character's byte.
pub proof fn lemma_encode_avoids(s: Seq<char>, x: u8)
    requires
        x < 0x80,
        forall|i: int| 0 <= i < s.len() ==> s[i] as u32 != x as u32,
    ensures
        forall|j: int| 0 <= j < encode_utf8(s).len() ==> encode_utf8(s)[j] != x,
    decreases s.len(),
{
    if s.len() == 0 {
    } else {
        char_is_scalar(s[0]);
        let c = s[0] as u32;
        let first = encode_scalar(c);
        assert(forall|j: int| 0 <= j < first.len() ==> first[j] != x) by {
            lemma_encode_scalar_avoids(c, x);
        }
        lemma_encode_avoids(s.drop_first(), x);
        assert(encode_utf8(s) == first + encode_utf8(s.drop_first()));
        assert(forall|j: int|
            0 <= j < encode_utf8(s).len() ==> encode_utf8(s)[j] != x) by {
            assert(forall|j: int|
                first.len() <= j < encode_utf8(s).len() ==> encode_utf8(s)[j] == encode_utf8(
                    s.drop_first(),
                )[j - first.len()]);
        }
    }
}

/// The UTF-8 encoding of one scalar other than a given ASCII value contains
/// no byte equal to that value.
proof fn lemma_encode_scalar_avoids(c: u32, x: u8)
    requires
        is_scalar(c),
        x < 0x80,
        c != x as u32,
    ensures
        forall|j: int| 0 <= j < encode_scalar(c).len() ==> encode_scalar(c)[j] != x,
{
    if has_width_1_encoding(c) {
        assert(c & 0x7F == c) by (bit_vector)
            requires
                c <= 0x7F,
        ;
        assert((c & 0x7F) as u8 != x) by (bit_vector)
            requires
                c <= 0x7F,
                x < 0x80,
                c != x as u32,
        ;
    } else {
        assert(0xC0u8 | ((c >> 6) & 0x1F) as u8 >= 0x80) by (bit_vector);
        assert(0xE0u8 | ((c >> 12) & 0x0F) as u8 >= 0x80) by (bit_vector);
        assert(0xF0u8 | ((c >> 18) & 0x7) as u8 >= 0x80) by (bit_vector);
        assert(0x80u8 | (c & 0x3F) as u8 >= 0x80) by (bit_vector);
        assert(0x80u8 | ((c >> 6) & 0x3F) as u8 >= 0x80) by (bit_vector);
        assert(0x80u8 | ((c >> 12) & 0x3F) as u8 >= 0x80) by (bit_vector);
    }
}

/// Escapes one header key or value for the wire, when the command calls for
/// it: `\` becomes `\\`, carriage return `\r`, line feed `\n`, and the
/// separator `\c`; for the two commands with unescaped headers the text is
/// returned verbatim.
pub fn escape_header(header: &str, cmd: StompCommand) -> (r: String)
    ensures
        r@ == spec_escape_header(header@, cmd),
{
    if !cmd.has_escaped_headers() {
        return String::from_str(header);
    }
    let n = header.unicode_len();
    let mut out = String::new();
    let mut i: usize = 0;
    while i < n
        invariant
            cmd.spec_has_escaped_headers(),
            n == header@.len(),
            0 <= i <= n,
            out@ == escape_seq(header@.take(i as int)),
        decreases n - i,
    {
        let c = header.get_char(i);
        if c == '\\' {
            push_char(&mut out, '\\');
            push_char(&mut out, '\\');
        } else if c == '\r' {
            push_char(&mut out, '\\');
            push_char(&mut out, 'r');
        } else if c == '\n' {
            push_char(&mut out, '\\');
            push_char(&mut out, 'n');
        } else if c == ':' {
            push_char(&mut out, '\\');
            push_char(&mut out, 'c');
        } else {
            push_char(&mut out, c);
        }
        proof {
            let pre = header@.take(i as int);
            let one = seq![header@[i as int]];
            assert(header@.take(i + 1 as int) =~= pre + one);
            lemma_escape_append(pre, one);
            assert(one.drop_first() =~= Seq::<char>::empty());
            assert(escape_seq(one.drop_first()) == Seq::<char>::empty());
            assert(one[0] == header@[i as int]);
            assert(escape_seq(one) =~= escape_char(header@[i as int]));
            assert(out@ =~= escape_seq(header@.take(i + 1 as int)));
        }
        i += 1;
    }
    proof {
        assert(header@.take(n as int) =~= header@);
    }
    out
}

/// Undoes the wire escaping of one header key or value, when the command
/// calls for it. A malformed escape sequence is a syntax failure carrying the
/// original, still-escaped header string.
pub fn unescape_header(header: String, cmd: StompCommand) -> (r: Result<String, StompFrameError>)
    ensures
        match spec_unescape_header(header@, cmd) {
            Some(u) => r matches Ok(s) && s@ == u,
            None => r matches Err(StompFrameError::SyntaxError(m)) && m@ == header@,
        },
{
    if !cmd.has_escaped_headers() {
        return Ok(header);
    }
    let n = header.as_str().unicode_len();
    let mut out = String::new();
    let mut i: usize = 0;
    proof {
        assert(header@.skip(0) =~= header@);
        match unescape_seq(header@) {
            Some(t) => {
                assert(Seq::<char>::empty() + t =~= t);
            },
            None => {},
        }
    }
    while i < n
        invariant
            cmd.spec_has_escaped_headers(),
            n == header@.len(),
            0 <= i <= n,
            unescape_seq(header@) == (match unescape_seq(header@.skip(i as int)) {
                Some(t) => Some(out@ + t),
                None => None::<Seq<char>>,
            }),
        decreases n - i,
    {
        let ghost suf = header@.skip(i as int);
        let ghost out0 = out@;
        proof {
            assert(suf[0] == header@[i as int]);
        }
        let c = header.as_str().get_char(i);
        if c == '\\' {
            if i + 1 < n {
                proof {
                    assert(suf[1] == header@[i + 1 as int]);
                    assert(suf.skip(2) =~= header@.skip(i + 2 as int));
                }
                let c2 = header.as_str().get_char(i + 1);
                if c2 == '\\' {
                    push_char(&mut out, '\\');
                } else if c2 == 'r' {
                    push_char(&mut out, '\r');
                } else if c2 == 'n' {
                    push_char(&mut out, '\n');
                } else if c2 == 'c' {
                    push_char(&mut out, ':');
                } else {
                    proof {
                        assert(!is_escape_code(suf[1]));
                        assert(unescape_seq(suf) is None);
                    }
                    return Err(StompFrameError::SyntaxError(header));
                }
                proof {
                    let code = unescape_code(suf[1]);
                    assert(out@ == out0.push(code));
                    match unescape_seq(header@.skip(i + 2 as int)) {
                        Some(t) => {
                            assert(unescape_seq(suf) == Some(seq![code] + t));
                            assert(out0 + (seq![code] + t) =~= out@ + t);
                        },
                        None => {
                            assert(unescape_seq(suf) is None);
                        },
                    }
                }
                i += 2;
            } else {
                proof {
                    assert(suf.len() == 1);
                    assert(unescape_seq(suf) is None);
                }
                return Err(StompFrameError::SyntaxError(header));
            }
        } else {
            push_char(&mut out, c);
            proof {
                assert(out@ == out0.push(c));
                assert(suf.drop_first() =~= header@.skip(i + 1 as int));
                match unescape_seq(header@.skip(i + 1 as int)) {
                    Some(t) => {
                        assert(unescape_seq(suf) == Some(seq![c] + t));
                        assert(out0 + (seq![c] + t) =~= out@ + t);
                    },
                    None => {
                        assert(unescape_seq(suf) is None);
                    },
                }
            }
            i += 1;
        }
    }
    proof {
        assert(header@.skip(n as int) =~= Seq::<char>::empty());
        assert(unescape_seq(header@.skip(n as int)) == Some(Seq::<char>::empty()));
        assert(out@ + Seq::<char>::empty() =~= out@);
    }
    Ok(out)
}

} // verus!
