//! The decoder: a fixed grammar pipeline over one byte buffer — command
//! line, header block, header text decoding, body-length resolution, body,
//! terminal NUL — failing fast with one classified error.

use vstd::prelude::*;
use vstd::slice::slice_to_vec;
use vstd::string::*;
use vstd::utf8::*;
use crate::command::{lookup_token, spec_lookup, StompCommand};
use crate::frame::{
    assoc_get, assoc_has, headers_get, headers_view, keys_distinct, spec_gate, ParseOutcome,
    StompFrame, StompFrameError,
};
use crate::text::{
    bytes_to_string, bytes_to_string_lossy, lossy_utf8, spec_unescape_header, unescape_header,
};

verus! {

/// Whether a byte can end a line.
pub open spec fn is_eol(b: u8) -> bool {
    b == 0x0du8 || b == 0x0au8
}

/// The index of the first line-ending byte, or the length when there is
/// none.
pub open spec fn scan_eol(b: Seq<u8>) -> nat
    decreases b.len(),
{
    if b.len() == 0 {
        0
    } else if is_eol(b[0]) {
        0
    } else {
        1 + scan_eol(b.drop_first())
    }
}

/// The index of the first NUL byte, or the length when there is none.
pub open spec fn scan_nul(b: Seq<u8>) -> nat
    decreases b.len(),
{
    if b.len() == 0 {
        0
    } else if b[0] == 0x00u8 {
        0
    } else {
        1 + scan_nul(b.drop_first())
    }
}

/// The index of the first separator byte, or the length when there is none.
pub open spec fn scan_colon(b: Seq<u8>) -> nat
    decreases b.len(),
{
    if b.len() == 0 {
        0
    } else if b[0] == 0x3au8 {
        0
    } else {
        1 + scan_colon(b.drop_first())
    }
}

pub proof fn lemma_scan_eol_is(b: Seq<u8>, i: int)
    requires
        0 <= i <= b.len(),
        forall|j: int| 0 <= j < i ==> !is_eol(b[j]),
        i < b.len() ==> is_eol(b[i]),
    ensures
        scan_eol(b) == i,
    decreases i,
{
    if i == 0 {
    } else {
        assert(!is_eol(b[0]));
        assert(forall|j: int| 0 <= j < i - 1 ==> !is_eol(b.drop_first()[j]));
        assert(i - 1 < b.drop_first().len() ==> is_eol(b.drop_first()[i - 1]));
        lemma_scan_eol_is(b.drop_first(), i - 1);
    }
}

pub proof fn lemma_scan_nul_is(b: Seq<u8>, i: int)
    requires
        0 <= i <= b.len(),
        forall|j: int| 0 <= j < i ==> b[j] != 0x00u8,
        i < b.len() ==> b[i] == 0x00u8,
    ensures
        scan_nul(b) == i,
    decreases i,
{
    if i == 0 {
    } else {
        assert(forall|j: int| 0 <= j < i - 1 ==> b.drop_first()[j] != 0x00u8);
        assert(i - 1 < b.drop_first().len() ==> b.drop_first()[i - 1] == 0x00u8);
        lemma_scan_nul_is(b.drop_first(), i - 1);
    }
}

pub proof fn lemma_scan_colon_is(b: Seq<u8>, i: int)
    requires
        0 <= i <= b.len(),
        forall|j: int| 0 <= j < i ==> b[j] != 0x3au8,
        i < b.len() ==> b[i] == 0x3au8,
    ensures
        scan_colon(b) == i,
    decreases i,
{
    if i == 0 {
    } else {
        assert(forall|j: int| 0 <= j < i - 1 ==> b.drop_first()[j] != 0x3au8);
        assert(i - 1 < b.drop_first().len() ==> b.drop_first()[i - 1] == 0x3au8);
        lemma_scan_colon_is(b.drop_first(), i - 1);
    }
}

/// Whether a byte may stand in a raw header key or value: any octet other
/// than carriage return, line feed and the separator.
pub open spec fn spec_is_header_octet(oct: u8) -> bool {
    !(oct == 0x0du8 || oct == 0x0au8 || oct == 0x3au8)
}

/// Whether a byte may stand in a raw header key or value.
pub fn is_header_octet(oct: u8) -> (r: bool)
    ensures
        r == spec_is_header_octet(oct),
{
    !matches!(oct, 0x0du8 | 0x0au8 | 0x3au8)
}

/// Splits the first line off a buffer: its content (up to the first line
/// ending, a lone line feed or a carriage return/line feed pair) and the
/// rest. `None` when no line ending follows, or a carriage return stands
/// without a line feed.
pub open spec fn spec_take_line(b: Seq<u8>) -> Option<(Seq<u8>, Seq<u8>)> {
    let i = scan_eol(b) as int;
    if i >= b.len() {
        None
    } else if b[i] == 0x0au8 {
        Some((b.take(i), b.skip(i + 1)))
    } else if i + 1 < b.len() && b[i + 1] == 0x0au8 {
        Some((b.take(i), b.skip(i + 2)))
    } else {
        None
    }
}

/// Splits one non-blank header line into its raw key and value: the key is
/// the non-empty text before the single separator, the value the text after
/// it.
pub open spec fn spec_split_header(line: Seq<u8>) -> Option<(Seq<u8>, Seq<u8>)> {
    let i = scan_colon(line) as int;
    if i == line.len() {
        None
    } else if i == 0 {
        None
    } else if scan_colon(line.skip(i + 1)) != line.skip(i + 1).len() {
        None
    } else {
        Some((line.take(i), line.skip(i + 1)))
    }
}

/// Parses the header block: zero or more header lines terminated by one
/// blank line. `Err` carries the unconsumed input at the failing line.
pub open spec fn spec_raw_headers(b: Seq<u8>) -> Result<(Seq<(Seq<u8>, Seq<u8>)>, Seq<u8>), Seq<u8>>
    decreases b.len(),
{
    match spec_take_line(b) {
        None => Err(b),
        Some((line, rest)) => {
            if line.len() == 0 {
                Ok((Seq::empty(), rest))
            } else {
                match spec_split_header(line) {
                    None => Err(b),
                    Some((k, v)) => match spec_raw_headers(rest) {
                        Err(e) => Err(e),
                        Ok((hs, r2)) => Ok((seq![(k, v)] + hs, r2)),
                    },
                }
            }
        },
    }
}

/// A failure while decoding one raw header key or value.
pub enum HeaderFailure {
    /// The bytes are not valid text.
    NotText,
    /// The text holds a malformed escape sequence; carries the still-escaped
    /// text.
    BadEscape(Seq<char>),
}

/// Decodes one raw header key or value: text validation first, then — for
/// commands with escaped headers — unescaping.
pub open spec fn spec_decode_one(raw: Seq<u8>, cmd: StompCommand) -> Result<
    Seq<char>,
    HeaderFailure,
> {
    if !valid_utf8(raw) {
        Err(HeaderFailure::NotText)
    } else {
        match spec_unescape_header(decode_utf8(raw), cmd) {
            Some(u) => Ok(u),
            None => Err(HeaderFailure::BadEscape(decode_utf8(raw))),
        }
    }
}

/// Decodes the raw header pairs in arrival order and inserts them with
/// first-occurrence-wins semantics: a key already present is not
/// overwritten.
pub open spec fn spec_collect(
    pairs: Seq<(Seq<u8>, Seq<u8>)>,
    cmd: StompCommand,
    acc: Seq<(Seq<char>, Seq<char>)>,
) -> Result<Seq<(Seq<char>, Seq<char>)>, HeaderFailure>
    decreases pairs.len(),
{
    if pairs.len() == 0 {
        Ok(acc)
    } else {
        match spec_decode_one(pairs[0].0, cmd) {
            Err(e) => Err(e),
            Ok(k) => match spec_decode_one(pairs[0].1, cmd) {
                Err(e) => Err(e),
                Ok(v) => spec_collect(
                    pairs.drop_first(),
                    cmd,
                    if assoc_has(acc, k) {
                        acc
                    } else {
                        acc.push((k, v))
                    },
                ),
            },
        }
    }
}

/// The reserved header name for explicit body length.
pub open spec fn clen_chars() -> Seq<char> {
    "content-length"@
}

/// Whether a character is a decimal digit.
pub open spec fn is_digit(c: char) -> bool {
    0x30 <= c as u32 <= 0x39
}

/// A non-empty, all-digit character sequence.
pub open spec fn all_digits(s: Seq<char>) -> bool {
    s.len() > 0 && forall|i: int| 0 <= i < s.len() ==> is_digit(s[i])
}

/// The value of a digit sequence read in decimal.
pub open spec fn dec_val(s: Seq<char>) -> int
    decreases s.len(),
{
    if s.len() == 0 {
        0
    } else {
        dec_val(s.take(s.len() - 1)) * 10 + (s[s.len() - 1] as u32 - 0x30)
    }
}

/// Parses a header value as a non-negative decimal byte count, when it is
/// one the machine can hold.
pub open spec fn spec_parse_len(s: Seq<char>) -> Option<int> {
    if all_digits(s) && dec_val(s) <= usize::MAX as int {
        Some(dec_val(s))
    } else {
        None
    }
}

/// The decoder's full grammar pipeline over one byte buffer.
pub open spec fn spec_parse(input: Seq<u8>) -> ParseOutcome {
    match spec_take_line(input) {
        None => ParseOutcome::Syntax(lossy_utf8(input)),
        Some((line, r1)) => match spec_lookup(line) {
            None => ParseOutcome::Syntax(lossy_utf8(input)),
            Some(cmd) => match spec_raw_headers(r1) {
                Err(rem) => ParseOutcome::Syntax(lossy_utf8(rem)),
                Ok((pairs, r2)) => match spec_collect(pairs, cmd, Seq::empty()) {
                    Err(HeaderFailure::NotText) => ParseOutcome::Encoding,
                    Err(HeaderFailure::BadEscape(h)) => ParseOutcome::Syntax(h),
                    Ok(hs) => match assoc_get(hs, clen_chars()) {
                        Some(v) => match spec_parse_len(v) {
                            None => ParseOutcome::HeaderValue(clen_chars(), v),
                            Some(n) => {
                                if r2.len() < n {
                                    ParseOutcome::Syntax(lossy_utf8(r2))
                                } else if r2.len() == n || r2[n] != 0x00u8 {
                                    ParseOutcome::Syntax(lossy_utf8(r2.skip(n)))
                                } else {
                                    spec_gate(cmd, hs, r2.take(n))
                                }
                            },
                        },
                        None => {
                            let i = scan_nul(r2) as int;
                            if i == r2.len() {
                                ParseOutcome::Syntax(lossy_utf8(r2.skip(i)))
                            } else {
                                spec_gate(cmd, hs, r2.take(i))
                            }
                        },
                    },
                },
            },
        },
    }
}

/// Whether the error value reports the given non-frame parse outcome.
pub open spec fn spec_err_matches(e: StompFrameError, o: ParseOutcome) -> bool {
    match o {
        ParseOutcome::Frame(_) => false,
        ParseOutcome::Encoding => e is EncodingError,
        ParseOutcome::HeaderValue(n, v) => e matches StompFrameError::HeaderError(a, b) && a@ == n
            && b@ == v,
        ParseOutcome::Syntax(m) => e matches StompFrameError::SyntaxError(s) && s@ == m,
    }
}

/// Splits the first line off the input.
fn take_line<'a>(input: &'a [u8]) -> (r: Option<(&'a [u8], &'a [u8])>)
    ensures
        match r {
            Some(p) => spec_take_line(input@) == Some((p.0@, p.1@)) && p.1@.len() < input@.len(),
            None => spec_take_line(input@) is None,
        },
{
    let n = input.len();
    let mut i: usize = 0;
    while i < n && input[i] != 0x0du8 && input[i] != 0x0au8
        invariant
            0 <= i <= n,
            n == input@.len(),
            forall|j: int| 0 <= j < i ==> !is_eol(input@[j]),
        decreases n - i,
    {
        i += 1;
    }
    proof {
        lemma_scan_eol_is(input@, i as int);
    }
    if i == n {
        return None;
    }
    if input[i] == 0x0au8 {
        Some((&input[0..i], &input[i + 1..n]))
    } else if i + 1 < n && input[i + 1] == 0x0au8 {
        Some((&input[0..i], &input[i + 2..n]))
    } else {
        None
    }
}

/// Splits one non-blank header line at its single separator.
fn split_header<'a>(line: &'a [u8]) -> (r: Option<(&'a [u8], &'a [u8])>)
    ensures
        match r {
            Some(p) => spec_split_header(line@) == Some((p.0@, p.1@)),
            None => spec_split_header(line@) is None,
        },
{
    let n = line.len();
    let mut i: usize = 0;
    while i < n && line[i] != 0x3au8
        invariant
            0 <= i <= n,
            n == line@.len(),
            forall|j: int| 0 <= j < i ==> line@[j] != 0x3au8,
        decreases n - i,
    {
        i += 1;
    }
    proof {
        lemma_scan_colon_is(line@, i as int);
    }
    if i == n || i == 0 {
        return None;
    }
    let mut j: usize = i + 1;
    while j < n && line[j] != 0x3au8
        invariant
            i + 1 <= j <= n,
            n == line@.len(),
            forall|k: int| i + 1 <= k < j ==> line@[k] != 0x3au8,
        decreases n - j,
    {
        j += 1;
    }
    proof {
        let suf = line@.skip(i + 1);
        assert(forall|k: int| 0 <= k < j - i - 1 ==> suf[k] == line@[k + i + 1]);
        if j < n {
            assert(suf[j - i - 1] == line@[j as int]);
        }
        lemma_scan_colon_is(suf, j - i - 1);
    }
    if j < n {
        return None;
    }
    Some((&line[0..i], &line[i + 1..n]))
}

/// The model of a vector of raw header pairs.
pub open spec fn raw_pairs_view(p: Seq<(Vec<u8>, Vec<u8>)>) -> Seq<(Seq<u8>, Seq<u8>)> {
    Seq::new(p.len(), |i: int| (p[i].0@, p[i].1@))
}

/// Parses the header block into raw byte pairs, stopping at the blank line.
fn parse_raw_headers<'a>(input: &'a [u8]) -> (r: Result<(Vec<(Vec<u8>, Vec<u8>)>, &'a [u8]), &'a [u8]>)
    ensures
        match r {
            Ok(p) => spec_raw_headers(input@) == Ok::<_, Seq<u8>>((raw_pairs_view(p.0@), p.1@)),
            Err(e) => spec_raw_headers(input@) == Err::<(Seq<(Seq<u8>, Seq<u8>)>, Seq<u8>), _>(e@),
        },
{
    let mut rest: &'a [u8] = input;
    let mut pairs: Vec<(Vec<u8>, Vec<u8>)> = Vec::new();
    loop
        invariant
            spec_raw_headers(input@) == (match spec_raw_headers(rest@) {
                Ok(p) => Ok::<_, Seq<u8>>((raw_pairs_view(pairs@) + p.0, p.1)),
                Err(e) => Err::<(Seq<(Seq<u8>, Seq<u8>)>, Seq<u8>), _>(e),
            }),
        decreases rest@.len(),
    {
        let ghost pairs0 = raw_pairs_view(pairs@);
        match take_line(rest) {
            None => {
                return Err(rest);
            },
            Some((line, r1)) => {
                if line.len() == 0 {
                    proof {
                        assert(spec_raw_headers(rest@) == Ok::<_, Seq<u8>>((
                            Seq::<(Seq<u8>, Seq<u8>)>::empty(),
                            r1@,
                        )));
                        assert(pairs0 + Seq::<(Seq<u8>, Seq<u8>)>::empty() =~= pairs0);
                    }
                    return Ok((pairs, r1));
                }
                match split_header(line) {
                    None => {
                        return Err(rest);
                    },
                    Some((k, v)) => {
                        let kv = slice_to_vec(k);
                        let vv = slice_to_vec(v);
                        pairs.push((kv, vv));
                        proof {
                            assert(raw_pairs_view(pairs@) =~= pairs0.push((k@, v@)));
                            match spec_raw_headers(r1@) {
                                Ok(p) => {
                                    assert(pairs0 + (seq![(k@, v@)] + p.0) =~= raw_pairs_view(
                                        pairs@,
                                    ) + p.0);
                                },
                                Err(_) => {},
                            }
                        }
                        rest = r1;
                    },
                }
            },
        }
    }
}

/// Decodes one raw header key or value into text, undoing the wire escaping
/// when the command calls for it.
fn decode_one(raw: &[u8], cmd: StompCommand) -> (r: Result<String, StompFrameError>)
    ensures
        match spec_decode_one(raw@, cmd) {
            Ok(u) => r matches Ok(s) && s@ == u,
            Err(HeaderFailure::NotText) => r matches Err(e) && e is EncodingError,
            Err(HeaderFailure::BadEscape(h)) => r matches Err(StompFrameError::SyntaxError(m))
                && m@ == h,
        },
{
    match bytes_to_string(raw) {
        Err(e) => Err(StompFrameError::EncodingError(e)),
        Ok(s) => unescape_header(s, cmd),
    }
}

/// When no pair carries the key, no pair's key equals it.
proof fn lemma_assoc_none(hs: Seq<(Seq<char>, Seq<char>)>, k: Seq<char>)
    requires
        assoc_get(hs, k) is None,
    ensures
        forall|j: int| 0 <= j < hs.len() ==> hs[j].0 != k,
    decreases hs.len(),
{
    if hs.len() == 0 {
    } else {
        lemma_assoc_none(hs.drop_first(), k);
        assert(forall|j: int| 1 <= j < hs.len() ==> hs[j] == hs.drop_first()[j - 1]);
    }
}

/// Decodes the raw header pairs of a frame in arrival order into its header
/// mapping, first occurrence winning on a duplicate name. Text that is not
/// valid UTF-8 is an encoding failure; a malformed escape is a syntax
/// failure carrying the offending header text; both fail the whole frame at
/// the first offending pair.
pub fn collect_headers(cmd: StompCommand, header_pairs: Vec<(Vec<u8>, Vec<u8>)>) -> (r: Result<
    Vec<(String, String)>,
    StompFrameError,
>)
    ensures
        match spec_collect(raw_pairs_view(header_pairs@), cmd, Seq::empty()) {
            Ok(hs) => r matches Ok(h) && headers_view(h@) == hs && keys_distinct(hs),
            Err(HeaderFailure::NotText) => r matches Err(e) && e is EncodingError,
            Err(HeaderFailure::BadEscape(h)) => r matches Err(StompFrameError::SyntaxError(m))
                && m@ == h,
        },
{
    let ghost full = raw_pairs_view(header_pairs@);
    let mut headers: Vec<(String, String)> = Vec::new();
    let mut idx: usize = 0;
    proof {
        assert(full.skip(0) =~= full);
        assert(headers_view(headers@) =~= Seq::<(Seq<char>, Seq<char>)>::empty());
    }
    while idx < header_pairs.len()
        invariant
            0 <= idx <= header_pairs@.len(),
            full == raw_pairs_view(header_pairs@),
            full.len() == header_pairs@.len(),
            keys_distinct(headers_view(headers@)),
            spec_collect(full, cmd, Seq::empty()) == spec_collect(
                full.skip(idx as int),
                cmd,
                headers_view(headers@),
            ),
        decreases header_pairs@.len() - idx,
    {
        let ghost suf = full.skip(idx as int);
        let ghost acc0 = headers_view(headers@);
        proof {
            assert(suf[0] == (header_pairs@[idx as int].0@, header_pairs@[idx as int].1@));
        }
        let p = &header_pairs[idx];
        let key = match decode_one(p.0.as_slice(), cmd) {
            Ok(k) => k,
            Err(e) => {
                return Err(e);
            },
        };
        let value = match decode_one(p.1.as_slice(), cmd) {
            Ok(v) => v,
            Err(e) => {
                return Err(e);
            },
        };
        let present = headers_get(&headers, &key).is_some();
        if !present {
            proof {
                lemma_assoc_none(acc0, key@);
            }
            headers.push((key, value));
            proof {
                assert(headers_view(headers@) =~= acc0.push((key@, value@)));
            }
        }
        proof {
            assert(suf.drop_first() =~= full.skip(idx + 1 as int));
        }
        idx += 1;
    }
    proof {
        assert(full.skip(full.len() as int) =~= Seq::<(Seq<u8>, Seq<u8>)>::empty());
    }
    Ok(headers)
}

/// Parses a header value as a non-negative decimal byte count.
fn parse_content_length(v: &String) -> (r: Option<usize>)
    ensures
        match r {
            Some(n) => spec_parse_len(v@) == Some(n as int),
            None => spec_parse_len(v@) is None,
        },
{
    let n = v.as_str().unicode_len();
    if n == 0 {
        return None;
    }
    let mut i: usize = 0;
    let mut acc: usize = 0;
    while i < n
        invariant
            0 <= i <= n,
            n == v@.len(),
            forall|j: int| 0 <= j < i ==> is_digit(v@[j]),
            acc as int == dec_val(v@.take(i as int)),
        decreases n - i,
    {
        let c = v.as_str().get_char(i);
        let u = c as u32;
        if u < 0x30 || u > 0x39 {
            return None;
        }
        let d = (u - 0x30) as usize;
        if acc > (usize::MAX - d) / 10 {
            proof {
                lemma_dec_overflow(v@, i as int, acc as int, d as int);
            }
            return None;
        }
        proof {
            assert(acc * 10 + d <= usize::MAX as int) by (nonlinear_arith)
                requires
                    acc <= (usize::MAX as int - d) / 10,
                    0 <= d <= 9,
                    acc >= 0,
            ;
        }
        acc = acc * 10 + d;
        proof {
            let pre = v@.take(i + 1 as int);
            assert(pre.take(pre.len() - 1) =~= v@.take(i as int));
            assert(pre[pre.len() - 1] == v@[i as int]);
        }
        i += 1;
    }
    proof {
        assert(v@.take(n as int) =~= v@);
    }
    Some(acc)
}

/// Digits only increase the value read so far: once the prefix exceeds the
/// machine bound the whole value does.
proof fn lemma_dec_overflow(s: Seq<char>, i: int, acc: int, d: int)
    requires
        0 <= i < s.len(),
        forall|j: int| 0 <= j < i ==> is_digit(s[j]),
        is_digit(s[i]),
        d == s[i] as u32 - 0x30,
        acc == dec_val(s.take(i)),
        acc > (usize::MAX as int - d) / 10,
    ensures
        spec_parse_len(s) is None,
{
    assert(acc * 10 + d > usize::MAX as int) by (nonlinear_arith)
        requires
            acc > (usize::MAX as int - d) / 10,
            0 <= d <= 9,
    ;
    let pre = s.take(i + 1);
    assert(pre.take(pre.len() - 1) =~= s.take(i));
    assert(pre[pre.len() - 1] == s[i]);
    assert(dec_val(s.take(i + 1)) == acc * 10 + d);
    if all_digits(s) {
        lemma_dec_monotone(s, i + 1);
        assert(dec_val(s) > usize::MAX as int);
    }
}

/// The decimal value of an all-digit sequence is at least that of any
/// prefix.
proof fn lemma_dec_monotone(s: Seq<char>, i: int)
    requires
        0 <= i <= s.len(),
        forall|j: int| 0 <= j < s.len() ==> is_digit(s[j]),
    ensures
        dec_val(s) >= dec_val(s.take(i)),
        dec_val(s.take(i)) >= 0,
    decreases s.len() - i,
{
    if i == s.len() {
        assert(s.take(i) =~= s);
        lemma_dec_nonneg(s, i);
    } else {
        lemma_dec_monotone(s, i + 1);
        lemma_dec_nonneg(s, i);
        let pre = s.take(i + 1);
        assert(pre.take(pre.len() - 1) =~= s.take(i));
        assert(pre[pre.len() - 1] == s[i]);
        assert(dec_val(s.take(i + 1)) == dec_val(s.take(i)) * 10 + (s[i] as u32 - 0x30));
        assert(dec_val(s.take(i)) * 10 >= dec_val(s.take(i))) by (nonlinear_arith)
            requires
                dec_val(s.take(i)) >= 0,
        ;
    }
}

/// The decimal value of an all-digit prefix is non-negative.
proof fn lemma_dec_nonneg(s: Seq<char>, i: int)
    requires
        0 <= i <= s.len(),
        forall|j: int| 0 <= j < i ==> is_digit(s[j]),
    ensures
        dec_val(s.take(i)) >= 0,
    decreases i,
{
    if i == 0 {
        assert(s.take(0) =~= Seq::<char>::empty());
    } else {
        lemma_dec_nonneg(s, i - 1);
        let pre = s.take(i);
        assert(pre.take(pre.len() - 1) =~= s.take(i - 1));
        assert(pre[pre.len() - 1] == s[i - 1]);
        assert(dec_val(s.take(i - 1)) * 10 >= 0) by (nonlinear_arith)
            requires
                dec_val(s.take(i - 1)) >= 0,
        ;
    }
}

/// Parses one frame into its resolved (command, headers, body) triple,
/// before the validation gate.
pub(crate) fn parse_frame(input: &[u8]) -> (r: Result<
    (StompCommand, Vec<(String, String)>, Vec<u8>),
    StompFrameError,
>)
    ensures
        match r {
            Ok(t) => spec_parse(input@) == spec_gate(t.0, headers_view(t.1@), t.2@)
                && keys_distinct(headers_view(t.1@)),
            Err(e) => spec_err_matches(e, spec_parse(input@)),
        },
{
    let (line, r1) = match take_line(input) {
        Some(p) => p,
        None => {
            return Err(StompFrameError::SyntaxError(bytes_to_string_lossy(input)));
        },
    };
    let cmd = match lookup_token(line) {
        Some(c) => c,
        None => {
            return Err(StompFrameError::SyntaxError(bytes_to_string_lossy(input)));
        },
    };
    let (pairs, r2) = match parse_raw_headers(r1) {
        Ok(p) => p,
        Err(rem) => {
            return Err(StompFrameError::SyntaxError(bytes_to_string_lossy(rem)));
        },
    };
    let headers = match collect_headers(cmd, pairs) {
        Ok(h) => h,
        Err(e) => {
            return Err(e);
        },
    };
    let clen_key = String::from_str("content-length");
    let n2 = r2.len();
    let body: Vec<u8> = match headers_get(&headers, &clen_key) {
        Some(value) => {
            match parse_content_length(value) {
                Some(nlen) => {
                    if n2 < nlen {
                        return Err(StompFrameError::SyntaxError(bytes_to_string_lossy(r2)));
                    }
                    if n2 == nlen || r2[nlen] != 0x00u8 {
                        return Err(StompFrameError::SyntaxError(bytes_to_string_lossy(
                            &r2[nlen..n2],
                        )));
                    }
                    slice_to_vec(&r2[0..nlen])
                },
                None => {
                    return Err(StompFrameError::HeaderError(clen_key, value.clone()));
                },
            }
        },
        None => {
            let mut i: usize = 0;
            while i < n2 && r2[i] != 0x00u8
                invariant
                    0 <= i <= n2,
                    n2 == r2@.len(),
                    forall|j: int| 0 <= j < i ==> r2@[j] != 0x00u8,
                decreases n2 - i,
            {
                i += 1;
            }
            proof {
                lemma_scan_nul_is(r2@, i as int);
            }
            if i == n2 {
                return Err(StompFrameError::SyntaxError(bytes_to_string_lossy(&r2[i..n2])));
            }
            slice_to_vec(&r2[0..i])
        },
    };
    Ok((cmd, headers, body))
}

impl StompFrame {
    /// Decodes one complete frame from the byte buffer, or fails with one
    /// classified error; no partial frame is ever returned. Bytes after the
    /// frame terminator are ignored. A decoded frame always satisfies the
    /// body/command invariant.
    pub fn try_from(input: &[u8]) -> (r: Result<StompFrame, StompFrameError>)
        ensures
            match spec_parse(input@) {
                ParseOutcome::Frame(fv) => r matches Ok(f) && f@ == fv && fv.wf(),
                o => r matches Err(e) && spec_err_matches(e, o),
            },
    {
        match parse_frame(input) {
            Ok((cmd, headers, body)) => StompFrame::new(cmd, headers, body),
            Err(e) => Err(e),
        }
    }
}

} // verus!
