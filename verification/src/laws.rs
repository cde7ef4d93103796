//! The laws the codec obeys, stated over the specification-level encoder and
//! decoder and proved for every input they speak of.

use vstd::prelude::*;
use vstd::utf8::*;
use crate::command::{lemma_lookup_of_token, lemma_token_wellformed, spec_lookup, spec_token, StompCommand};
use crate::decode::{
    clen_chars, is_eol, lemma_scan_colon_is, lemma_scan_eol_is, lemma_scan_nul_is, scan_nul,
    spec_collect, spec_decode_one, spec_parse, spec_parse_len, spec_raw_headers,
    spec_split_header, spec_take_line, HeaderFailure,
};
use crate::encode::{spec_body_bytes, spec_encode, spec_header_block};
use crate::frame::{assoc_get, assoc_has, keys_distinct, spec_gate, FrameView, ParseOutcome};
use crate::text::{
    escape_seq, is_escape_code, lemma_encode_avoids, lemma_escape_clean, lemma_unescape_escape,
    lemma_unescape_prefix, lossy_utf8, spec_escape_header, unescape_seq,
};

verus! {

/// Header text free of the carriage return, line feed and separator
/// characters.
pub open spec fn text_clean(s: Seq<char>) -> bool {
    forall|i: int| 0 <= i < s.len() ==> s[i] != '\r' && s[i] != '\n' && s[i] != ':'
}

/// Characters other than carriage return, line feed and the separator have
/// code points other than theirs.
proof fn lemma_clean_chars_u32(t: Seq<char>)
    requires
        text_clean(t),
    ensures
        forall|i: int|
            0 <= i < t.len() ==> t[i] as u32 != 13 && t[i] as u32 != 10 && t[i] as u32 != 58,
{
    assert forall|i: int|
        0 <= i < t.len() implies t[i] as u32 != 13 && t[i] as u32 != 10 && t[i] as u32
        != 58 by {
        char_u32_cast(t[i], t[i] as u32);
        char_u32_cast('\r', '\r' as u32);
        char_u32_cast('\n', '\n' as u32);
        char_u32_cast(':', ':' as u32);
    }
}

/// The UTF-8 encoding of a string is at least as long as the string.
proof fn lemma_encode_ge_len(s: Seq<char>)
    ensures
        encode_utf8(s).len() >= s.len(),
    decreases s.len(),
{
    if s.len() == 0 {
    } else {
        char_is_scalar(s[0]);
        assert(encode_scalar(s[0] as u32).len() >= 1);
        lemma_encode_ge_len(s.drop_first());
    }
}

/// The wire bytes of a header key or value contain no line-ending and no
/// separator byte, and are non-empty when the text is.
proof fn lemma_header_bytes_clean(cmd: StompCommand, s: Seq<char>)
    requires
        !cmd.spec_has_escaped_headers() ==> text_clean(s),
    ensures
        forall|j: int|
            0 <= j < encode_utf8(spec_escape_header(s, cmd)).len() ==> !is_eol(
                encode_utf8(spec_escape_header(s, cmd))[j],
            ) && encode_utf8(spec_escape_header(s, cmd))[j] != 0x3au8,
        s.len() > 0 ==> encode_utf8(spec_escape_header(s, cmd)).len() > 0,
{
    let t = spec_escape_header(s, cmd);
    if cmd.spec_has_escaped_headers() {
        lemma_escape_clean(s);
        assert(text_clean(t));
    }
    lemma_clean_chars_u32(t);
    lemma_encode_avoids(t, 0x0du8);
    lemma_encode_avoids(t, 0x0au8);
    lemma_encode_avoids(t, 0x3au8);
    lemma_encode_ge_len(t);
    if cmd.spec_has_escaped_headers() {
        lemma_escape_clean(s);
    }
}

/// Decoding one wire header key or value recovers the text it was encoded
/// from, for every command and every text.
pub proof fn lemma_decode_one_of_encoded(cmd: StompCommand, s: Seq<char>)
    ensures
        spec_decode_one(encode_utf8(spec_escape_header(s, cmd)), cmd) == Ok::<_, HeaderFailure>(s),
{
    let t = spec_escape_header(s, cmd);
    encode_utf8_valid_utf8(t);
    encode_utf8_decode_utf8(t);
    if cmd.spec_has_escaped_headers() {
        lemma_unescape_escape(s);
    }
}

/// Appending a pair to the end of a header mapping changes only lookups of
/// its key, and only when that key was absent.
pub proof fn lemma_assoc_push(
    hs: Seq<(Seq<char>, Seq<char>)>,
    p: (Seq<char>, Seq<char>),
    k: Seq<char>,
)
    ensures
        assoc_get(hs.push(p), k) == (match assoc_get(hs, k) {
            Some(v) => Some(v),
            None => if p.0 == k {
                Some(p.1)
            } else {
                None
            },
        }),
    decreases hs.len(),
{
    let r = hs.push(p);
    if hs.len() == 0 {
        assert(r.len() == 1);
        assert(r[0] == p);
        assert(r.drop_first() =~= Seq::<(Seq<char>, Seq<char>)>::empty());
        if p.0 == k {
            assert(assoc_get(r, k) == Some(p.1));
        } else {
            assert(assoc_get(r, k) == assoc_get(r.drop_first(), k));
            assert(assoc_get(r.drop_first(), k) == None::<Seq<char>>);
        }
    } else {
        assert(r[0] == hs[0]);
        assert(r.drop_first() =~= hs.drop_first().push(p));
        lemma_assoc_push(hs.drop_first(), p, k);
        if hs[0].0 == k {
            assert(assoc_get(r, k) == Some(hs[0].1));
            assert(assoc_get(hs, k) == Some(hs[0].1));
        } else {
            assert(assoc_get(r, k) == assoc_get(hs.drop_first().push(p), k));
            assert(assoc_get(hs, k) == assoc_get(hs.drop_first(), k));
        }
    }
}

/// The wire form of a header list: each key and value escaped per the
/// command and encoded as UTF-8 bytes, in order.
pub open spec fn raw_header_pairs(cmd: StompCommand, hs: Seq<(Seq<char>, Seq<char>)>) -> Seq<
    (Seq<u8>, Seq<u8>),
> {
    Seq::new(
        hs.len(),
        |i: int|
            (
                encode_utf8(spec_escape_header(hs[i].0, cmd)),
                encode_utf8(spec_escape_header(hs[i].1, cmd)),
            ),
    )
}

/// Collecting the wire form of a header list with distinct keys, none of
/// them already present, appends exactly that list.
pub proof fn lemma_collect_of_encoded(
    cmd: StompCommand,
    hs: Seq<(Seq<char>, Seq<char>)>,
    acc: Seq<(Seq<char>, Seq<char>)>,
)
    requires
        keys_distinct(hs),
        forall|i: int| 0 <= i < hs.len() ==> !assoc_has(acc, hs[i].0),
    ensures
        spec_collect(raw_header_pairs(cmd, hs), cmd, acc) == Ok::<_, HeaderFailure>(acc + hs),
    decreases hs.len(),
{
    let pairs = raw_header_pairs(cmd, hs);
    if hs.len() == 0 {
        assert(acc + hs =~= acc);
    } else {
        let k = hs[0].0;
        let v = hs[0].1;
        lemma_decode_one_of_encoded(cmd, k);
        lemma_decode_one_of_encoded(cmd, v);
        assert(pairs[0] == (encode_utf8(spec_escape_header(k, cmd)), encode_utf8(
            spec_escape_header(v, cmd),
        )));
        assert(!assoc_has(acc, k));
        let acc2 = acc.push((k, v));
        assert forall|i: int| 0 <= i < hs.drop_first().len() implies !assoc_has(
            acc2,
            hs.drop_first()[i].0,
        ) by {
            assert(hs.drop_first()[i] == hs[i + 1]);
            assert(hs[i + 1].0 != k);
            lemma_assoc_push(acc, (k, v), hs[i + 1].0);
        }
        assert(keys_distinct(hs.drop_first())) by {
            assert(forall|i: int, j: int|
                0 <= i < j < hs.drop_first().len() ==> hs.drop_first()[i] == hs[i + 1]
                    && hs.drop_first()[j] == hs[j + 1]);
        }
        lemma_collect_of_encoded(cmd, hs.drop_first(), acc2);
        assert(pairs.drop_first() =~= raw_header_pairs(cmd, hs.drop_first()));
        assert(acc2 + hs.drop_first() =~= acc + hs);
    }
}

/// Parsing the wire header block of a list with non-empty, clean keys and
/// values yields exactly its raw pairs and stops at the blank line.
pub proof fn lemma_parse_header_block(
    cmd: StompCommand,
    hs: Seq<(Seq<char>, Seq<char>)>,
    tail: Seq<u8>,
)
    requires
        forall|i: int| 0 <= i < hs.len() ==> hs[i].0.len() > 0,
        !cmd.spec_has_escaped_headers() ==> forall|i: int|
            0 <= i < hs.len() ==> text_clean(hs[i].0) && text_clean(hs[i].1),
        tail.len() > 0,
        tail[0] == 0x0au8,
    ensures
        spec_raw_headers(spec_header_block(cmd, hs) + tail) == Ok::<_, Seq<u8>>((
            raw_header_pairs(cmd, hs),
            tail.skip(1),
        )),
    decreases hs.len(),
{
    let block = spec_header_block(cmd, hs);
    let buf = block + tail;
    if hs.len() == 0 {
        assert(buf =~= tail);
        lemma_scan_eol_is(tail, 0);
        assert(spec_take_line(tail) == Some((tail.take(0), tail.skip(1))));
        assert(tail.take(0) =~= Seq::<u8>::empty());
        assert(raw_header_pairs(cmd, hs) =~= Seq::<(Seq<u8>, Seq<u8>)>::empty());
    } else {
        let k = hs[0].0;
        let v = hs[0].1;
        let kb = encode_utf8(spec_escape_header(k, cmd));
        let vb = encode_utf8(spec_escape_header(v, cmd));
        lemma_header_bytes_clean(cmd, k);
        lemma_header_bytes_clean(cmd, v);
        let kl = kb.len() as int;
        let ll = kl + 1 + vb.len() as int;
        let rest_buf = spec_header_block(cmd, hs.drop_first()) + tail;
        assert(buf =~= kb + seq![0x3au8] + vb + seq![0x0au8] + rest_buf);
        // the first line ending is the line feed closing this header line
        assert forall|j: int| 0 <= j < ll implies !is_eol(buf[j]) by {
            if j < kl {
                assert(buf[j] == kb[j]);
            } else if j == kl {
                assert(buf[j] == 0x3au8);
            } else {
                assert(buf[j] == vb[j - kl - 1]);
            }
        }
        assert(buf[ll] == 0x0au8);
        lemma_scan_eol_is(buf, ll);
        let line = buf.take(ll);
        assert(spec_take_line(buf) == Some((line, buf.skip(ll + 1))));
        assert(buf.skip(ll + 1) =~= rest_buf);
        // the line splits at its single separator
        assert(line =~= kb + seq![0x3au8] + vb);
        assert forall|j: int| 0 <= j < kl implies line[j] != 0x3au8 by {
            assert(line[j] == kb[j]);
        }
        assert(line[kl] == 0x3au8);
        lemma_scan_colon_is(line, kl);
        assert(kl > 0);
        let after = line.skip(kl + 1);
        assert(after =~= vb);
        assert forall|j: int| 0 <= j < vb.len() implies after[j] != 0x3au8 by {
            assert(after[j] == vb[j]);
        }
        lemma_scan_colon_is(after, after.len() as int);
        assert(spec_split_header(line) == Some((line.take(kl), after)));
        assert(line.take(kl) =~= kb);
        // recurse over the remaining lines
        lemma_parse_header_block(cmd, hs.drop_first(), tail);
        assert(seq![(kb, vb)] + raw_header_pairs(cmd, hs.drop_first()) =~= raw_header_pairs(
            cmd,
            hs,
        ));
    }
}

/// A frame whose encoding decodes back to it: the frame invariant holds,
/// keys are non-empty, keys and values avoid the reserved characters when
/// the command leaves headers unescaped, and the body framing is consistent
/// — a declared length header states exactly the body's byte count, and an
/// undeclared body holds no NUL byte.
pub open spec fn round_trip_safe(f: FrameView) -> bool {
    &&& f.wf()
    &&& forall|i: int| 0 <= i < f.headers.len() ==> f.headers[i].0.len() > 0
    &&& (!f.cmd.spec_has_escaped_headers() ==> forall|i: int|
        0 <= i < f.headers.len() ==> text_clean(f.headers[i].0) && text_clean(f.headers[i].1))
    &&& match assoc_get(f.headers, clen_chars()) {
        Some(v) => spec_parse_len(v) == Some(spec_body_bytes(f.body).len() as int),
        None => forall|j: int|
            0 <= j < spec_body_bytes(f.body).len() ==> spec_body_bytes(f.body)[j] != 0x00u8,
    }
}

/// Round trip: decoding the encoding of any round-trip-safe frame yields
/// exactly that frame — no information is lost, duplicate-free header maps
/// and escaping included.
pub proof fn lemma_round_trip(f: FrameView)
    requires
        round_trip_safe(f),
    ensures
        spec_parse(spec_encode(f)) == ParseOutcome::Frame(f),
{
    let tok = spec_token(f.cmd);
    let lf = seq![0x0au8];
    let body = spec_body_bytes(f.body);
    let block = spec_header_block(f.cmd, f.headers);
    let rest2 = body + seq![0x00u8];
    let tail = lf + rest2;
    let input = spec_encode(f);
    let buf1 = block + tail;
    assert(input =~= tok + lf + buf1);
    // the command line: the token, closed by the first line feed
    lemma_token_wellformed(f.cmd);
    let tl = tok.len() as int;
    assert forall|j: int| 0 <= j < tl implies !is_eol(input[j]) by {
        assert(input[j] == tok[j]);
    }
    assert(input[tl] == 0x0au8);
    lemma_scan_eol_is(input, tl);
    assert(spec_take_line(input) == Some((input.take(tl), input.skip(tl + 1))));
    assert(input.take(tl) =~= tok);
    assert(input.skip(tl + 1) =~= buf1);
    lemma_lookup_of_token(f.cmd);
    // the header block, closed by the blank line
    assert(tail.len() > 0);
    assert(tail[0] == 0x0au8);
    lemma_parse_header_block(f.cmd, f.headers, tail);
    assert(tail.skip(1) =~= rest2);
    // header text decoding and first-wins collection
    assert forall|i: int| 0 <= i < f.headers.len() implies !assoc_has(
        Seq::<(Seq<char>, Seq<char>)>::empty(),
        f.headers[i].0,
    ) by {
        assert(assoc_get(Seq::<(Seq<char>, Seq<char>)>::empty(), f.headers[i].0) is None);
    }
    lemma_collect_of_encoded(f.cmd, f.headers, Seq::empty());
    assert(Seq::<(Seq<char>, Seq<char>)>::empty() + f.headers =~= f.headers);
    // body framing and the terminal NUL
    let n = body.len() as int;
    assert(rest2.len() == n + 1);
    assert(rest2[n] == 0x00u8);
    assert(rest2.take(n) =~= body);
    match assoc_get(f.headers, clen_chars()) {
        Some(v) => {
            assert(spec_parse_len(v) == Some(n));
        },
        None => {
            assert forall|j: int| 0 <= j < n implies rest2[j] != 0x00u8 by {
                assert(rest2[j] == body[j]);
            }
            lemma_scan_nul_is(rest2, n);
        },
    }
    // the validation gate accepts the frame it came from
    match f.body {
        Some(b) => {
            assert(body == b);
            assert(b.len() > 0);
            assert(FrameView { cmd: f.cmd, headers: f.headers, body: Some(body) } =~~= f);
        },
        None => {
            assert(body.len() == 0);
            assert(FrameView { cmd: f.cmd, headers: f.headers, body: None } =~~= f);
        },
    }
}

/// For the two commands with unescaped headers, header text crosses the
/// codec verbatim in both directions, even when it holds literal
/// backslashes or escape-like character pairs.
pub proof fn lemma_plain_headers(cmd: StompCommand, s: Seq<char>)
    requires
        !cmd.spec_has_escaped_headers(),
    ensures
        spec_escape_header(s, cmd) == s,
        spec_decode_one(encode_utf8(s), cmd) == Ok::<_, HeaderFailure>(s),
{
    encode_utf8_valid_utf8(s);
    encode_utf8_decode_utf8(s);
}

/// For every other command, encoding escapes the reserved characters and
/// decoding reverses that exactly, for every header text.
pub proof fn lemma_escaped_headers(cmd: StompCommand, s: Seq<char>)
    requires
        cmd.spec_has_escaped_headers(),
    ensures
        spec_escape_header(s, cmd) == escape_seq(s),
        unescape_seq(escape_seq(s)) == Some(s),
        spec_decode_one(encode_utf8(escape_seq(s)), cmd) == Ok::<_, HeaderFailure>(s),
{
    lemma_unescape_escape(s);
    lemma_decode_one_of_encoded(cmd, s);
}

/// The value of the first arriving pair whose decoded key is the given one.
pub open spec fn first_decoded_value(
    pairs: Seq<(Seq<u8>, Seq<u8>)>,
    cmd: StompCommand,
    k: Seq<char>,
) -> Option<Seq<char>>
    decreases pairs.len(),
{
    if pairs.len() == 0 {
        None
    } else {
        match (spec_decode_one(pairs[0].0, cmd), spec_decode_one(pairs[0].1, cmd)) {
            (Ok(k0), Ok(v0)) => if k0 == k {
                Some(v0)
            } else {
                first_decoded_value(pairs.drop_first(), cmd, k)
            },
            _ => None,
        }
    }
}

/// Duplicate header names: the first occurrence wins. Whenever header
/// collection succeeds from an empty mapping, every key maps to the value
/// of its first pair in arrival order, and later duplicates are discarded.
pub proof fn lemma_first_occurrence_wins(
    pairs: Seq<(Seq<u8>, Seq<u8>)>,
    cmd: StompCommand,
    acc: Seq<(Seq<char>, Seq<char>)>,
    hs: Seq<(Seq<char>, Seq<char>)>,
    k: Seq<char>,
)
    requires
        spec_collect(pairs, cmd, acc) == Ok::<_, HeaderFailure>(hs),
    ensures
        assoc_get(hs, k) == (match assoc_get(acc, k) {
            Some(v) => Some(v),
            None => first_decoded_value(pairs, cmd, k),
        }),
    decreases pairs.len(),
{
    if pairs.len() == 0 {
    } else {
        match (spec_decode_one(pairs[0].0, cmd), spec_decode_one(pairs[0].1, cmd)) {
            (Ok(k0), Ok(v0)) => {
                if assoc_has(acc, k0) {
                    lemma_first_occurrence_wins(pairs.drop_first(), cmd, acc, hs, k);
                } else {
                    let acc2 = acc.push((k0, v0));
                    lemma_first_occurrence_wins(pairs.drop_first(), cmd, acc2, hs, k);
                    lemma_assoc_push(acc, (k0, v0), k);
                }
            },
            _ => {
                assert(false);
            },
        }
    }
}

/// Bytes that are not valid text fail header decoding with the encoding
/// failure, before any escape processing and for every command.
pub proof fn lemma_encoding_error_first(cmd: StompCommand, b: Seq<u8>)
    requires
        !valid_utf8(b),
    ensures
        spec_decode_one(b, cmd) == Err::<Seq<char>, _>(HeaderFailure::NotText),
{
}

/// A malformed escape in an otherwise well-formed header fails its decoding
/// with the syntax failure carrying the still-escaped text.
pub proof fn lemma_bad_escape(cmd: StompCommand, b: Seq<u8>)
    requires
        cmd.spec_has_escaped_headers(),
        valid_utf8(b),
        unescape_seq(decode_utf8(b)) is None,
    ensures
        spec_decode_one(b, cmd) == Err::<Seq<char>, _>(HeaderFailure::BadEscape(decode_utf8(b))),
{
}

/// A malformed escape — an introducer followed by anything but the four
/// escape codes, or an unpaired introducer standing last — makes the header
/// text malformed, wherever it stands after a well-escaped prefix.
pub proof fn lemma_malformed_escape(u: Seq<char>, bad: Seq<char>)
    requires
        bad.len() > 0,
        bad[0] == '\\',
        bad.len() == 1 || !is_escape_code(bad[1]),
    ensures
        unescape_seq(escape_seq(u) + bad) is None,
{
    lemma_unescape_prefix(u, bad);
    assert(unescape_seq(bad) is None);
}

/// An unknown command token fails the whole decode with a syntax failure.
pub proof fn lemma_unknown_command(input: Seq<u8>, line: Seq<u8>, r1: Seq<u8>)
    requires
        spec_take_line(input) == Some((line, r1)),
        spec_lookup(line) is None,
    ensures
        spec_parse(input) == ParseOutcome::Syntax(lossy_utf8(input)),
{
}

/// Explicit-length framing: a declared body length takes exactly that many
/// raw bytes, embedded NULs and line terminators included, with the frame
/// terminator demanded right after them.
pub proof fn lemma_explicit_length_framing(
    input: Seq<u8>,
    line: Seq<u8>,
    r1: Seq<u8>,
    cmd: StompCommand,
    pairs: Seq<(Seq<u8>, Seq<u8>)>,
    r2: Seq<u8>,
    hs: Seq<(Seq<char>, Seq<char>)>,
    v: Seq<char>,
    n: int,
)
    requires
        spec_take_line(input) == Some((line, r1)),
        spec_lookup(line) == Some(cmd),
        spec_raw_headers(r1) == Ok::<_, Seq<u8>>((pairs, r2)),
        spec_collect(pairs, cmd, Seq::empty()) == Ok::<_, HeaderFailure>(hs),
        assoc_get(hs, clen_chars()) == Some(v),
        spec_parse_len(v) == Some(n),
        n < r2.len(),
        r2[n] == 0x00u8,
    ensures
        spec_parse(input) == spec_gate(cmd, hs, r2.take(n)),
{
}

/// Sentinel framing: with no declared length the body is the longest run of
/// bytes before the first NUL, which must exist.
pub proof fn lemma_sentinel_framing(
    input: Seq<u8>,
    line: Seq<u8>,
    r1: Seq<u8>,
    cmd: StompCommand,
    pairs: Seq<(Seq<u8>, Seq<u8>)>,
    r2: Seq<u8>,
    hs: Seq<(Seq<char>, Seq<char>)>,
)
    requires
        spec_take_line(input) == Some((line, r1)),
        spec_lookup(line) == Some(cmd),
        spec_raw_headers(r1) == Ok::<_, Seq<u8>>((pairs, r2)),
        spec_collect(pairs, cmd, Seq::empty()) == Ok::<_, HeaderFailure>(hs),
        assoc_get(hs, clen_chars()) is None,
        scan_nul(r2) < r2.len(),
    ensures
        spec_parse(input) == spec_gate(cmd, hs, r2.take(scan_nul(r2) as int)),
{
}

/// A content-length value that is no valid non-negative integer fails the
/// decode with a header-value failure naming that header and its text.
pub proof fn lemma_bad_content_length(
    input: Seq<u8>,
    line: Seq<u8>,
    r1: Seq<u8>,
    cmd: StompCommand,
    pairs: Seq<(Seq<u8>, Seq<u8>)>,
    r2: Seq<u8>,
    hs: Seq<(Seq<char>, Seq<char>)>,
    v: Seq<char>,
)
    requires
        spec_take_line(input) == Some((line, r1)),
        spec_lookup(line) == Some(cmd),
        spec_raw_headers(r1) == Ok::<_, Seq<u8>>((pairs, r2)),
        spec_collect(pairs, cmd, Seq::empty()) == Ok::<_, HeaderFailure>(hs),
        assoc_get(hs, clen_chars()) == Some(v),
        spec_parse_len(v) is None,
    ensures
        spec_parse(input) == ParseOutcome::HeaderValue(clen_chars(), v),
{
}

} // verus!
