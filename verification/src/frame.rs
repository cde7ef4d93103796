//! The frame data model: a command, a header mapping, and an optional binary
//! body, together with the single validation gate both the encode and the
//! decode path pass through, and the error taxonomy of the codec.

use vstd::prelude::*;
use vstd::string::*;
use crate::command::{spec_token_chars, token_str, StompCommand};

verus! {

/// The mathematical model of a frame: headers are a sequence of key/value
/// pairs with pairwise-distinct keys, in insertion order.
#[verifier::ext_equal]
pub struct FrameView {
    pub cmd: StompCommand,
    pub headers: Seq<(Seq<char>, Seq<char>)>,
    pub body: Option<Seq<u8>>,
}

/// Header keys are pairwise distinct.
pub open spec fn keys_distinct(hs: Seq<(Seq<char>, Seq<char>)>) -> bool {
    forall|i: int, j: int| 0 <= i < j < hs.len() ==> hs[i].0 != hs[j].0
}

/// The value under the first pair with the given key, if any.
pub open spec fn assoc_get(hs: Seq<(Seq<char>, Seq<char>)>, k: Seq<char>) -> Option<Seq<char>>
    decreases hs.len(),
{
    if hs.len() == 0 {
        None
    } else if hs[0].0 == k {
        Some(hs[0].1)
    } else {
        assoc_get(hs.drop_first(), k)
    }
}

/// Whether some pair carries the given key.
pub open spec fn assoc_has(hs: Seq<(Seq<char>, Seq<char>)>, k: Seq<char>) -> bool {
    assoc_get(hs, k) is Some
}

impl FrameView {
    /// The frame invariant: header keys are unique, and a stored body is
    /// non-empty and only present when the command permits one.
    pub open spec fn wf(self) -> bool {
        &&& keys_distinct(self.headers)
        &&& match self.body {
            Some(b) => b.len() > 0 && self.cmd.spec_may_have_body(),
            None => true,
        }
    }
}

/// The model of a header vector: each pair viewed as character sequences, in
/// order.
pub open spec fn headers_view(h: Seq<(String, String)>) -> Seq<(Seq<char>, Seq<char>)> {
    Seq::new(h.len(), |i: int| (h[i].0@, h[i].1@))
}

/// One protocol message: a command, a header mapping (first occurrence wins
/// on duplicate arrival), and an optional opaque body.
#[derive(Clone, Debug, PartialEq, Eq)]
pub struct StompFrame {
    pub cmd: StompCommand,
    pub headers: Vec<(String, String)>,
    pub body: Option<Vec<u8>>,
}

impl View for StompFrame {
    type V = FrameView;

    open spec fn view(&self) -> FrameView {
        FrameView {
            cmd: self.cmd,
            headers: headers_view(self.headers@),
            body: match self.body {
                Some(b) => Some(b@),
                None => None,
            },
        }
    }
}

/// The closed error taxonomy of the codec.
#[derive(Debug)]
pub enum StompFrameError {
    /// Bytes were not valid text where text is required.
    EncodingError(std::str::Utf8Error),
    /// A specific header's value failed its expected micro-format; carries
    /// the header name and the offending text.
    HeaderError(String, String),
    /// A grammar violation; carries the most useful diagnostic fragment.
    SyntaxError(String),
}

/// The outcome of decoding a byte buffer, at the specification level.
pub enum ParseOutcome {
    Frame(FrameView),
    Encoding,
    HeaderValue(Seq<char>, Seq<char>),
    Syntax(Seq<char>),
}

/// The message of the validation-gate rejection for the given command.
pub open spec fn gate_message(cmd: StompCommand) -> Seq<char> {
    "frame type "@ + spec_token_chars(cmd) + " must not have a body"@
}

/// The validation gate over a resolved (command, headers, body) triple: an
/// empty body is normalized away, and a non-empty body on a command without
/// body permission is a syntax failure naming the command.
pub open spec fn spec_gate(
    cmd: StompCommand,
    hs: Seq<(Seq<char>, Seq<char>)>,
    body: Seq<u8>,
) -> ParseOutcome {
    if body.len() == 0 {
        ParseOutcome::Frame(FrameView { cmd, headers: hs, body: None })
    } else if cmd.spec_may_have_body() {
        ParseOutcome::Frame(FrameView { cmd, headers: hs, body: Some(body) })
    } else {
        ParseOutcome::Syntax(gate_message(cmd))
    }
}

impl StompFrame {
    /// The single validation gate: an empty `body` is normalized to "no
    /// body"; a non-empty body on a command whose policy forbids one fails
    /// with a syntax error naming the command; everything else succeeds with
    /// the frame built from the inputs unchanged.
    pub fn new(
        cmd: StompCommand,
        headers: Vec<(String, String)>,
        body: Vec<u8>,
    ) -> (r: Result<Self, StompFrameError>)
        requires
            keys_distinct(headers_view(headers@)),
        ensures
            match spec_gate(cmd, headers_view(headers@), body@) {
                ParseOutcome::Frame(fv) => r matches Ok(f) && f@ == fv && fv.wf(),
                ParseOutcome::Syntax(m) => r matches Err(StompFrameError::SyntaxError(s)) && s@
                    == m,
                _ => false,
            },
    {
        if body.len() == 0 {
            Ok(StompFrame { cmd, headers, body: None })
        } else if cmd.may_have_body() {
            Ok(StompFrame { cmd, headers, body: Some(body) })
        } else {
            let mut msg = String::from_str("frame type ");
            msg.append(token_str(cmd));
            msg.append(" must not have a body");
            Err(StompFrameError::SyntaxError(msg))
        }
    }
}

/// Retrieves the value of the first header pair with the given key.
pub(crate) fn headers_get<'a>(hs: &'a Vec<(String, String)>, key: &String) -> (r: Option<
    &'a String,
>)
    ensures
        match r {
            Some(v) => assoc_get(headers_view(hs@), key@) == Some(v@),
            None => assoc_get(headers_view(hs@), key@) is None,
        },
{
    let mut i: usize = 0;
    while i < hs.len()
        invariant
            0 <= i <= hs@.len(),
            forall|j: int| 0 <= j < i ==> headers_view(hs@)[j].0 != key@,
        decreases hs@.len() - i,
    {
        let p = &hs[i];
        if p.0.eq(key) {
            proof {
                lemma_assoc_skip(headers_view(hs@), key@, i as int);
            }
            return Some(&p.1);
        }
        i += 1;
    }
    proof {
        lemma_assoc_skip(headers_view(hs@), key@, hs@.len() as int);
    }
    None
}

/// When no key among the first `i` pairs matches, lookup proceeds in the
/// rest.
pub proof fn lemma_assoc_skip(hs: Seq<(Seq<char>, Seq<char>)>, k: Seq<char>, i: int)
    requires
        0 <= i <= hs.len(),
        forall|j: int| 0 <= j < i ==> hs[j].0 != k,
    ensures
        assoc_get(hs, k) == assoc_get(hs.skip(i), k),
    decreases i,
{
    if i == 0 {
        assert(hs.skip(0) =~= hs);
    } else {
        assert(hs.drop_first().skip(i - 1) =~= hs.skip(i));
        lemma_assoc_skip(hs.drop_first(), k, i - 1);
    }
}

} // verus!
