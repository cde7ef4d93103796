//! The encoder: a deterministic, total serialization of a frame to its exact
//! wire bytes.

use vstd::prelude::*;
use vstd::string::*;
use vstd::utf8::*;
use crate::command::{spec_token, token_vec, StompCommand};
use crate::frame::{headers_view, FrameView, StompFrame};
use crate::text::{escape_header, spec_escape_header};

verus! {

/// The wire bytes of one header line: escaped key, separator, escaped value,
/// line feed.
pub open spec fn spec_header_line(cmd: StompCommand, k: Seq<char>, v: Seq<char>) -> Seq<u8> {
    encode_utf8(spec_escape_header(k, cmd)) + seq![0x3au8] + encode_utf8(
        spec_escape_header(v, cmd),
    ) + seq![0x0au8]
}

/// The wire bytes of the header block: one line per pair, in order.
pub open spec fn spec_header_block(cmd: StompCommand, hs: Seq<(Seq<char>, Seq<char>)>) -> Seq<u8>
    decreases hs.len(),
{
    if hs.len() == 0 {
        Seq::empty()
    } else {
        spec_header_line(cmd, hs[0].0, hs[0].1) + spec_header_block(cmd, hs.drop_first())
    }
}

/// The body bytes of a frame: the stored bytes, or nothing.
pub open spec fn spec_body_bytes(b: Option<Seq<u8>>) -> Seq<u8> {
    match b {
        Some(x) => x,
        None => Seq::empty(),
    }
}

/// The exact byte encoding of a frame: command token, line feed, header
/// block, blank line, body bytes verbatim, terminal NUL.
pub open spec fn spec_encode(f: FrameView) -> Seq<u8> {
    spec_token(f.cmd) + seq![0x0au8] + spec_header_block(f.cmd, f.headers) + seq![0x0au8]
        + spec_body_bytes(f.body) + seq![0x00u8]
}

/// The header block of concatenated pair sequences is the concatenation of
/// their blocks.
pub proof fn lemma_block_append(
    cmd: StompCommand,
    a: Seq<(Seq<char>, Seq<char>)>,
    b: Seq<(Seq<char>, Seq<char>)>,
)
    ensures
        spec_header_block(cmd, a + b) == spec_header_block(cmd, a) + spec_header_block(cmd, b),
    decreases a.len(),
{
    if a.len() == 0 {
        assert(a + b =~= b);
        assert(spec_header_block(cmd, a) + spec_header_block(cmd, b) =~= spec_header_block(
            cmd,
            b,
        ));
    } else {
        assert((a + b).drop_first() =~= a.drop_first() + b);
        assert((a + b)[0] == a[0]);
        lemma_block_append(cmd, a.drop_first(), b);
        assert(spec_header_block(cmd, a + b) =~= spec_header_block(cmd, a) + spec_header_block(
            cmd,
            b,
        ));
    }
}

impl StompFrame {
    /// Serializes the frame into its exact wire bytes. Total: encoding cannot
    /// fail for any frame.
    pub fn to_bytes(&self) -> (r: Vec<u8>)
        ensures
            r@ == spec_encode(self@),
    {
        let mut out: Vec<u8> = token_vec(self.cmd);
        out.push(0x0au8);
        let ghost hs = self@.headers;
        let mut i: usize = 0;
        while i < self.headers.len()
            invariant
                0 <= i <= self.headers@.len(),
                hs == headers_view(self.headers@),
                hs.len() == self.headers@.len(),
                out@ == spec_token(self.cmd) + seq![0x0au8] + spec_header_block(
                    self.cmd,
                    hs.take(i as int),
                ),
            decreases self.headers@.len() - i,
        {
            let ghost out0 = out@;
            let p = &self.headers[i];
            let key = escape_header(p.0.as_str(), self.cmd);
            let mut kb = key.as_str().as_bytes_vec();
            out.append(&mut kb);
            out.push(0x3au8);
            let value = escape_header(p.1.as_str(), self.cmd);
            let mut vb = value.as_str().as_bytes_vec();
            out.append(&mut vb);
            out.push(0x0au8);
            proof {
                assert(hs[i as int] == (self.headers@[i as int].0@, self.headers@[i as int].1@));
                assert(out@ =~= out0 + spec_header_line(self.cmd, hs[i as int].0, hs[i as int].1));
                assert(hs.take(i + 1 as int) =~= hs.take(i as int) + seq![hs[i as int]]);
                lemma_block_append(self.cmd, hs.take(i as int), seq![hs[i as int]]);
                assert(seq![hs[i as int]].drop_first() =~= Seq::<(Seq<char>, Seq<char>)>::empty());
                assert(spec_header_block(self.cmd, seq![hs[i as int]].drop_first())
                    == Seq::<u8>::empty());
                assert(spec_header_block(self.cmd, seq![hs[i as int]]) =~= spec_header_line(
                    self.cmd,
                    hs[i as int].0,
                    hs[i as int].1,
                ));
                assert(out@ =~= spec_token(self.cmd) + seq![0x0au8] + spec_header_block(
                    self.cmd,
                    hs.take(i + 1 as int),
                ));
            }
            i += 1;
        }
        proof {
            assert(hs.take(hs.len() as int) =~= hs);
        }
        out.push(0x0au8);
        match &self.body {
            Some(b) => {
                out.extend_from_slice(b.as_slice());
            },
            None => {},
        }
        out.push(0x00u8);
        proof {
            assert(out@ =~= spec_encode(self@));
        }
        out
    }
}

} // verus!
