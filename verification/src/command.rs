//! The closed set of protocol command names, their canonical wire tokens, and
//! the two per-command policies the codec depends on: whether a frame of that
//! command may carry a body, and whether its headers use backslash-escaping.

use vstd::prelude::*;

verus! {

/// A protocol command: the fixed verb naming a frame's purpose.
#[allow(clippy::upper_case_acronyms)]
#[derive(Copy, Clone, Debug, Eq, PartialEq, Structural)]
pub enum StompCommand {
    // server-originated
    CONNECTED,
    MESSAGE,
    RECEIPT,
    ERROR,
    // client-originated
    SEND,
    UNSUBSCRIBE,
    SUBSCRIBE,
    BEGIN,
    COMMIT,
    ABORT,
    NACK,
    ACK,
    DISCONNECT,
    CONNECT,
    STOMP,
}

/// The canonical wire token of a command, as raw bytes.
pub open spec fn spec_token(cmd: StompCommand) -> Seq<u8> {
    match cmd {
        StompCommand::CONNECTED => seq![0x43u8, 0x4fu8, 0x4eu8, 0x4eu8, 0x45u8, 0x43u8, 0x54u8, 0x45u8, 0x44u8],
        StompCommand::MESSAGE => seq![0x4du8, 0x45u8, 0x53u8, 0x53u8, 0x41u8, 0x47u8, 0x45u8],
        StompCommand::RECEIPT => seq![0x52u8, 0x45u8, 0x43u8, 0x45u8, 0x49u8, 0x50u8, 0x54u8],
        StompCommand::ERROR => seq![0x45u8, 0x52u8, 0x52u8, 0x4fu8, 0x52u8],
        StompCommand::SEND => seq![0x53u8, 0x45u8, 0x4eu8, 0x44u8],
        StompCommand::UNSUBSCRIBE => seq![
            0x55u8, 0x4eu8, 0x53u8, 0x55u8, 0x42u8, 0x53u8, 0x43u8, 0x52u8, 0x49u8, 0x42u8, 0x45u8,
        ],
        StompCommand::SUBSCRIBE => seq![0x53u8, 0x55u8, 0x42u8, 0x53u8, 0x43u8, 0x52u8, 0x49u8, 0x42u8, 0x45u8],
        StompCommand::BEGIN => seq![0x42u8, 0x45u8, 0x47u8, 0x49u8, 0x4eu8],
        StompCommand::COMMIT => seq![0x43u8, 0x4fu8, 0x4du8, 0x4du8, 0x49u8, 0x54u8],
        StompCommand::ABORT => seq![0x41u8, 0x42u8, 0x4fu8, 0x52u8, 0x54u8],
        StompCommand::NACK => seq![0x4eu8, 0x41u8, 0x43u8, 0x4bu8],
        StompCommand::ACK => seq![0x41u8, 0x43u8, 0x4bu8],
        StompCommand::DISCONNECT => seq![
            0x44u8, 0x49u8, 0x53u8, 0x43u8, 0x4fu8, 0x4eu8, 0x4eu8, 0x45u8, 0x43u8, 0x54u8,
        ],
        StompCommand::CONNECT => seq![0x43u8, 0x4fu8, 0x4eu8, 0x4eu8, 0x45u8, 0x43u8, 0x54u8],
        StompCommand::STOMP => seq![0x53u8, 0x54u8, 0x4fu8, 0x4du8, 0x50u8],
    }
}

/// The canonical textual form of a command.
pub open spec fn spec_token_chars(cmd: StompCommand) -> Seq<char> {
    match cmd {
        StompCommand::CONNECTED => "CONNECTED"@,
        StompCommand::MESSAGE => "MESSAGE"@,
        StompCommand::RECEIPT => "RECEIPT"@,
        StompCommand::ERROR => "ERROR"@,
        StompCommand::SEND => "SEND"@,
        StompCommand::UNSUBSCRIBE => "UNSUBSCRIBE"@,
        StompCommand::SUBSCRIBE => "SUBSCRIBE"@,
        StompCommand::BEGIN => "BEGIN"@,
        StompCommand::COMMIT => "COMMIT"@,
        StompCommand::ABORT => "ABORT"@,
        StompCommand::NACK => "NACK"@,
        StompCommand::ACK => "ACK"@,
        StompCommand::DISCONNECT => "DISCONNECT"@,
        StompCommand::CONNECT => "CONNECT"@,
        StompCommand::STOMP => "STOMP"@,
    }
}

/// Resolves a textual command token (as raw bytes) to its command, matching
/// the fixed token list exactly and case-sensitively.
pub open spec fn spec_lookup(line: Seq<u8>) -> Option<StompCommand> {
    if line == spec_token(StompCommand::CONNECTED) {
        Some(StompCommand::CONNECTED)
    } else if line == spec_token(StompCommand::MESSAGE) {
        Some(StompCommand::MESSAGE)
    } else if line == spec_token(StompCommand::RECEIPT) {
        Some(StompCommand::RECEIPT)
    } else if line == spec_token(StompCommand::ERROR) {
        Some(StompCommand::ERROR)
    } else if line == spec_token(StompCommand::SEND) {
        Some(StompCommand::SEND)
    } else if line == spec_token(StompCommand::UNSUBSCRIBE) {
        Some(StompCommand::UNSUBSCRIBE)
    } else if line == spec_token(StompCommand::SUBSCRIBE) {
        Some(StompCommand::SUBSCRIBE)
    } else if line == spec_token(StompCommand::BEGIN) {
        Some(StompCommand::BEGIN)
    } else if line == spec_token(StompCommand::COMMIT) {
        Some(StompCommand::COMMIT)
    } else if line == spec_token(StompCommand::ABORT) {
        Some(StompCommand::ABORT)
    } else if line == spec_token(StompCommand::NACK) {
        Some(StompCommand::NACK)
    } else if line == spec_token(StompCommand::ACK) {
        Some(StompCommand::ACK)
    } else if line == spec_token(StompCommand::DISCONNECT) {
        Some(StompCommand::DISCONNECT)
    } else if line == spec_token(StompCommand::CONNECT) {
        Some(StompCommand::CONNECT)
    } else if line == spec_token(StompCommand::STOMP) {
        Some(StompCommand::STOMP)
    } else {
        None
    }
}

impl StompCommand {
    /// Whether this command originates from the server side (informational).
    pub open spec fn spec_is_server_cmd(self) -> bool {
        matches!(
            self,
            Self::CONNECTED | Self::MESSAGE | Self::RECEIPT | Self::ERROR
        )
    }

    /// Whether a frame of this command may carry a body.
    pub open spec fn spec_may_have_body(self) -> bool {
        matches!(self, Self::SEND | Self::MESSAGE | Self::ERROR)
    }

    /// Whether header keys and values of this command are backslash-escaped
    /// on the wire.
    pub open spec fn spec_has_escaped_headers(self) -> bool {
        !matches!(self, Self::CONNECT | Self::CONNECTED)
    }

    pub fn is_server_cmd(&self) -> (r: bool)
        ensures
            r == self.spec_is_server_cmd(),
    {
        matches!(
            self,
            Self::CONNECTED | Self::MESSAGE | Self::RECEIPT | Self::ERROR
        )
    }

    pub fn may_have_body(&self) -> (r: bool)
        ensures
            r == self.spec_may_have_body(),
    {
        matches!(self, Self::SEND | Self::MESSAGE | Self::ERROR)
    }

    pub fn has_escaped_headers(&self) -> (r: bool)
        ensures
            r == self.spec_has_escaped_headers(),
    {
        !matches!(self, Self::CONNECT | Self::CONNECTED)
    }
}

/// The wire token of a command, as an owned byte vector.
pub(crate) fn token_vec(cmd: StompCommand) -> (r: Vec<u8>)
    ensures
        r@ == spec_token(cmd),
{
    let r: Vec<u8> = match cmd {
        StompCommand::CONNECTED => vec![0x43u8, 0x4fu8, 0x4eu8, 0x4eu8, 0x45u8, 0x43u8, 0x54u8, 0x45u8, 0x44u8],
        StompCommand::MESSAGE => vec![0x4du8, 0x45u8, 0x53u8, 0x53u8, 0x41u8, 0x47u8, 0x45u8],
        StompCommand::RECEIPT => vec![0x52u8, 0x45u8, 0x43u8, 0x45u8, 0x49u8, 0x50u8, 0x54u8],
        StompCommand::ERROR => vec![0x45u8, 0x52u8, 0x52u8, 0x4fu8, 0x52u8],
        StompCommand::SEND => vec![0x53u8, 0x45u8, 0x4eu8, 0x44u8],
        StompCommand::UNSUBSCRIBE => vec![
            0x55u8, 0x4eu8, 0x53u8, 0x55u8, 0x42u8, 0x53u8, 0x43u8, 0x52u8, 0x49u8, 0x42u8, 0x45u8,
        ],
        StompCommand::SUBSCRIBE => vec![0x53u8, 0x55u8, 0x42u8, 0x53u8, 0x43u8, 0x52u8, 0x49u8, 0x42u8, 0x45u8],
        StompCommand::BEGIN => vec![0x42u8, 0x45u8, 0x47u8, 0x49u8, 0x4eu8],
        StompCommand::COMMIT => vec![0x43u8, 0x4fu8, 0x4du8, 0x4du8, 0x49u8, 0x54u8],
        StompCommand::ABORT => vec![0x41u8, 0x42u8, 0x4fu8, 0x52u8, 0x54u8],
        StompCommand::NACK => vec![0x4eu8, 0x41u8, 0x43u8, 0x4bu8],
        StompCommand::ACK => vec![0x41u8, 0x43u8, 0x4bu8],
        StompCommand::DISCONNECT => vec![0x44u8, 0x49u8, 0x53u8, 0x43u8, 0x4fu8, 0x4eu8, 0x4eu8, 0x45u8, 0x43u8, 0x54u8],
        StompCommand::CONNECT => vec![0x43u8, 0x4fu8, 0x4eu8, 0x4eu8, 0x45u8, 0x43u8, 0x54u8],
        StompCommand::STOMP => vec![0x53u8, 0x54u8, 0x4fu8, 0x4du8, 0x50u8],
    };
    proof {
        assert(r@ =~= spec_token(cmd));
    }
    r
}

/// The canonical textual form of a command.
pub fn token_str(cmd: StompCommand) -> (r: &'static str)
    ensures
        r@ == spec_token_chars(cmd),
{
    match cmd {
        StompCommand::CONNECTED => "CONNECTED",
        StompCommand::MESSAGE => "MESSAGE",
        StompCommand::RECEIPT => "RECEIPT",
        StompCommand::ERROR => "ERROR",
        StompCommand::SEND => "SEND",
        StompCommand::UNSUBSCRIBE => "UNSUBSCRIBE",
        StompCommand::SUBSCRIBE => "SUBSCRIBE",
        StompCommand::BEGIN => "BEGIN",
        StompCommand::COMMIT => "COMMIT",
        StompCommand::ABORT => "ABORT",
        StompCommand::NACK => "NACK",
        StompCommand::ACK => "ACK",
        StompCommand::DISCONNECT => "DISCONNECT",
        StompCommand::CONNECT => "CONNECT",
        StompCommand::STOMP => "STOMP",
    }
}

/// Byte-for-byte comparison of a slice against a vector.
pub(crate) fn bytes_eq(a: &[u8], b: &Vec<u8>) -> (r: bool)
    ensures
        r == (a@ == b@),
{
    if a.len() != b.len() {
        return false;
    }
    let mut i: usize = 0;
    while i < a.len()
        invariant
            0 <= i <= a.len(),
            a@.len() == b@.len(),
            forall|j: int| 0 <= j < i ==> a@[j] == b@[j],
        decreases a.len() - i,
    {
        if a[i] != b[i] {
            return false;
        }
        i += 1;
    }
    proof {
        assert(a@ =~= b@);
    }
    true
}

/// Resolves a command-line token to its command, or `None` when the token is
/// unknown.
pub(crate) fn lookup_token(line: &[u8]) -> (r: Option<StompCommand>)
    ensures
        r == spec_lookup(line@),
{
    if bytes_eq(line, &token_vec(StompCommand::CONNECTED)) {
        Some(StompCommand::CONNECTED)
    } else if bytes_eq(line, &token_vec(StompCommand::MESSAGE)) {
        Some(StompCommand::MESSAGE)
    } else if bytes_eq(line, &token_vec(StompCommand::RECEIPT)) {
        Some(StompCommand::RECEIPT)
    } else if bytes_eq(line, &token_vec(StompCommand::ERROR)) {
        Some(StompCommand::ERROR)
    } else if bytes_eq(line, &token_vec(StompCommand::SEND)) {
        Some(StompCommand::SEND)
    } else if bytes_eq(line, &token_vec(StompCommand::UNSUBSCRIBE)) {
        Some(StompCommand::UNSUBSCRIBE)
    } else if bytes_eq(line, &token_vec(StompCommand::SUBSCRIBE)) {
        Some(StompCommand::SUBSCRIBE)
    } else if bytes_eq(line, &token_vec(StompCommand::BEGIN)) {
        Some(StompCommand::BEGIN)
    } else if bytes_eq(line, &token_vec(StompCommand::COMMIT)) {
        Some(StompCommand::COMMIT)
    } else if bytes_eq(line, &token_vec(StompCommand::ABORT)) {
        Some(StompCommand::ABORT)
    } else if bytes_eq(line, &token_vec(StompCommand::NACK)) {
        Some(StompCommand::NACK)
    } else if bytes_eq(line, &token_vec(StompCommand::ACK)) {
        Some(StompCommand::ACK)
    } else if bytes_eq(line, &token_vec(StompCommand::DISCONNECT)) {
        Some(StompCommand::DISCONNECT)
    } else if bytes_eq(line, &token_vec(StompCommand::CONNECT)) {
        Some(StompCommand::CONNECT)
    } else if bytes_eq(line, &token_vec(StompCommand::STOMP)) {
        Some(StompCommand::STOMP)
    } else {
        None
    }
}

/// Every wire token is non-empty and contains no carriage return, line feed,
/// or header-separator byte.
pub proof fn lemma_token_wellformed(cmd: StompCommand)
    ensures
        spec_token(cmd).len() > 0,
        forall|j: int|
            0 <= j < spec_token(cmd).len() ==> spec_token(cmd)[j] != 0x0du8
                && spec_token(cmd)[j] != 0x0au8 && spec_token(cmd)[j] != 0x3au8,
{
    assert forall|j: int| 0 <= j < spec_token(cmd).len() implies spec_token(cmd)[j] != 0x0du8
        && spec_token(cmd)[j] != 0x0au8 && spec_token(cmd)[j] != 0x3au8 by {}
}

/// Looking a command's own token back up resolves to that command: the token
/// list is unambiguous.
pub proof fn lemma_lookup_of_token(cmd: StompCommand)
    ensures
        spec_lookup(spec_token(cmd)) == Some(cmd),
{
    assert(spec_token(StompCommand::CONNECTED).len() == 9);
    assert(spec_token(StompCommand::MESSAGE).len() == 7);
    assert(spec_token(StompCommand::RECEIPT).len() == 7);
    assert(spec_token(StompCommand::ERROR).len() == 5);
    assert(spec_token(StompCommand::SEND).len() == 4);
    assert(spec_token(StompCommand::UNSUBSCRIBE).len() == 11);
    assert(spec_token(StompCommand::SUBSCRIBE).len() == 9);
    assert(spec_token(StompCommand::BEGIN).len() == 5);
    assert(spec_token(StompCommand::COMMIT).len() == 6);
    assert(spec_token(StompCommand::ABORT).len() == 5);
    assert(spec_token(StompCommand::NACK).len() == 4);
    assert(spec_token(StompCommand::ACK).len() == 3);
    assert(spec_token(StompCommand::DISCONNECT).len() == 10);
    assert(spec_token(StompCommand::CONNECT).len() == 7);
    assert(spec_token(StompCommand::STOMP).len() == 5);
    assert(spec_token(StompCommand::CONNECTED)[0] == 0x43u8);
    assert(spec_token(StompCommand::MESSAGE)[0] == 0x4du8);
    assert(spec_token(StompCommand::RECEIPT)[0] == 0x52u8);
    assert(spec_token(StompCommand::ERROR)[0] == 0x45u8);
    assert(spec_token(StompCommand::SEND)[0] == 0x53u8);
    assert(spec_token(StompCommand::UNSUBSCRIBE)[0] == 0x55u8);
    assert(spec_token(StompCommand::SUBSCRIBE)[0] == 0x53u8);
    assert(spec_token(StompCommand::BEGIN)[0] == 0x42u8);
    assert(spec_token(StompCommand::COMMIT)[0] == 0x43u8);
    assert(spec_token(StompCommand::ABORT)[0] == 0x41u8);
    assert(spec_token(StompCommand::NACK)[0] == 0x4eu8);
    assert(spec_token(StompCommand::ACK)[0] == 0x41u8);
    assert(spec_token(StompCommand::DISCONNECT)[0] == 0x44u8);
    assert(spec_token(StompCommand::CONNECT)[0] == 0x43u8);
    assert(spec_token(StompCommand::STOMP)[0] == 0x53u8);
}

} // verus!
