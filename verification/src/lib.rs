//! A codec for a text-based, frame-oriented messaging protocol carried over a
//! byte stream: structured frames (command, headers, optional binary body) are
//! encoded to the protocol's exact wire bytes and parsed back, with malformed
//! input rejected under a precise error classification.

pub mod address;
pub mod command;
pub mod decode;
pub mod encode;
pub mod frame;
pub mod laws;
pub mod text;

pub use address::StompUrl;
pub use address::StompUrlError;
pub use command::StompCommand;
pub use frame::StompFrame;
pub use frame::StompFrameError;
