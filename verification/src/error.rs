use vstd::prelude::*;

verus! {

/// What can go wrong while a control payload or a framed message is handled.
#[derive(Clone, Copy, Debug, PartialEq, Eq, Structural)]
pub enum Error {
    /// A control payload (a port, a peer address) is not in the expected text form.
    ProtocolError,
    /// The bytes of a received message are not valid UTF-8.
    EncodingError,
    /// A message does not fit in the fixed buffer of the channel.
    BufferOverflow,
}

} // verus!
