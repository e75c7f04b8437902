//! The framed channel over an established direct link: each message is its
//! UTF-8 bytes followed by one terminator byte, and no message may outgrow the
//! fixed buffer of the channel.

use crate::error::Error;
use vstd::prelude::*;
use vstd::string::StrSliceExecFns;
use vstd::utf8::{
    decode_utf8, encode_utf8, encode_utf8_decode_utf8, encode_utf8_valid_utf8, valid_utf8,
};

verus! {

/// How many bytes the buffer of a channel holds.
pub const BUFFER_CAPACITY: usize = 2048;

/// The byte that ends every message on the wire.
pub const MESSAGE_END: u8 = 0;

/// The error with which `String::from_utf8` refuses bytes. Nothing is read
/// from it.
#[verifier::external_type_specification]
#[verifier::external_body]
pub struct ExFromUtf8Error(std::string::FromUtf8Error);

/// `String::from_utf8` of the standard library. It is taken to accept
/// exactly the byte strings that are valid UTF-8, and to give the string
/// whose characters those bytes encode.
pub assume_specification[ String::from_utf8 ](vec: Vec<u8>) -> (result: Result<
    String,
    std::string::FromUtf8Error,
>)
    ensures
        result is Ok <==> valid_utf8(vec@),
        result matches Ok(text) ==> text@ == decode_utf8(vec@),
;

/// What a channel remembers between two bytes that it is given.
pub struct ChannelState {
    /// The bytes of the message that is being received, in arrival order.
    pub pending: Seq<u8>,
    /// Whether a message outgrew the buffer. Framing is lost from then on,
    /// and nothing more is received.
    pub overflowed: bool,
}

/// The state of a channel on which nothing was received yet, and to which a
/// channel returns whenever a terminator arrives.
pub open spec fn fresh() -> ChannelState {
    ChannelState { pending: Seq::<u8>::empty(), overflowed: false }
}

/// Whether `message` can be sent: its bytes and the terminator fit in the
/// buffer together.
pub open spec fn fits(message: Seq<char>) -> bool {
    encode_utf8(message).len() + 1 <= BUFFER_CAPACITY
}

/// What is written to the link for `message`: its UTF-8 bytes, then the
/// terminator.
pub open spec fn frame(message: Seq<char>) -> Seq<u8> {
    encode_utf8(message).push(MESSAGE_END)
}

/// What one byte from the link does to a channel: the state afterwards, and
/// what the receiver is told.
///
/// - After an overflow every byte is refused with `BufferOverflow`.
/// - The terminator ends the message: the pending bytes are handed out as
///   text if they are valid UTF-8, and refused with `EncodingError` if not.
///   Either way the channel is fresh again.
/// - Any other byte is appended to the pending bytes (`Ok(None)`: the
///   message goes on), unless the buffer is full already: then the channel has
///   overflowed.
pub open spec fn receive_step(state: ChannelState, byte: u8) -> (
    ChannelState,
    Result<Option<Seq<char>>, Error>,
) {
    if state.overflowed {
        (state, Err(Error::BufferOverflow))
    } else if byte == MESSAGE_END {
        (
            fresh(),
            if valid_utf8(state.pending) {
                Ok(Some(decode_utf8(state.pending)))
            } else {
                Err(Error::EncodingError)
            },
        )
    } else if state.pending.len() >= BUFFER_CAPACITY {
        (ChannelState { pending: state.pending, overflowed: true }, Err(Error::BufferOverflow))
    } else {
        (ChannelState { pending: state.pending.push(byte), overflowed: false }, Ok(None))
    }
}

/// The state of a channel after the bytes of `stream` were received one after
/// the other.
pub open spec fn state_after(state: ChannelState, stream: Seq<u8>) -> ChannelState
    decreases stream.len(),
{
    if stream.len() == 0 {
        state
    } else {
        receive_step(state_after(state, stream.drop_last()), stream.last()).0
    }
}

/// What the receiver is told for each byte of `stream`, in order.
pub open spec fn results_of(state: ChannelState, stream: Seq<u8>) -> Seq<
    Result<Option<Seq<char>>, Error>,
>
    decreases stream.len(),
{
    if stream.len() == 0 {
        Seq::empty()
    } else {
        results_of(state, stream.drop_last()).push(
            receive_step(state_after(state, stream.drop_last()), stream.last()).1,
        )
    }
}

/// The text that a call of `receive` handed out, as characters.
pub open spec fn received(result: Result<Option<String>, Error>) -> Result<
    Option<Seq<char>>,
    Error,
> {
    match result {
        Ok(Some(text)) => Ok(Some(text@)),
        Ok(None) => Ok(None),
        Err(error) => Err(error),
    }
}

/// Receiving a stream in two parts is receiving its first part, and then its
/// second part in the state that the first part left.
pub proof fn lemma_receive_in_parts(state: ChannelState, first: Seq<u8>, second: Seq<u8>)
    ensures
        state_after(state, first + second) == state_after(state_after(state, first), second),
        results_of(state, first + second) == results_of(state, first) + results_of(
            state_after(state, first),
            second,
        ),
    decreases second.len(),
{
    let whole = first + second;
    if second.len() == 0 {
        assert(whole =~= first);
        assert(results_of(state, first) + Seq::empty() =~= results_of(state, first));
    } else {
        lemma_receive_in_parts(state, first, second.drop_last());
        assert(whole.drop_last() =~= first + second.drop_last());
        assert(whole.last() == second.last());
        let middle = state_after(state, first);
        assert(results_of(state, whole) =~= results_of(state, first) + results_of(
            middle,
            second,
        ));
    }
}

/// Bytes that hold no terminator never end a message, and as long as they
/// fit they are only collected: none is lost, none is handed out.
pub proof fn lemma_body_is_collected(state: ChannelState, body: Seq<u8>)
    requires
        !state.overflowed,
        !body.contains(MESSAGE_END),
        state.pending.len() + body.len() <= BUFFER_CAPACITY,
    ensures
        state_after(state, body).pending == state.pending + body,
        !state_after(state, body).overflowed,
        results_of(state, body) == Seq::new(
            body.len(),
            |i: int| Ok::<Option<Seq<char>>, Error>(None),
        ),
    decreases body.len(),
{
    if body.len() == 0 {
        assert(state.pending + body =~= state.pending);
        assert(results_of(state, body) =~= Seq::new(
            body.len(),
            |i: int| Ok::<Option<Seq<char>>, Error>(None),
        ));
    } else {
        let init = body.drop_last();
        assert(!init.contains(MESSAGE_END)) by {
            if init.contains(MESSAGE_END) {
                let i = choose|i: int| 0 <= i < init.len() && init[i] == MESSAGE_END;
                assert(body[i] == MESSAGE_END);
            }
        }
        lemma_body_is_collected(state, init);
        assert(body.last() != MESSAGE_END) by {
            assert(body[body.len() - 1] == body.last());
        }
        assert((state.pending + init).push(body.last()) =~= state.pending + body);
        assert(results_of(state, body) =~= Seq::new(
            body.len(),
            |i: int| Ok::<Option<Seq<char>>, Error>(None),
        ));
    }
}

/// What was sent is what is received: the frame of a message that fits and
/// holds no terminator byte gives, on a fresh channel, nothing for each byte
/// of the message and the message itself for the terminator, and leaves the
/// channel fresh.
pub proof fn lemma_frame_round_trip(message: Seq<char>)
    requires
        fits(message),
        !encode_utf8(message).contains(MESSAGE_END),
    ensures
        state_after(fresh(), frame(message)) == fresh(),
        results_of(fresh(), frame(message)) == Seq::new(
            encode_utf8(message).len(),
            |i: int| Ok::<Option<Seq<char>>, Error>(None),
        ).push(Ok(Some(message))),
{
    let body = encode_utf8(message);
    let whole = frame(message);
    lemma_body_is_collected(fresh(), body);
    encode_utf8_valid_utf8(message);
    encode_utf8_decode_utf8(message);
    assert(whole.drop_last() =~= body);
    assert(whole.last() == MESSAGE_END);
    assert(fresh().pending + body =~= body);
}

/// Each message ends with its own terminator and the next begins right behind
/// it: on a fresh channel, what follows the frame of a message is received as
/// if nothing had come before.
pub proof fn lemma_next_message_starts_fresh(message: Seq<char>, rest: Seq<u8>)
    requires
        fits(message),
        !encode_utf8(message).contains(MESSAGE_END),
    ensures
        state_after(fresh(), frame(message) + rest) == state_after(fresh(), rest),
        results_of(fresh(), frame(message) + rest) == results_of(fresh(), frame(message))
            + results_of(fresh(), rest),
{
    lemma_frame_round_trip(message);
    lemma_receive_in_parts(fresh(), frame(message), rest);
}

/// An overflow is final: whatever arrives afterwards, terminators included,
/// is refused with `BufferOverflow`, and the channel stays as it is.
pub proof fn lemma_overflow_is_final(state: ChannelState, stream: Seq<u8>)
    requires
        state.overflowed,
    ensures
        state_after(state, stream) == state,
        results_of(state, stream) == Seq::new(
            stream.len(),
            |i: int| Err::<Option<Seq<char>>, Error>(Error::BufferOverflow),
        ),
    decreases stream.len(),
{
    if stream.len() > 0 {
        lemma_overflow_is_final(state, stream.drop_last());
    }
    assert(results_of(state, stream) =~= Seq::new(
        stream.len(),
        |i: int| Err::<Option<Seq<char>>, Error>(Error::BufferOverflow),
    ));
}

/// A message that goes on beyond the buffer overflows the channel: after as
/// many bytes as the buffer holds, none of them a terminator, the next byte
/// that is no terminator is refused with `BufferOverflow`.
pub proof fn lemma_long_body_overflows(body: Seq<u8>, next: u8)
    requires
        body.len() == BUFFER_CAPACITY,
        !body.contains(MESSAGE_END),
        next != MESSAGE_END,
    ensures
        state_after(fresh(), body.push(next)).overflowed,
        results_of(fresh(), body.push(next)).last() == Err::<Option<Seq<char>>, Error>(
            Error::BufferOverflow,
        ),
{
    lemma_body_is_collected(fresh(), body);
    assert(body.push(next).drop_last() =~= body);
    assert(fresh().pending + body =~= body);
}

/// One end of an established direct link, as far as framing goes: the bytes
/// of the message that is being received. The link itself is the caller's.
#[derive(Debug)]
pub struct ConnectedClient {
    read_buffer: Vec<u8>,
    overflowed: bool,
}

impl View for ConnectedClient {
    type V = ChannelState;

    closed spec fn view(&self) -> ChannelState {
        ChannelState { pending: self.read_buffer@, overflowed: self.overflowed }
    }
}

impl ConnectedClient {
    #[verifier::type_invariant]
    spec fn within_capacity(self) -> bool {
        self.read_buffer@.len() <= BUFFER_CAPACITY
    }

    /// A channel on which nothing was received yet.
    pub fn new() -> (channel: ConnectedClient)
        ensures
            channel@ == fresh(),
    {
        ConnectedClient { read_buffer: Vec::with_capacity(BUFFER_CAPACITY), overflowed: false }
    }

    /// Frames `message` for the link: the bytes to write, in one write, are
    /// the message followed by the terminator. A message that does not fit
    /// in the buffer together with its terminator is refused with
    /// [`Error::BufferOverflow`], and nothing is to be written. What the
    /// channel has received so far is not touched.
    ///
    /// The message is not searched for the terminator byte: one that holds
    /// it is framed as it is, and arrives as more than one message.
    pub fn send(&mut self, message: String) -> (result: Result<Vec<u8>, Error>)
        ensures
            final(self)@ == old(self)@,
            match result {
                Ok(bytes) => fits(message@) && bytes@ == frame(message@),
                Err(error) => error == Error::BufferOverflow && !fits(message@),
            },
    {
        let text: &str = message.as_str();
        if text.as_bytes().len() >= BUFFER_CAPACITY {
            return Err(Error::BufferOverflow);
        }
        let mut bytes: Vec<u8> = text.as_bytes_vec();
        bytes.push(MESSAGE_END);
        Ok(bytes)
    }

    /// Takes the next byte that arrived on the link. `Ok(None)` says that
    /// the message goes on; `Ok(Some(text))` hands out a whole message, whose
    /// terminator this byte was. See [`receive_step`] for every case.
    pub fn receive(&mut self, byte: u8) -> (result: Result<Option<String>, Error>)
        ensures
            (final(self)@, received(result)) == receive_step(old(self)@, byte),
    {
        proof {
            use_type_invariant(&*self);
        }
        if self.overflowed {
            return Err(Error::BufferOverflow);
        }
        if byte == MESSAGE_END {
            let mut message: Vec<u8> = Vec::with_capacity(BUFFER_CAPACITY);
            std::mem::swap(&mut self.read_buffer, &mut message);
            match String::from_utf8(message) {
                Ok(text) => Ok(Some(text)),
                Err(_) => Err(Error::EncodingError),
            }
        } else if self.read_buffer.len() >= BUFFER_CAPACITY {
            self.overflowed = true;
            Err(Error::BufferOverflow)
        } else {
            // The buffer is extended outside of `self`, so that the bound on
            // its length is never out of sight while `self` holds it.
            let mut buffer: Vec<u8> = Vec::new();
            std::mem::swap(&mut self.read_buffer, &mut buffer);
            buffer.push(byte);
            self.read_buffer = buffer;
            Ok(None)
        }
    }
}

} // verus!
