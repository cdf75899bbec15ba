//! The application protocol: a client's command requests and a server's
//! event replies.

use vstd::prelude::*;

use crate::varint::{
    lemma_pow128_mono, lemma_read_varint, lemma_read_varint_bound, lemma_varint_len, pow128, push_varint, read_varint,
    take_varint, varint,
};

verus! {

/// The largest datagram that the application protocol sends. Beyond it a
/// message would have to be framed over several datagrams.
pub const MAX_DATAGRAM_SIZE: usize = 32;

/// A command may only be sent by the client, of which there is one on the
/// bus. A request conveys the last event offset of the server that the
/// client has processed, starting at 0.
#[derive(Clone, Debug, PartialEq, Eq)]
pub struct CommandRequest<C> {
    /// The last offset of the server recorded by the client.
    pub last_event_offset: u32,
    /// The command to issue, or `None` to just get the next event.
    pub command: Option<C>,
}

/// An event whose durability is conveyed.
pub trait TemporalEvent {

}

/// The type that says that there are no ephemeral events.
pub type NoEE = ();

/// The kinds of event that a server can reply with.
#[derive(Clone, Debug, PartialEq, Eq)]
#[non_exhaustive]
pub enum EventOf<E, EE> {
    /// An event that the server logged, with its offset. When an offset
    /// wraps to zero it is the server's task to convey any events that the
    /// client may need.
    Logged(E, u32),
    /// An event that the server did not log, often an instantaneous one. It
    /// is benign if the client does not consume it.
    Ephemeral(EE),
    /// The offset that the client asked about is not in the server's log;
    /// these are the first and last offsets that the log holds.
    Recovery(u32, u32),
}

impl<E, EE> TemporalEvent for EventOf<E, EE> {

}

/// A server's reply to a [CommandRequest]: an event and its age.
#[derive(Clone, Debug, PartialEq, Eq)]
pub struct EventReply<E: TemporalEvent> {
    /// The age of the event relative to the server's current time, in ticks
    /// agreed between client and server, e.g. seconds.
    pub delta_ticks: u64,
    /// The event, or `None` when there is nothing more to tell.
    pub event: Option<E>,
}

/// Makes the reply for an event and its time, the age being what
/// `duration_since` gives for that time; with no event, the reply says that
/// there is none and has an age of 0.
pub fn event_reply<E: TemporalEvent, T: Copy, DS: FnOnce(T) -> u64>(
    maybe_event: Option<(E, T)>,
    duration_since: DS,
) -> (r: EventReply<E>)
    requires
        maybe_event matches Some((_, t)) ==> duration_since.requires((t,)),
    ensures
        match maybe_event {
            None => r.delta_ticks == 0 && r.event is None,
            Some((e, t)) => r.event == Some(e) && duration_since.ensures((t,), r.delta_ticks),
        },
{
    match maybe_event {
        Some((e, t)) => EventReply { delta_ticks: duration_since(t), event: Some(e) },
        None => EventReply { delta_ticks: 0, event: None },
    }
}

/// The bytes of a trailing field that may be left out: its own bytes, or
/// none at all when it is absent.
pub open spec fn trailing(field: Option<Seq<u8>>) -> Seq<u8> {
    match field {
        Some(b) => b,
        None => Seq::empty(),
    }
}

/// A byte slice that may be absent, seen as a sequence.
pub open spec fn opt_view(field: Option<&[u8]>) -> Option<Seq<u8>> {
    match field {
        Some(b) => Some(b@),
        None => None,
    }
}

/// A command request on the wire: the last event offset as a varint, then
/// the encoded command, if any.
pub open spec fn request_bytes(last_event_offset: u32, command: Option<Seq<u8>>) -> Seq<u8> {
    varint(last_event_offset as nat) + trailing(command)
}

/// An event reply on the wire: the age as a varint, then the encoded event,
/// if any.
pub open spec fn reply_bytes(delta_ticks: u64, event: Option<Seq<u8>>) -> Seq<u8> {
    varint(delta_ticks as nat) + trailing(event)
}

/// The `u32` varint at the start of `s`, of at most five bytes, and the
/// number of bytes that it takes; none when it is cut short or too large.
pub open spec fn read_u32(s: Seq<u8>) -> Option<(u32, nat)> {
    match read_varint(s, 5) {
        Some((v, c)) => if v <= u32::MAX {
            Some((v as u32, c))
        } else {
            None
        },
        None => None,
    }
}

/// The `u64` varint at the start of `s`, of at most ten bytes, and the
/// number of bytes that it takes; none when it is cut short or too large.
pub open spec fn read_u64(s: Seq<u8>) -> Option<(u64, nat)> {
    match read_varint(s, 10) {
        Some((v, c)) => if v <= u64::MAX {
            Some((v as u64, c))
        } else {
            None
        },
        None => None,
    }
}

fn push_trailing(out: &mut Vec<u8>, field: Option<&[u8]>)
    ensures
        final(out)@ == old(out)@ + trailing(opt_view(field)),
{
    if let Some(b) = field {
        let mut i: usize = 0;
        while i < b.len()
            invariant
                i <= b@.len(),
                out@ == old(out)@ + b@.take(i as int),
            decreases b.len() - i,
        {
            out.push(b[i]);
            assert(b@.take(i + 1) =~= b@.take(i as int).push(b@[i as int]));
            i = i + 1;
        }
        assert(b@.take(i as int) =~= b@);
    } else {
        assert(old(out)@ + trailing(opt_view(field)) =~= old(out)@);
    }
}

/// Encodes a command request whose command, if any, is already encoded.
pub fn encode_request(last_event_offset: u32, command: Option<&[u8]>) -> (r: Vec<u8>)
    ensures
        r@ == request_bytes(last_event_offset, opt_view(command)),
{
    let mut out: Vec<u8> = Vec::new();
    push_varint(&mut out, last_event_offset as u64);
    push_trailing(&mut out, command);
    out
}

/// Encodes an event reply whose event, if any, is already encoded.
pub fn encode_reply(delta_ticks: u64, event: Option<&[u8]>) -> (r: Vec<u8>)
    ensures
        r@ == reply_bytes(delta_ticks, opt_view(event)),
{
    let mut out: Vec<u8> = Vec::new();
    push_varint(&mut out, delta_ticks);
    push_trailing(&mut out, event);
    out
}

/// Reads the last event offset of an encoded command request, and returns
/// it with the bytes that follow, which are the command's. Those bytes are
/// empty when the request carries no command; a command that cannot be
/// decoded from them counts as absent.
pub fn decode_request(bytes: &[u8]) -> (r: Option<(u32, &[u8])>)
    ensures
        match read_u32(bytes@) {
            None => r is None,
            Some((v, c)) => r matches Some((o, rest)) && o == v && rest@ == bytes@.skip(c as int),
        },
{
    assert(bytes@.skip(0) =~= bytes@);
    match take_varint(bytes, 0, 5) {
        None => None,
        Some((v, c)) => {
            proof {
                lemma_read_varint_bound(bytes@, 5);
                lemma_pow128_mono(c as nat, 10);
                reveal_with_fuel(pow128, 11);
            }
            if v > u32::MAX as u128 {
                return None;
            }
            let rest = vstd::slice::slice_subrange(bytes, c, bytes.len());
            assert(rest@ =~= bytes@.skip(c as int));
            Some((v as u32, rest))
        },
    }
}

/// Reads the age of an encoded event reply, and returns it with the bytes
/// that follow, which are the event's. Those bytes are empty when the reply
/// carries no event; an event that cannot be decoded from them counts as
/// absent.
pub fn decode_reply(bytes: &[u8]) -> (r: Option<(u64, &[u8])>)
    ensures
        match read_u64(bytes@) {
            None => r is None,
            Some((v, c)) => r matches Some((d, rest)) && d == v && rest@ == bytes@.skip(c as int),
        },
{
    assert(bytes@.skip(0) =~= bytes@);
    match take_varint(bytes, 0, 10) {
        None => None,
        Some((v, c)) => {
            proof {
                lemma_read_varint_bound(bytes@, 10);
                lemma_pow128_mono(c as nat, 10);
                reveal_with_fuel(pow128, 11);
            }
            if v > u64::MAX as u128 {
                return None;
            }
            let rest = vstd::slice::slice_subrange(bytes, c, bytes.len());
            assert(rest@ =~= bytes@.skip(c as int));
            Some((v as u64, rest))
        },
    }
}

/// Decoding an encoded command request gives back its last event offset,
/// and the bytes after it are the command's, or none without a command.
pub proof fn lemma_request_round_trip(last_event_offset: u32, command: Option<Seq<u8>>)
    ensures
        ({
            let b = request_bytes(last_event_offset, command);
            let n = varint(last_event_offset as nat).len();
            &&& read_u32(b) == Some((last_event_offset, n))
            &&& b.skip(n as int) == trailing(command)
        }),
{
    reveal_with_fuel(pow128, 6);
    lemma_varint_len(last_event_offset as nat, 5);
    lemma_read_varint(last_event_offset as nat, trailing(command), 5);
    let n = varint(last_event_offset as nat).len();
    assert(request_bytes(last_event_offset, command).skip(n as int) =~= trailing(command));
}

/// Decoding an encoded event reply gives back its age, and the bytes after
/// it are the event's, or none without an event.
pub proof fn lemma_reply_round_trip(delta_ticks: u64, event: Option<Seq<u8>>)
    ensures
        ({
            let b = reply_bytes(delta_ticks, event);
            let n = varint(delta_ticks as nat).len();
            &&& read_u64(b) == Some((delta_ticks, n))
            &&& b.skip(n as int) == trailing(event)
        }),
{
    reveal_with_fuel(pow128, 11);
    lemma_varint_len(delta_ticks as nat, 10);
    lemma_read_varint(delta_ticks as nat, trailing(event), 10);
    let n = varint(delta_ticks as nat).len();
    assert(reply_bytes(delta_ticks, event).skip(n as int) =~= trailing(event));
}

} // verus!
