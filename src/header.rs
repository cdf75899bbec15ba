//! The four-byte data frame header and the nonce derived from it.

use vstd::prelude::*;

verus! {

/// The size of a data frame header including the byte length of the payload.
/// The byte length is not to exceed 127.
pub const HEADER_SIZE: usize = 6;

/// The size of the MIC code at the tail of the payload.
pub const MIC_SIZE: usize = 4;

/// The size of the nonce used for encryption.
pub const NONCE_SIZE: usize = 7;

/// Indicates where data is sourced from i.e. its direction.
#[derive(Debug, Clone, Copy, PartialEq, Eq, Structural)]
pub enum DataSource {
    Client,
    Server,
}

/// There was an error parsing the data frame's header, possibly due to an
/// incompatible data frame version.
#[derive(Debug, Clone, Copy, PartialEq, Eq, Structural)]
pub struct HeaderParseError {}

/// The header fields of the data frame.
#[derive(Debug, Clone, Copy, PartialEq, Eq, Structural)]
pub struct Header {
    /// The protocol version. Should be 0.
    pub version: u8,
    /// The direction of data flow.
    pub source: DataSource,
    /// The address of the server 0..=255.
    pub server_address: u8,
    /// The port of the server 0..=7.
    pub server_port: u8,
    /// A frame counter that varies the nonce. Incremented by the message
    /// source and expected to wrap to zero after 0xFFFF.
    pub frame_counter: u16,
}

/// The bit that encodes the source: 0 for the client, 1 for a server.
pub open spec fn source_bit(s: DataSource) -> u32 {
    match s {
        DataSource::Client => 0,
        DataSource::Server => 1,
    }
}

/// The header as a 32 bit word: version in bits 0..=1 (always 0), source in
/// bit 2, address in bits 3..=10, port in bits 11..=13, reserved bits
/// 14..=15 (always 0) and the frame counter in bits 16..=31.
pub open spec fn packed_word(h: Header) -> u32 {
    (source_bit(h.source) << 2u32) | ((h.server_address as u32) << 3u32) | (((h.server_port as u32)
        & 7u32) << 11u32) | ((h.frame_counter as u32) << 16u32)
}

/// A word as its four bytes, most significant first.
pub open spec fn word_bytes(w: u32) -> (u8, u8, u8, u8) {
    ((w >> 24u32) as u8, (w >> 16u32) as u8, (w >> 8u32) as u8, w as u8)
}

/// Four bytes, most significant first, as a word.
pub open spec fn bytes_word(b: (u8, u8, u8, u8)) -> u32 {
    ((b.0 as u32) << 24u32) | ((b.1 as u32) << 16u32) | ((b.2 as u32) << 8u32) | (b.3 as u32)
}

/// The packed header bytes as they stand on the wire.
pub open spec fn packed(h: Header) -> (u8, u8, u8, u8) {
    word_bytes(packed_word(h))
}

/// What parsing a packed header yields: an error when the version bits are
/// not zero, and otherwise the fields read from their bit positions.
pub open spec fn parsed(b: (u8, u8, u8, u8)) -> Result<Header, HeaderParseError> {
    let w = bytes_word(b);
    if w & 3u32 != 0 {
        Err(HeaderParseError {})
    } else {
        Ok(
            Header {
                version: 0,
                source: if (w >> 2u32) & 1u32 == 1 {
                    DataSource::Server
                } else {
                    DataSource::Client
                },
                server_address: (w >> 3u32) as u8,
                server_port: ((w >> 11u32) & 7u32) as u8,
                frame_counter: (w >> 16u32) as u16,
            },
        )
    }
}

/// The nonce for a datagram: 0x01, the four packed header bytes, the payload
/// length as a byte, and 0x00.
pub open spec fn nonce_of(b: (u8, u8, u8, u8), payload_len: nat) -> Seq<u8> {
    seq![1u8, b.0, b.1, b.2, b.3, payload_len as u8, 0u8]
}

impl Header {
    /// Returns the byte representation of the header.
    pub fn to_packed(&self) -> (r: (u8, u8, u8, u8))
        ensures
            r == packed(*self),
    {
        let source: u32 = if self.source == DataSource::Server {
            1
        } else {
            0
        };
        let w: u32 = (source << 2u32) | ((self.server_address as u32) << 3u32) | (((
        self.server_port as u32) & 7u32) << 11u32) | ((self.frame_counter as u32) << 16u32);
        ((w >> 24u32) as u8, (w >> 16u32) as u8, (w >> 8u32) as u8, w as u8)
    }

    /// Parses the packed header bytes. An incompatible version yields an
    /// error.
    pub fn parse(header: (u8, u8, u8, u8)) -> (r: Result<Header, HeaderParseError>)
        ensures
            r == parsed(header),
            r is Err <==> bytes_word(header) & 3u32 != 0,
    {
        let w: u32 = ((header.0 as u32) << 24u32) | ((header.1 as u32) << 16u32) | ((
        header.2 as u32) << 8u32) | (header.3 as u32);
        if w & 3u32 != 0 {
            return Err(HeaderParseError {  });
        }
        let source = if (w >> 2u32) & 1u32 == 1 {
            DataSource::Server
        } else {
            DataSource::Client
        };
        Ok(
            Header {
                version: 0,
                source,
                server_address: (w >> 3u32) as u8,
                server_port: ((w >> 11u32) & 7u32) as u8,
                frame_counter: (w >> 16u32) as u16,
            },
        )
    }
}

/// Constructs the 7 byte nonce from the packed header and the length of the
/// payload. As the header holds a frame counter, the nonce varies from frame
/// to frame:
/// 0..=0 always 0x01, 1..=4 packed header, 5..=5 payload length, 6..=6
/// always 0x00.
pub fn new_nonce(header: (u8, u8, u8, u8), payload_len: usize) -> (r: [u8; 7])
    ensures
        r@ == nonce_of(header, payload_len as nat),
{
    let r: [u8; 7] = [0x01u8, header.0, header.1, header.2, header.3, payload_len as u8, 0x00u8];
    assert(r@ =~= nonce_of(header, payload_len as nat));
    r
}

/// Packing a header and parsing the bytes gives the header back, for every
/// header with version 0 and a port in 0..=7.
pub proof fn lemma_parse_packed(h: Header)
    requires
        h.version == 0,
        h.server_port <= 7,
    ensures
        parsed(packed(h)) == Ok::<Header, HeaderParseError>(h),
{
    let s = source_bit(h.source);
    let a = h.server_address;
    let p = h.server_port;
    let f = h.frame_counter;
    let w = packed_word(h);
    assert(w == (s << 2u32) | ((a as u32) << 3u32) | (((p as u32) & 7u32) << 11u32) | ((
    f as u32) << 16u32));
    let (b0, b1, b2, b3) = word_bytes(w);
    assert(((b0 as u32) << 24u32) | ((b1 as u32) << 16u32) | ((b2 as u32) << 8u32) | (b3 as u32)
        == w) by (bit_vector)
        requires
            b0 == (w >> 24u32) as u8,
            b1 == (w >> 16u32) as u8,
            b2 == (w >> 8u32) as u8,
            b3 == w as u8,
    ;
    assert(w & 3u32 == 0 && (w >> 2u32) & 1u32 == s && (w >> 3u32) as u8 == a && ((w >> 11u32)
        & 7u32) as u8 == p && (w >> 16u32) as u16 == f) by (bit_vector)
        requires
            s <= 1,
            p <= 7,
            w == (s << 2u32) | ((a as u32) << 3u32) | (((p as u32) & 7u32) << 11u32) | ((
            f as u32) << 16u32),
    ;
}

/// Two headers that differ only in their frame counter give two nonces that
/// differ, whatever the payload length.
pub proof fn lemma_nonce_unique(h1: Header, h2: Header, len: nat)
    requires
        h1.source == h2.source,
        h1.server_address == h2.server_address,
        h1.server_port == h2.server_port,
        h1.frame_counter != h2.frame_counter,
    ensures
        nonce_of(packed(h1), len) != nonce_of(packed(h2), len),
{
    let s = source_bit(h1.source);
    let a = h1.server_address as u32;
    let p = h1.server_port as u32;
    let f1 = h1.frame_counter;
    let f2 = h2.frame_counter;
    let w1 = packed_word(h1);
    let w2 = packed_word(h2);
    assert((w1 >> 24u32) as u8 != (w2 >> 24u32) as u8 || (w1 >> 16u32) as u8 != (w2
        >> 16u32) as u8) by (bit_vector)
        requires
            s <= 1,
            a <= 255,
            f1 != f2,
            w1 == (s << 2u32) | (a << 3u32) | ((p & 7u32) << 11u32) | ((f1 as u32) << 16u32),
            w2 == (s << 2u32) | (a << 3u32) | ((p & 7u32) << 11u32) | ((f2 as u32) << 16u32),
    ;
    let n1 = nonce_of(packed(h1), len);
    let n2 = nonce_of(packed(h2), len);
    assert(n1[1] != n2[1] || n1[2] != n2[2]);
}

} // verus!
