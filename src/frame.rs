//! Datagram framing: the packed header, a length-prefixed ciphertext with
//! its tag, and the encryption that protects the payload.

use vstd::prelude::*;

use crate::cipher::{ccm_decrypt, ccm_encrypt, ccm_open, ccm_seal};
use crate::varint::{
    lemma_pow128_mono, lemma_read_varint, lemma_read_varint_bound, lemma_varint_len, pow128,
    put_varint, read_varint, take_varint, varint,
};
use crate::header::{lemma_parse_packed, nonce_of, new_nonce, packed, parsed, Header, MIC_SIZE};

verus! {

/// The largest number of bytes that a length prefix may take.
pub const MAX_VARINT_BYTES: usize = 9;

/// The header bytes as the associated data of the encryption.
pub open spec fn aad_of(b: (u8, u8, u8, u8)) -> Seq<u8> {
    seq![b.0, b.1, b.2, b.3]
}

/// A data frame on the wire: the four packed header bytes, the length of the
/// sealed payload as a varint, and the sealed payload.
pub open spec fn frame_bytes(b: (u8, u8, u8, u8), sealed: Seq<u8>) -> Seq<u8> {
    aad_of(b) + varint(sealed.len()) + sealed
}

/// The frame that starts a datagram, if any: its header bytes and its
/// sealed payload.
pub open spec fn frame_of(d: Seq<u8>) -> Option<((u8, u8, u8, u8), Seq<u8>)> {
    if d.len() < 4 {
        None
    } else {
        match read_varint(d.skip(4), MAX_VARINT_BYTES as nat) {
            None => None,
            Some((n, c)) => if 4 + c + n <= d.len() {
                Some(((d[0], d[1], d[2], d[3]), d.subrange(4 + c as int, 4 + c + n as int)))
            } else {
                None
            },
        }
    }
}

/// The payload length that the nonce of a sealed payload records: its length
/// less the tag, or zero when it is shorter than the tag.
pub open spec fn plain_len(sealed_len: nat) -> nat {
    if sealed_len >= 4 {
        (sealed_len - 4) as nat
    } else {
        0
    }
}

/// A data frame: the packed header and the payload sealed with its tag.
#[derive(Debug, PartialEq, Eq)]
pub struct DataFrame<'a> {
    /// Bits as follows: 00..=01 protocol version 00, 02..=02 source
    /// (0 = client, 1 = server), 03..=10 server address, 11..=13 server
    /// port, 14..=15 reserved (zero), 16..=31 frame counter.
    pub header: (u8, u8, u8, u8),
    /// The payload encrypted with AES-128-CCM under a nonce from
    /// [new_nonce], followed by its 4 byte tag.
    pub encrypted_payload: &'a [u8],
}

/// Problems in decoding a datagram, one for each step.
#[derive(Debug, Clone, Copy, PartialEq, Eq, Structural)]
pub enum FromDatagramError {
    CannotParseDataFrame,
    CannotParseHeader,
    FilterDoesNotMatch,
    CannotDecrypt,
}

/// What decoding a datagram yields under a key, where `accepted` is the
/// filter's verdict on the header: the frame is read, then the header
/// parsed, then the filter consulted, then the payload decrypted.
pub open spec fn datagram_outcome(d: Seq<u8>, key: Seq<u8>, accepted: bool) -> Result<
    (Header, Seq<u8>),
    FromDatagramError,
> {
    match frame_of(d) {
        None => Err(FromDatagramError::CannotParseDataFrame),
        Some((b, sealed)) => match parsed(b) {
            Err(_) => Err(FromDatagramError::CannotParseHeader),
            Ok(h) => if !accepted {
                Err(FromDatagramError::FilterDoesNotMatch)
            } else {
                match ccm_open(key, nonce_of(b, plain_len(sealed.len())), aad_of(b), sealed) {
                    Some(p) => Ok((h, p)),
                    None => Err(FromDatagramError::CannotDecrypt),
                }
            },
        },
    }
}

/// The header that a datagram's frame carries, if it has one that parses.
pub open spec fn datagram_header(d: Seq<u8>) -> Option<Header> {
    match frame_of(d) {
        Some((b, _)) => match parsed(b) {
            Ok(h) => Some(h),
            Err(_) => None,
        },
        None => None,
    }
}

/// The sealed payload that a datagram carries for a header, a payload and a
/// key.
pub open spec fn sealed_payload(key: Seq<u8>, h: Header, payload: Seq<u8>) -> Seq<u8> {
    ccm_seal(key, nonce_of(packed(h), payload.len()), aad_of(packed(h)), payload)
}

/// A decoded result with its payload seen as a sequence.
pub open spec fn result_view(r: Result<(Header, Vec<u8>), FromDatagramError>) -> Result<
    (Header, Seq<u8>),
    FromDatagramError,
> {
    match r {
        Ok((h, p)) => Ok((h, p@)),
        Err(e) => Err(e),
    }
}

/// The number of bytes of a frame whose sealed payload has `sealed_len`
/// bytes.
pub open spec fn frame_len(sealed_len: nat) -> nat {
    4 + varint(sealed_len).len() + sealed_len
}

impl<'a> DataFrame<'a> {
    /// Reads the frame at the start of a datagram. Bytes after the frame are
    /// ignored.
    pub fn parse(datagram: &'a [u8]) -> (r: Option<DataFrame<'a>>)
        ensures
            match frame_of(datagram@) {
                None => r is None,
                Some((b, sealed)) => r matches Some(f) && f.header == b && f.encrypted_payload@
                    == sealed,
            },
    {
        if datagram.len() < 4 {
            return None;
        }
        let header = (datagram[0], datagram[1], datagram[2], datagram[3]);
        match take_varint(datagram, 4, MAX_VARINT_BYTES) {
            None => None,
            Some((n, c)) => {
                proof {
                    lemma_read_varint_bound(datagram@.skip(4), MAX_VARINT_BYTES as nat);
                    lemma_pow128_mono(c as nat, MAX_VARINT_BYTES as nat);
                    reveal_with_fuel(pow128, 10);
                }
                let start = 4 + c;
                if n > (datagram.len() - start) as u128 {
                    return None;
                }
                let end = start + n as usize;
                let encrypted_payload = vstd::slice::slice_subrange(datagram, start, end);
                Some(DataFrame { header, encrypted_payload })
            },
        }
    }
}

/// Encrypts a payload under a key and writes the header and the sealed
/// payload as a frame at the start of the datagram; the bytes after the
/// frame are left as they were.
pub fn to_datagram<const N: usize>(
    key: &[u8; 16],
    header: &Header,
    payload_buf: &[u8],
    datagram_buf: &mut [u8; N],
)
    requires
        frame_len((payload_buf@.len() + MIC_SIZE) as nat) <= N,
    ensures
        final(datagram_buf)@ == frame_bytes(
            packed(*header),
            sealed_payload(key@, *header, payload_buf@),
        ) + old(datagram_buf)@.skip(frame_len((payload_buf@.len() + MIC_SIZE) as nat) as int),
        header.version == 0 && header.server_port <= 7 && payload_buf@.len() + MIC_SIZE
            <= isize::MAX ==> datagram_outcome(final(datagram_buf)@, key@, true) == Ok::<
            (Header, Seq<u8>),
            FromDatagramError,
        >((*header, payload_buf@)),
{
    let b = header.to_packed();
    let nonce = new_nonce(b, payload_buf.len());
    let aad: [u8; 4] = [b.0, b.1, b.2, b.3];
    assert(aad@ =~= aad_of(b));
    let sealed = match ccm_encrypt(key, &nonce, &aad, payload_buf) {
        Some(c) => c,
        None => return ,
    };
    let ghost old_buf = datagram_buf@;
    let ghost len = sealed@.len();
    datagram_buf[0] = b.0;
    datagram_buf[1] = b.1;
    datagram_buf[2] = b.2;
    datagram_buf[3] = b.3;
    let pos = put_varint(datagram_buf, 4, sealed.len());
    let mut j: usize = 0;
    while j < sealed.len()
        invariant
            pos == 4 + varint(len).len(),
            pos + len <= N,
            len == sealed@.len(),
            j <= len,
            datagram_buf@.len() == N,
            old_buf.len() == N,
            datagram_buf@.subrange(0, 4) == aad_of(b),
            datagram_buf@.subrange(4, pos as int) == varint(len),
            datagram_buf@.subrange(pos as int, pos + j) == sealed@.subrange(0, j as int),
            forall|i: int| pos + j <= i < N ==> datagram_buf@[i] == old_buf[i],
        decreases sealed.len() - j,
    {
        let ghost before = datagram_buf@;
        datagram_buf[pos + j] = sealed[j];
        assert(datagram_buf@.subrange(pos as int, pos + j + 1) =~= before.subrange(
            pos as int,
            pos + j,
        ).push(sealed@[j as int]));
        assert(datagram_buf@.subrange(0, 4) =~= before.subrange(0, 4));
        assert(datagram_buf@.subrange(4, pos as int) =~= before.subrange(4, pos as int));
        j = j + 1;
    }
    let ghost d = datagram_buf@;
    let ghost fl = frame_len(len);
    assert(sealed@.subrange(0, len as int) =~= sealed@);
    assert(d.subrange(pos as int, pos + len) =~= sealed@);
    assert(d.skip(fl as int) =~= old_buf.skip(fl as int));
    assert(d =~= d.subrange(0, 4) + d.subrange(4, pos as int) + d.subrange(pos as int, fl as int)
        + d.skip(fl as int));
    assert(d =~= aad_of(b) + varint(len) + sealed@ + d.skip(fl as int));
    proof {
        if header.version == 0 && header.server_port <= 7 && payload_buf@.len() + MIC_SIZE
            <= isize::MAX {
            reveal_with_fuel(pow128, 10);
            lemma_varint_len(len, MAX_VARINT_BYTES as nat);
            lemma_read_varint(len, sealed@ + d.skip(fl as int), MAX_VARINT_BYTES as nat);
            assert(d.skip(4) =~= varint(len) + (sealed@ + d.skip(fl as int)));
            lemma_parse_packed(*header);
        }
    }
}

/// Decodes a datagram: reads its frame, parses the header, asks the filter
/// whether the header is wanted, and decrypts the payload under the key.
/// Each step that fails gives its own error.
pub fn from_datagram<const N: usize, F: FnOnce(&Header) -> bool>(
    datagram_buf: &[u8; N],
    filter: F,
    key: &[u8; 16],
) -> (r: Result<(Header, Vec<u8>), FromDatagramError>)
    requires
        forall|h: &Header| filter.requires((h,)),
    ensures
        datagram_header(datagram_buf@) is None ==> result_view(r) == datagram_outcome(
            datagram_buf@,
            key@,
            true,
        ),
        datagram_header(datagram_buf@) matches Some(h) ==> exists|accepted: bool|
            #[trigger] filter.ensures((&h,), accepted) && result_view(r) == datagram_outcome(
                datagram_buf@,
                key@,
                accepted,
            ),
{
    let frame = match DataFrame::parse(datagram_buf.as_slice()) {
        Some(f) => f,
        None => return Err(FromDatagramError::CannotParseDataFrame),
    };
    let header = match Header::parse(frame.header) {
        Ok(h) => h,
        Err(_) => return Err(FromDatagramError::CannotParseHeader),
    };
    let accepted = filter(&header);
    if !accepted {
        return Err(FromDatagramError::FilterDoesNotMatch);
    }
    let sealed = frame.encrypted_payload;
    let plain_len: usize = if sealed.len() >= MIC_SIZE {
        sealed.len() - MIC_SIZE
    } else {
        0
    };
    let b = frame.header;
    let nonce = new_nonce(b, plain_len);
    let aad: [u8; 4] = [b.0, b.1, b.2, b.3];
    assert(aad@ =~= aad_of(b));
    match ccm_decrypt(key, &nonce, &aad, sealed) {
        Some(p) => Ok((header, p)),
        None => Err(FromDatagramError::CannotDecrypt),
    }
}

} // verus!
