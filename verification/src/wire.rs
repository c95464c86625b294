//! The wire codec: fixed-size header framing and command encoding.
//!
//! A request frame is `[opcode][key_len][val_len][encoded key][encoded value]`,
//! with one byte per header field, so an encoded key or value is limited to
//! 255 bytes.  Keys and values travel bincode-encoded (standard
//! configuration), as the peers expect; the framing around those encodings
//! is verified here, the encodings themselves are named `str_enc`/`str_dec`
//! and trusted to bincode.

use vstd::prelude::*;
use vstd::slice::slice_subrange;

verus! {

/// The decoder refuses to read past this many bytes, and checks a
/// claimed length against it before allocating, so a tiny frame cannot
/// name a huge string and exhaust memory.  Far above any length the
/// one-byte wire fields can produce.
pub const WIRE_DECODE_LIMIT: usize = 65536;

/// The bytes that bincode's standard configuration encodes a string to.
pub uninterp spec fn str_enc(s: Seq<char>) -> Seq<u8>;

/// The string that bincode's standard configuration, limited to
/// `WIRE_DECODE_LIMIT` bytes, decodes a byte slice to, or `None` when it
/// rejects the bytes.
pub uninterp spec fn str_dec(b: Seq<u8>) -> Option<Seq<char>>;

/// Relies on bincode::encode_to_vec with bincode::config::standard(): the
/// encoding of a string is a function of its characters alone; encoding
/// into a vector cannot fail (its writer always succeeds); and
/// bincode::decode_from_slice decodes the encoding back to that string
/// when it fits the decoder's byte limit.
#[verifier::external_body]
pub(crate) fn encode_string(s: &String) -> (r: Option<Vec<u8>>)
    ensures
        r is Some,
        r matches Some(b) ==> b@ == str_enc(s@) && (b@.len() <= WIRE_DECODE_LIMIT ==> str_dec(
            b@,
        ) == Some(s@)),
{
    bincode::encode_to_vec(s, bincode::config::standard()).ok()
}

/// View of an optional decoded string.
pub open spec fn opt_str_view(v: Option<String>) -> Option<Seq<char>> {
    match v {
        Some(s) => Some(s@),
        None => None,
    }
}

/// Relies on bincode::decode_from_slice with bincode::config::standard()
/// limited to `WIRE_DECODE_LIMIT` bytes: what it yields is a function of
/// the bytes alone, and nothing decodes from an empty slice (even a
/// length prefix needs one byte).
#[verifier::external_body]
pub(crate) fn decode_string(b: &[u8]) -> (r: Option<String>)
    ensures
        opt_str_view(r) == str_dec(b@),
        b@.len() == 0 ==> r is None,
{
    let config = bincode::config::standard().with_limit::<65536>();
    match bincode::decode_from_slice::<String, _>(b, config) {
        Ok((s, _)) => Some(s),
        Err(_) => None,
    }
}

/// The fixed three-byte frame header.
pub struct Header {
    pub command: u8,
    pub keysize: u8,
    pub valuesize: u8,
}

impl Header {
    /// Build a header from its three fields.
    pub fn new(command: u8, keysize: u8, valuesize: u8) -> (r: Header)
        ensures
            r.command == command,
            r.keysize == keysize,
            r.valuesize == valuesize,
    {
        Header { command, keysize, valuesize }
    }
}

/// Read the three header fields; no validation beyond the byte count.
pub fn decode_header(buf: &[u8]) -> (r: Header)
    requires
        buf@.len() == 3,
    ensures
        r.command == buf@[0],
        r.keysize == buf@[1],
        r.valuesize == buf@[2],
{
    Header::new(buf[0], buf[1], buf[2])
}

/// A whole request frame over already-encoded field bytes.
pub open spec fn spec_frame(opcode: u8, kb: Seq<u8>, vb: Seq<u8>) -> Seq<u8> {
    seq![opcode, kb.len() as u8, vb.len() as u8] + kb + vb
}

/// Frame already-encoded key and value bytes behind a header.  `None`
/// exactly when a field is too long for the one-byte length field.
pub fn build_frame(opcode: u8, key_bytes: &Vec<u8>, value_bytes: &Vec<u8>) -> (r: Option<
    Vec<u8>,
>)
    ensures
        key_bytes@.len() <= 255 && value_bytes@.len() <= 255 ==> (r matches Some(f) && f@
            == spec_frame(opcode, key_bytes@, value_bytes@)),
        key_bytes@.len() > 255 || value_bytes@.len() > 255 ==> r is None,
{
    if key_bytes.len() > 255 || value_bytes.len() > 255 {
        return None;
    }
    let mut out: Vec<u8> = Vec::new();
    out.push(opcode);
    out.push(key_bytes.len() as u8);
    out.push(value_bytes.len() as u8);
    out.extend_from_slice(key_bytes.as_slice());
    out.extend_from_slice(value_bytes.as_slice());
    proof {
        assert(out@ =~= spec_frame(opcode, key_bytes@, value_bytes@));
    }
    Some(out)
}

/// Encode one request frame: header, encoded key, encoded value; an absent
/// value encodes as zero length.  `None` exactly when a field's encoding
/// exceeds 255 bytes.  A frame this produces decodes back to its strings.
pub fn encode_request(opcode: u8, key: &String, value: Option<&String>) -> (r: Option<Vec<u8>>)
    ensures
        r matches Some(f) ==> str_enc(key@).len() <= 255 && match value {
            Some(v) => str_enc(v@).len() <= 255 && f@ == spec_frame(
                opcode,
                str_enc(key@),
                str_enc(v@),
            ),
            None => f@ == spec_frame(opcode, str_enc(key@), Seq::<u8>::empty()),
        },
        str_enc(key@).len() <= 255 && (match value {
            Some(v) => str_enc(v@).len() <= 255,
            None => true,
        }) ==> r is Some,
        r matches Some(f) ==> str_dec(str_enc(key@)) == Some(key@) && (match value {
            Some(v) => str_dec(str_enc(v@)) == Some(v@),
            None => true,
        }),
{
    let kb = match encode_string(key) {
        Some(b) => b,
        None => {
            return None;
        },
    };
    let vb = match value {
        Some(v) => match encode_string(v) {
            Some(b) => b,
            None => {
                return None;
            },
        },
        None => Vec::new(),
    };
    build_frame(opcode, &kb, &vb)
}

/// Split a frame payload at the header's lengths and decode the two
/// fields: the key must decode; a value that does not decode is absent.
/// `None` exactly when the payload is too short or the key is rejected.
pub fn decode_payload(bytes: &[u8], keysize: u8, valuesize: u8) -> (r: Option<
    (String, Option<String>),
>)
    ensures
        bytes@.len() < keysize + valuesize ==> r is None,
        bytes@.len() >= keysize + valuesize ==> {
            let kb = bytes@.subrange(0, keysize as int);
            let vb = bytes@.subrange(keysize as int, keysize + valuesize);
            match str_dec(kb) {
                None => r is None,
                Some(k) => r matches Some((rk, rv)) && rk@ == k && opt_str_view(rv) == str_dec(
                    vb,
                ),
            }
        },
        bytes@.len() >= keysize + valuesize && valuesize == 0 ==> (r matches Some((rk, rv))
            ==> rv is None),
{
    let ks = keysize as usize;
    let vs = valuesize as usize;
    if bytes.len() < ks + vs {
        return None;
    }
    let kb = slice_subrange(bytes, 0, ks);
    let vb = slice_subrange(bytes, ks, ks + vs);
    let key = match decode_string(kb) {
        Some(k) => k,
        None => {
            return None;
        },
    };
    let value = decode_string(vb);
    Some((key, value))
}

/// Frame a get response: one length byte, then the encoded value bytes.
/// `None` exactly when the encoding is too long for the length byte.
pub fn encode_response(value_bytes: &Vec<u8>) -> (r: Option<Vec<u8>>)
    ensures
        value_bytes@.len() <= 255 ==> (r matches Some(f) && f@ == seq![
            value_bytes@.len() as u8,
        ] + value_bytes@),
        value_bytes@.len() > 255 ==> r is None,
{
    if value_bytes.len() > 255 {
        return None;
    }
    let mut out: Vec<u8> = Vec::new();
    out.push(value_bytes.len() as u8);
    out.extend_from_slice(value_bytes.as_slice());
    proof {
        assert(out@ =~= seq![value_bytes@.len() as u8] + value_bytes@);
    }
    Some(out)
}

} // verus!
