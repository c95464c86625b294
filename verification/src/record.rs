//! Byte-level codec for the records of the append-only command log.
//!
//! A record is self-delimited: a one-byte tag, 8-byte little-endian lengths
//! of the UTF-8 encodings of the fields, then the field bytes themselves.
//! A `SetCmd` record is `[TAG_SET][key_len][value_len][key][value]`;
//! a `RemoveCmd` record is `[TAG_REMOVE][key_len][key]`.

use vstd::prelude::*;
use vstd::bytes::{
    lemma_auto_spec_u64_to_from_le_bytes, spec_u64_from_le_bytes, spec_u64_to_le_bytes,
    u64_from_le_bytes, u64_to_le_bytes,
};
use vstd::slice::slice_subrange;
use vstd::string::StrSliceExecFns;
use vstd::utf8::{
    decode_utf8, decode_utf8_encode_utf8, encode_utf8, encode_utf8_decode_utf8,
    encode_utf8_valid_utf8, valid_utf8,
};

verus! {

pub const TAG_SET: u8 = 0;

pub const TAG_REMOVE: u8 = 1;

/// Mathematical model of one log record: a mutation of the store.
pub enum SpecCommand {
    SetCmd { key: Seq<char>, value: Seq<char> },
    RemoveCmd { key: Seq<char> },
}

/// One mutation of the store, as read from or written to the command log.
pub enum Command {
    SetCmd { key: String, value: String },
    RemoveCmd { key: String },
}

impl View for Command {
    type V = SpecCommand;

    open spec fn view(&self) -> SpecCommand {
        match self {
            Command::SetCmd { key, value } => SpecCommand::SetCmd {
                key: key@,
                value: value@,
            },
            Command::RemoveCmd { key } => SpecCommand::RemoveCmd { key: key@ },
        }
    }
}

/// The length fields of a record are 8 bytes, so a command can be written
/// down only when the UTF-8 encodings of its fields fit in a `u64`.
pub open spec fn cmd_encodable(cmd: SpecCommand) -> bool {
    match cmd {
        SpecCommand::SetCmd { key, value } => encode_utf8(key).len() <= u64::MAX
            && encode_utf8(value).len() <= u64::MAX,
        SpecCommand::RemoveCmd { key } => encode_utf8(key).len() <= u64::MAX,
    }
}

pub open spec fn spec_set_record(key: Seq<char>, value: Seq<char>) -> Seq<u8> {
    seq![TAG_SET] + spec_u64_to_le_bytes(encode_utf8(key).len() as u64) + spec_u64_to_le_bytes(
        encode_utf8(value).len() as u64,
    ) + encode_utf8(key) + encode_utf8(value)
}

pub open spec fn spec_remove_record(key: Seq<char>) -> Seq<u8> {
    seq![TAG_REMOVE] + spec_u64_to_le_bytes(encode_utf8(key).len() as u64) + encode_utf8(key)
}

/// The bytes that stand for `cmd` in the log.
pub open spec fn spec_record(cmd: SpecCommand) -> Seq<u8> {
    match cmd {
        SpecCommand::SetCmd { key, value } => spec_set_record(key, value),
        SpecCommand::RemoveCmd { key } => spec_remove_record(key),
    }
}

/// Parse one record starting at byte `pos` of `log`.  `None` means the bytes
/// at `pos` are not a well-formed record (a corrupt log).  On success the
/// second component is the position just past the record.
pub open spec fn spec_parse_record(log: Seq<u8>, pos: int) -> Option<(SpecCommand, int)> {
    if pos < 0 || log.len() < pos + 1 {
        None
    } else if log[pos] == TAG_SET {
        if log.len() < pos + 17 {
            None
        } else {
            let klen = spec_u64_from_le_bytes(log.subrange(pos + 1, pos + 9)) as int;
            let vlen = spec_u64_from_le_bytes(log.subrange(pos + 9, pos + 17)) as int;
            if log.len() < pos + 17 + klen + vlen {
                None
            } else {
                let kb = log.subrange(pos + 17, pos + 17 + klen);
                let vb = log.subrange(pos + 17 + klen, pos + 17 + klen + vlen);
                if valid_utf8(kb) && valid_utf8(vb) {
                    Some(
                        (
                            SpecCommand::SetCmd { key: decode_utf8(kb), value: decode_utf8(vb) },
                            pos + 17 + klen + vlen,
                        ),
                    )
                } else {
                    None
                }
            }
        }
    } else if log[pos] == TAG_REMOVE {
        if log.len() < pos + 9 {
            None
        } else {
            let klen = spec_u64_from_le_bytes(log.subrange(pos + 1, pos + 9)) as int;
            if log.len() < pos + 9 + klen {
                None
            } else {
                let kb = log.subrange(pos + 9, pos + 9 + klen);
                if valid_utf8(kb) {
                    Some((SpecCommand::RemoveCmd { key: decode_utf8(kb) }, pos + 9 + klen))
                } else {
                    None
                }
            }
        }
    } else {
        None
    }
}

/// A parsed record covers at least its tag byte and ends inside the log.
pub proof fn lemma_parse_bounds(log: Seq<u8>, pos: int)
    requires
        spec_parse_record(log, pos) is Some,
    ensures
        spec_parse_record(log, pos) matches Some((cmd, end)) ==> pos + 1 <= end <= log.len()
            && 0 <= pos,
{
}

/// Appending bytes to the log does not change how an already-parsable
/// record parses.
pub proof fn lemma_parse_stable(log: Seq<u8>, ext: Seq<u8>, pos: int)
    requires
        spec_parse_record(log, pos) is Some,
    ensures
        spec_parse_record(log + ext, pos) == spec_parse_record(log, pos),
{
    let w = log + ext;
    assert forall|a: int, b: int| 0 <= a && a <= b && b <= log.len() implies w.subrange(a, b)
        =~= log.subrange(a, b) by {
    }
}

/// Parsing at the start of an encoded record recovers exactly that command.
pub proof fn lemma_parse_of_record(log: Seq<u8>, pos: int, cmd: SpecCommand)
    requires
        0 <= pos,
        cmd_encodable(cmd),
        pos + spec_record(cmd).len() <= log.len(),
        log.subrange(pos, pos + spec_record(cmd).len() as int) == spec_record(cmd),
    ensures
        spec_parse_record(log, pos) == Some((cmd, pos + spec_record(cmd).len() as int)),
{
    lemma_auto_spec_u64_to_from_le_bytes();
    broadcast use encode_utf8_valid_utf8, encode_utf8_decode_utf8;

    let r = spec_record(cmd);
    let n = r.len() as int;
    assert forall|a: int, b: int| 0 <= a && a <= b && b <= n implies log.subrange(
        pos + a,
        pos + b,
    ) =~= r.subrange(a, b) by {
        assert forall|i: int| 0 <= i < b - a implies log.subrange(pos + a, pos + b)[i]
            == r.subrange(a, b)[i] by {
            assert(r[a + i] == log.subrange(pos, pos + n)[a + i]);
        }
    }
    match cmd {
        SpecCommand::SetCmd { key, value } => {
            let k = encode_utf8(key);
            let v = encode_utf8(value);
            let kl = k.len() as int;
            let vl = v.len() as int;
            assert(n == 17 + kl + vl);
            assert(r.subrange(0, 1) =~= seq![TAG_SET]);
            assert(log[pos] == r[0]);
            assert(r.subrange(1, 9) =~= spec_u64_to_le_bytes(k.len() as u64));
            assert(r.subrange(9, 17) =~= spec_u64_to_le_bytes(v.len() as u64));
            assert(r.subrange(17, 17 + kl) =~= k);
            assert(r.subrange(17 + kl, 17 + kl + vl) =~= v);
            assert(spec_u64_from_le_bytes(log.subrange(pos + 1, pos + 9)) as int == kl);
            assert(spec_u64_from_le_bytes(log.subrange(pos + 9, pos + 17)) as int == vl);
            assert(log.subrange(pos + 17, pos + 17 + kl) == k);
            assert(log.subrange(pos + 17 + kl, pos + 17 + kl + vl) == v);
            assert(decode_utf8(k) == key);
            assert(decode_utf8(v) == value);
        },
        SpecCommand::RemoveCmd { key } => {
            let k = encode_utf8(key);
            let kl = k.len() as int;
            assert(n == 9 + kl);
            assert(r.subrange(0, 1) =~= seq![TAG_REMOVE]);
            assert(log[pos] == r[0]);
            assert(r.subrange(1, 9) =~= spec_u64_to_le_bytes(k.len() as u64));
            assert(r.subrange(9, 9 + kl) =~= k);
            assert(spec_u64_from_le_bytes(log.subrange(pos + 1, pos + 9)) as int == kl);
            assert(log.subrange(pos + 9, pos + 9 + kl) == k);
            assert(decode_utf8(k) == key);
        },
    }
}

/// A record has exactly one byte form: the bytes a successful parse covered
/// are the encoding of the command it returned.
pub proof fn lemma_record_canonical(log: Seq<u8>, pos: int)
    requires
        spec_parse_record(log, pos) is Some,
    ensures
        spec_parse_record(log, pos) matches Some((cmd, end)) ==> log.subrange(pos, end)
            == spec_record(cmd) && cmd_encodable(cmd) && end - pos == spec_record(cmd).len(),
{
    lemma_auto_spec_u64_to_from_le_bytes();
    broadcast use decode_utf8_encode_utf8;

    let (cmd, end) = spec_parse_record(log, pos)->Some_0;
    if log[pos] == TAG_SET {
        let klen = spec_u64_from_le_bytes(log.subrange(pos + 1, pos + 9)) as int;
        let vlen = spec_u64_from_le_bytes(log.subrange(pos + 9, pos + 17)) as int;
        let kb = log.subrange(pos + 17, pos + 17 + klen);
        let vb = log.subrange(pos + 17 + klen, pos + 17 + klen + vlen);
        assert(encode_utf8(decode_utf8(kb)) == kb);
        assert(encode_utf8(decode_utf8(vb)) == vb);
        assert(spec_u64_to_le_bytes(kb.len() as u64) =~= log.subrange(pos + 1, pos + 9));
        assert(spec_u64_to_le_bytes(vb.len() as u64) =~= log.subrange(pos + 9, pos + 17));
        assert(log.subrange(pos, end) =~= spec_record(cmd));
    } else {
        let klen = spec_u64_from_le_bytes(log.subrange(pos + 1, pos + 9)) as int;
        let kb = log.subrange(pos + 9, pos + 9 + klen);
        assert(encode_utf8(decode_utf8(kb)) == kb);
        assert(spec_u64_to_le_bytes(kb.len() as u64) =~= log.subrange(pos + 1, pos + 9));
        assert(log.subrange(pos, end) =~= spec_record(cmd));
    }
}

/// Relies on core::str::from_utf8: it succeeds exactly on valid UTF-8 input,
/// and the returned string slice has exactly the input bytes as its UTF-8
/// encoding.
#[verifier::external_body]
fn bytes_to_str<'a>(v: &'a [u8]) -> (r: Option<&'a str>)
    ensures
        r matches Some(s) ==> encode_utf8(s@) == v@,
        valid_utf8(v@) ==> r is Some,
{
    core::str::from_utf8(v).ok()
}

/// Append the encoding of `SetCmd { key, value }` to `out`.
pub fn push_set_record(out: &mut Vec<u8>, key: &String, value: &String)
    ensures
        final(out)@ == old(out)@ + spec_set_record(key@, value@),
        cmd_encodable(SpecCommand::SetCmd { key: key@, value: value@ }),
{
    proof {
        lemma_auto_spec_u64_to_from_le_bytes();
    }
    let mut kb: Vec<u8> = key.as_str().as_bytes_vec();
    let mut vb: Vec<u8> = value.as_str().as_bytes_vec();
    out.push(TAG_SET);
    let mut klen = u64_to_le_bytes(kb.len() as u64);
    out.append(&mut klen);
    let mut vlen = u64_to_le_bytes(vb.len() as u64);
    out.append(&mut vlen);
    out.append(&mut kb);
    out.append(&mut vb);
    proof {
        assert(out@ =~= old(out)@ + spec_set_record(key@, value@));
    }
}

/// Append the encoding of `RemoveCmd { key }` to `out`.
pub fn push_remove_record(out: &mut Vec<u8>, key: &String)
    ensures
        final(out)@ == old(out)@ + spec_remove_record(key@),
        cmd_encodable(SpecCommand::RemoveCmd { key: key@ }),
{
    proof {
        lemma_auto_spec_u64_to_from_le_bytes();
    }
    let mut kb: Vec<u8> = key.as_str().as_bytes_vec();
    out.push(TAG_REMOVE);
    let mut klen = u64_to_le_bytes(kb.len() as u64);
    out.append(&mut klen);
    out.append(&mut kb);
    proof {
        assert(out@ =~= old(out)@ + spec_remove_record(key@));
    }
}

/// Decode the record starting at byte `pos` of `log`; `None` exactly when
/// the log is corrupt there.
pub fn decode_record(log: &Vec<u8>, pos: usize) -> (r: Option<(Command, usize)>)
    ensures
        r matches Some((cmd, end)) ==> spec_parse_record(log@, pos as int) == Some(
            (cmd@, end as int),
        ),
        r is None ==> spec_parse_record(log@, pos as int) is None,
{
    proof {
        lemma_auto_spec_u64_to_from_le_bytes();
        broadcast use encode_utf8_valid_utf8, encode_utf8_decode_utf8;

    }
    if pos >= log.len() {
        return None;
    }
    let tag = log[pos];
    if tag == TAG_SET {
        if log.len() - pos < 17 {
            return None;
        }
        let klen64 = u64_from_le_bytes(slice_subrange(log.as_slice(), pos + 1, pos + 9));
        let vlen64 = u64_from_le_bytes(slice_subrange(log.as_slice(), pos + 9, pos + 17));
        let avail = (log.len() - pos - 17) as u64;
        if klen64 > avail || vlen64 > avail - klen64 {
            return None;
        }
        let klen = klen64 as usize;
        let vlen = vlen64 as usize;
        let kb = slice_subrange(log.as_slice(), pos + 17, pos + 17 + klen);
        let vb = slice_subrange(log.as_slice(), pos + 17 + klen, pos + 17 + klen + vlen);
        let ks = match bytes_to_str(kb) {
            Some(s) => s,
            None => {
                return None;
            },
        };
        let vs = match bytes_to_str(vb) {
            Some(s) => s,
            None => {
                return None;
            },
        };
        Some(
            (
                Command::SetCmd { key: ks.to_owned(), value: vs.to_owned() },
                pos + 17 + klen + vlen,
            ),
        )
    } else if tag == TAG_REMOVE {
        if log.len() - pos < 9 {
            return None;
        }
        let klen64 = u64_from_le_bytes(slice_subrange(log.as_slice(), pos + 1, pos + 9));
        let avail = (log.len() - pos - 9) as u64;
        if klen64 > avail {
            return None;
        }
        let klen = klen64 as usize;
        let kb = slice_subrange(log.as_slice(), pos + 9, pos + 9 + klen);
        let ks = match bytes_to_str(kb) {
            Some(s) => s,
            None => {
                return None;
            },
        };
        Some((Command::RemoveCmd { key: ks.to_owned() }, pos + 9 + klen))
    } else {
        None
    }
}

} // verus!
