//! The pure core of the connection handler: parse one request frame into a
//! command, run it against the engine interface, and produce the response
//! bytes.  Reading the socket, logging, and writing the response back are
//! the embedding program's job.

use crate::kv_engine::KvEngine;
use crate::kvstore::{spec_get, KvError};
use crate::server::error::ServerError;
use crate::wire::{
    decode_header, decode_payload, encode_response, encode_string, opt_str_view, str_dec,
    str_enc,
};
use vstd::prelude::*;

verus! {

/// A decoded client request: opcode, key, and optional value.
#[derive(Debug)]
pub struct CliCommand {
    pub command: u8,
    pub key: String,
    pub value: Option<String>,
}

impl CliCommand {
    /// Build a command from its fields.
    pub fn new(command: u8, key: String, value: Option<String>) -> (r: CliCommand)
        ensures
            r.command == command,
            r.key == key,
            r.value == value,
    {
        CliCommand { command, key, value }
    }
}

/// An error of one request: of the protocol layer, or of the engine.
#[derive(Debug, Clone, Copy, PartialEq, Eq, Structural)]
pub enum HandlerError {
    Protocol(ServerError),
    Storage(KvError),
}

/// What executing one command produced: bytes to send back, if any, and
/// the outcome to log.
pub struct ExecOutcome {
    pub reply: Option<Vec<u8>>,
    pub result: Result<(), HandlerError>,
}

/// Parse one request: the three header bytes, then the rest of what the
/// client sent.  The key must decode; a value that does not decode is
/// treated as absent, as a keyless command sends none.
pub fn parse_request(header_bytes: &[u8], body: &[u8]) -> (r: Result<CliCommand, ServerError>)
    requires
        header_bytes@.len() == 3,
    ensures
        ({
            let ks = header_bytes@[1] as int;
            let vs = header_bytes@[2] as int;
            if body@.len() < ks + vs {
                r == Err::<CliCommand, ServerError>(ServerError::UnableToDecodeBytes)
            } else {
                match str_dec(body@.subrange(0, ks)) {
                    None => r == Err::<CliCommand, ServerError>(ServerError::UnableToDecodeBytes),
                    Some(k) => (r matches Ok(c) && c.command == header_bytes@[0] && c.key@ == k
                        && opt_str_view(c.value) == str_dec(body@.subrange(ks, ks + vs))),
                }
            }
        }),
        ({
            let ks = header_bytes@[1] as int;
            let vs = header_bytes@[2] as int;
            body@.len() >= ks + vs && vs == 0 ==> (r matches Ok(c) ==> c.value is None)
        }),
{
    let header = decode_header(header_bytes);
    match decode_payload(body, header.keysize, header.valuesize) {
        None => Err(ServerError::UnableToDecodeBytes),
        Some((key, value)) => Ok(CliCommand::new(header.command, key, value)),
    }
}

/// The reply sent when a get cannot produce a value.
fn get_error_reply() -> (r: Vec<u8>)
    ensures
        r@ == str_enc("Cant Get any key from the table"@),
{
    let msg: String = "Cant Get any key from the table".to_owned();
    match encode_string(&msg) {
        Some(b) => b,
        None => {
            proof {
                assert(false);
            }
            Vec::new()
        },
    }
}

/// Turn the engine's answer to a get into the command's outcome: a
/// present value whose encoding fits the one-byte length field is framed
/// behind its length and the command succeeds; every other answer
/// produces the fixed error payload and signals `GetFoundNone` upward,
/// as a reportable, non-fatal error.
pub fn render_get(res: Result<Option<String>, KvError>) -> (r: ExecOutcome)
    ensures
        r.result is Ok <==> (res matches Ok(Some(s)) && str_enc(s@).len() <= 255),
        res matches Ok(Some(s)) ==> (str_enc(s@).len() <= 255 ==> (r.reply matches Some(p) && p@
            == seq![str_enc(s@).len() as u8] + str_enc(s@))),
        r.result is Err ==> r.result == Err::<(), HandlerError>(
            HandlerError::Protocol(ServerError::GetFoundNone),
        ) && (r.reply matches Some(p) && p@ == str_enc("Cant Get any key from the table"@)),
{
    match res {
        Ok(Some(v)) => {
            match encode_string(&v) {
                Some(b) => {
                    match encode_response(&b) {
                        Some(f) => ExecOutcome { reply: Some(f), result: Ok(()) },
                        None => ExecOutcome {
                            reply: Some(get_error_reply()),
                            result: Err(HandlerError::Protocol(ServerError::GetFoundNone)),
                        },
                    }
                },
                None => {
                    proof {
                        assert(false);
                    }
                    ExecOutcome {
                        reply: Some(get_error_reply()),
                        result: Err(HandlerError::Protocol(ServerError::GetFoundNone)),
                    }
                },
            }
        },
        _ => ExecOutcome {
            reply: Some(get_error_reply()),
            result: Err(HandlerError::Protocol(ServerError::GetFoundNone)),
        },
    }
}

/// Run one decoded command against the engine.
///
/// Opcode 0 binds the key (a set without a value is a malformed frame);
/// opcode 1 reads it and frames the value behind one length byte; opcode 2
/// deletes it; any other opcode names no command.  A get that finds no
/// value still produces an error payload and signals `GetFoundNone`
/// upward, as a reportable, non-fatal error.
pub fn execute_command<T: KvEngine>(store: &mut T, cmd: CliCommand) -> (r: ExecOutcome)
    requires
        old(store).kv_inv(),
    ensures
        final(store).kv_inv(),
        !(cmd.command == 0 || cmd.command == 1 || cmd.command == 2) ==> final(store).kv_state()
            == old(store).kv_state() && r.reply is None && r.result == Err::<(), HandlerError>(
            HandlerError::Protocol(ServerError::CommandNotFound),
        ),
        cmd.command == 0 ==> r.reply is None && (match cmd.value {
            Some(v) => {
                &&& !(r.result matches Err(HandlerError::Protocol(_)))
                &&& r.result is Ok ==> final(store).kv_state() == old(store).kv_state().insert(
                    cmd.key@,
                    v@,
                )
                &&& r.result is Err ==> final(store).kv_state() == old(store).kv_state()
            },
            None => r.result == Err::<(), HandlerError>(
                HandlerError::Protocol(ServerError::UnableToDecodeBytes),
            ) && final(store).kv_state() == old(store).kv_state(),
        }),
        cmd.command == 1 ==> final(store).kv_state() == old(store).kv_state() && (
        match r.result {
            Ok(_) => (spec_get(old(store).kv_state(), cmd.key@) matches Some(v) && str_enc(
                v,
            ).len() <= 255 && (r.reply matches Some(p) && p@ == seq![
                str_enc(v).len() as u8,
            ] + str_enc(v))),
            Err(e) => e == HandlerError::Protocol(ServerError::GetFoundNone) && (
            r.reply matches Some(p) && p@ == str_enc("Cant Get any key from the table"@)),
        }),
        cmd.command == 2 ==> r.reply is None && {
            &&& !(r.result matches Err(HandlerError::Protocol(_)))
            &&& r.result is Ok ==> old(store).kv_state().contains_key(cmd.key@)
                && final(store).kv_state() == old(store).kv_state().remove(cmd.key@)
            &&& r.result == Err::<(), HandlerError>(
                HandlerError::Storage(KvError::KeyNotFound),
            ) ==> !old(store).kv_state().contains_key(cmd.key@)
            &&& r.result is Err ==> final(store).kv_state() == old(store).kv_state()
        },
{
    let c = cmd.command;
    if c == 0 {
        match cmd.value {
            Some(v) => match store.tset(cmd.key, v) {
                Ok(_) => ExecOutcome { reply: None, result: Ok(()) },
                Err(e) => ExecOutcome { reply: None, result: Err(HandlerError::Storage(e)) },
            },
            None => ExecOutcome {
                reply: None,
                result: Err(HandlerError::Protocol(ServerError::UnableToDecodeBytes)),
            },
        }
    } else if c == 1 {
        render_get(store.tget(cmd.key))
    } else if c == 2 {
        match store.tremove(cmd.key) {
            Ok(_) => ExecOutcome { reply: None, result: Ok(()) },
            Err(e) => ExecOutcome { reply: None, result: Err(HandlerError::Storage(e)) },
        }
    } else {
        ExecOutcome {
            reply: None,
            result: Err(HandlerError::Protocol(ServerError::CommandNotFound)),
        }
    }
}

} // verus!
