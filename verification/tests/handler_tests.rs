use ferris::kvstore::{KvError, KvStore};
use ferris::server::engine::Engine;
use ferris::server::error::ServerError;
use ferris::server::handler::{execute_command, parse_request, render_get, CliCommand, HandlerError};
use ferris::wire::encode_request;

fn bincode_str(s: &str) -> Vec<u8> {
    bincode::encode_to_vec(s.to_string(), bincode::config::standard()).unwrap()
}

#[test]
fn parse_request_reads_set_frame() {
    let frame = encode_request(0, &"foo".to_string(), Some(&"bar".to_string())).unwrap();
    let cmd = parse_request(&frame[0..3], &frame[3..]).unwrap();
    assert_eq!(cmd.command, 0);
    assert_eq!(cmd.key, "foo");
    assert_eq!(cmd.value, Some("bar".to_string()));
}

#[test]
fn parse_request_get_frame_has_no_value() {
    let frame = encode_request(1, &"foo".to_string(), None).unwrap();
    let cmd = parse_request(&frame[0..3], &frame[3..]).unwrap();
    assert_eq!(cmd.command, 1);
    assert_eq!(cmd.key, "foo");
    assert_eq!(cmd.value, None);
}

#[test]
fn parse_request_short_body_fails() {
    let header = [0u8, 10, 0];
    let body = [1u8, 2, 3];
    assert_eq!(
        parse_request(&header, &body).err(),
        Some(ServerError::UnableToDecodeBytes)
    );
}

#[test]
fn parse_request_undecodable_key_fails() {
    // the length prefix claims more bytes than the slice holds
    let body = vec![200u8, 0, 0, 0];
    let header = [0u8, 4, 0];
    assert_eq!(
        parse_request(&header, &body).err(),
        Some(ServerError::UnableToDecodeBytes)
    );
}

#[test]
fn execute_set_then_get_round_trip() {
    let mut store = KvStore::new(1_000_000);
    let out = execute_command(
        &mut store,
        CliCommand::new(0, "foo".to_string(), Some("bar".to_string())),
    );
    assert_eq!(out.result, Ok(()));
    assert!(out.reply.is_none());

    let out = execute_command(&mut store, CliCommand::new(1, "foo".to_string(), None));
    assert_eq!(out.result, Ok(()));
    let reply = out.reply.unwrap();
    let expected = bincode_str("bar");
    assert_eq!(reply[0] as usize, expected.len());
    assert_eq!(&reply[1..], &expected[..]);
}

#[test]
fn execute_get_absent_signals_get_found_none() {
    let mut store = KvStore::new(1_000_000);
    let out = execute_command(&mut store, CliCommand::new(1, "ghost".to_string(), None));
    assert_eq!(
        out.result,
        Err(HandlerError::Protocol(ServerError::GetFoundNone))
    );
    assert_eq!(
        out.reply,
        Some(bincode_str("Cant Get any key from the table"))
    );
}

#[test]
fn execute_remove_reports_key_not_found() {
    let mut store = KvStore::new(1_000_000);
    let out = execute_command(&mut store, CliCommand::new(2, "ghost".to_string(), None));
    assert_eq!(
        out.result,
        Err(HandlerError::Storage(KvError::KeyNotFound))
    );
    assert!(out.reply.is_none());
}

#[test]
fn execute_remove_deletes_key() {
    let mut store = KvStore::new(1_000_000);
    store.set("foo".to_string(), "bar".to_string()).unwrap();
    let out = execute_command(&mut store, CliCommand::new(2, "foo".to_string(), None));
    assert_eq!(out.result, Ok(()));
    assert_eq!(store.get("foo".to_string()).unwrap(), None);
}

#[test]
fn execute_set_without_value_is_rejected() {
    let mut store = KvStore::new(1_000_000);
    let out = execute_command(&mut store, CliCommand::new(0, "foo".to_string(), None));
    assert_eq!(
        out.result,
        Err(HandlerError::Protocol(ServerError::UnableToDecodeBytes))
    );
    assert_eq!(store.get("foo".to_string()).unwrap(), None);
}

#[test]
fn execute_unknown_opcode_is_command_not_found() {
    let mut store = KvStore::new(1_000_000);
    let out = execute_command(&mut store, CliCommand::new(9, "foo".to_string(), None));
    assert_eq!(
        out.result,
        Err(HandlerError::Protocol(ServerError::CommandNotFound))
    );
    assert!(out.reply.is_none());
}

#[test]
fn render_get_frames_a_present_value() {
    let out = render_get(Ok(Some("bar".to_string())));
    assert_eq!(out.result, Ok(()));
    let reply = out.reply.unwrap();
    let expected = bincode_str("bar");
    assert_eq!(reply[0] as usize, expected.len());
    assert_eq!(&reply[1..], &expected[..]);
}

#[test]
fn render_get_answers_every_failure_with_the_error_payload() {
    for res in [Ok(None), Err(KvError::IoFailure), Err(KvError::CorruptLog)] {
        let out = render_get(res);
        assert_eq!(
            out.result,
            Err(HandlerError::Protocol(ServerError::GetFoundNone))
        );
        assert_eq!(
            out.reply,
            Some(bincode_str("Cant Get any key from the table"))
        );
    }
}

#[test]
fn render_get_rejects_a_value_too_long_for_the_length_byte() {
    // 253 ASCII characters encode to 256 bytes, one over the field's range
    let out = render_get(Ok(Some("b".repeat(253))));
    assert_eq!(
        out.result,
        Err(HandlerError::Protocol(ServerError::GetFoundNone))
    );
    assert_eq!(
        out.reply,
        Some(bincode_str("Cant Get any key from the table"))
    );
}

#[test]
fn wire_to_engine_full_path() {
    let mut store = KvStore::new(1_000_000);
    let frame = encode_request(0, &"alpha".to_string(), Some(&"beta".to_string())).unwrap();
    let cmd = parse_request(&frame[0..3], &frame[3..]).unwrap();
    let out = execute_command(&mut store, cmd);
    assert_eq!(out.result, Ok(()));
    assert_eq!(store.get("alpha".to_string()).unwrap(), Some("beta".to_string()));
}

#[test]
fn server_error_messages() {
    assert_eq!(
        ServerError::FailedToReadStream.message(),
        "Failed to read from stream"
    );
    assert_eq!(
        ServerError::UnableToDecodeBytes.message(),
        "Unable to decode bytes"
    );
    assert_eq!(ServerError::CommandNotFound.message(), "Command is not found");
    assert_eq!(ServerError::GetFoundNone.message(), "Found None");
}

#[test]
fn engine_from_name_ignores_ascii_case() {
    assert_eq!(Engine::from_name("kvs"), Some(Engine::Kvs));
    assert_eq!(Engine::from_name("Kvs"), Some(Engine::Kvs));
    assert_eq!(Engine::from_name("KVS"), Some(Engine::Kvs));
    assert_eq!(Engine::from_name("sled"), Some(Engine::Sled));
    assert_eq!(Engine::from_name("SlEd"), Some(Engine::Sled));
    assert_eq!(Engine::from_name("postgres"), None);
    assert_eq!(Engine::from_name(""), None);
}

#[test]
fn engine_names() {
    assert_eq!(Engine::Kvs.name(), "Kvs");
    assert_eq!(Engine::Sled.name(), "Sled");
}
