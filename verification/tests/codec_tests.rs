use raft_storage::state_machine::{KvStateMachine, SetValueCommand};

fn kv(pairs: &[(&str, &str)]) -> KvStateMachine {
    KvStateMachine(
        pairs
            .iter()
            .map(|(k, v)| (k.to_string(), v.to_string()))
            .collect(),
    )
}

#[test]
fn state_round_trip_exact() {
    let sm = kv(&[("hello", "goodbye"), ("blue", "red"), ("hot", "cold")]);
    let bytes = sm.write_bytes().unwrap();
    let back = KvStateMachine::try_from_bytes(&bytes).unwrap();
    assert_eq!(back.0, sm.0);
}

#[test]
fn state_round_trip_empty() {
    let sm = kv(&[]);
    let bytes = sm.write_bytes().unwrap();
    assert_eq!(bytes, vec![0, 0, 0, 0]);
    let back = KvStateMachine::try_from_bytes(&bytes).unwrap();
    assert!(back.0.is_empty());
}

#[test]
fn state_round_trip_unicode() {
    let sm = kv(&[("clé", "välüe"), ("κλειδί", "τιμή")]);
    let bytes = sm.write_bytes().unwrap();
    let back = KvStateMachine::try_from_bytes(&bytes).unwrap();
    assert_eq!(back.0, sm.0);
}

#[test]
fn state_encoding_layout_is_exact() {
    let sm = kv(&[("ab", "c")]);
    let bytes = sm.write_bytes().unwrap();
    assert_eq!(
        bytes,
        vec![0, 0, 0, 1, 0, 0, 0, 2, b'a', b'b', 0, 0, 0, 1, b'c']
    );
}

#[test]
fn decode_ignores_trailing_bytes() {
    let sm = kv(&[("k", "v")]);
    let mut bytes = sm.write_bytes().unwrap();
    bytes.extend_from_slice(&[0xde, 0xad, 0xbe, 0xef]);
    let back = KvStateMachine::try_from_bytes(&bytes).unwrap();
    assert_eq!(back.0, sm.0);
}

#[test]
fn decode_rejects_truncated_input() {
    let sm = kv(&[("hello", "goodbye")]);
    let bytes = sm.write_bytes().unwrap();
    for cut in 0..bytes.len() {
        assert!(KvStateMachine::try_from_bytes(&bytes[..cut]).is_none());
    }
}

#[test]
fn decode_rejects_length_past_end() {
    // One pair whose key claims 100 bytes that never arrive.
    let bytes = vec![0, 0, 0, 1, 0, 0, 0, 100, b'x'];
    assert!(KvStateMachine::try_from_bytes(&bytes).is_none());
}

#[test]
fn decode_rejects_invalid_utf8() {
    // count 1, key of one byte 0xff (not UTF-8), value "v".
    let bytes = vec![0, 0, 0, 1, 0, 0, 0, 1, 0xff, 0, 0, 0, 1, b'v'];
    assert!(KvStateMachine::try_from_bytes(&bytes).is_none());
}

#[test]
fn command_round_trip() {
    let cmd = SetValueCommand {
        key: "k1".to_string(),
        value: "v1".to_string(),
        mid: "msg-17".to_string(),
    };
    let bytes = cmd.write_bytes().unwrap();
    let back = SetValueCommand::try_from_bytes(&bytes).unwrap();
    assert_eq!(back.key, cmd.key);
    assert_eq!(back.value, cmd.value);
    assert_eq!(back.mid, cmd.mid);
}

#[test]
fn command_decode_rejects_truncated_input() {
    let cmd = SetValueCommand {
        key: "key".to_string(),
        value: "value".to_string(),
        mid: "m".to_string(),
    };
    let bytes = cmd.write_bytes().unwrap();
    for cut in 0..bytes.len() {
        assert!(SetValueCommand::try_from_bytes(&bytes[..cut]).is_none());
    }
}

#[test]
fn apply_command_inserts_and_overwrites() {
    let mut sm = kv(&[]);
    sm.apply_command(&SetValueCommand {
        key: "a".to_string(),
        value: "1".to_string(),
        mid: "m1".to_string(),
    });
    sm.apply_command(&SetValueCommand {
        key: "b".to_string(),
        value: "2".to_string(),
        mid: "m2".to_string(),
    });
    sm.apply_command(&SetValueCommand {
        key: "a".to_string(),
        value: "3".to_string(),
        mid: "m3".to_string(),
    });
    assert_eq!(sm.0.len(), 2);
    assert_eq!(sm.get(&"a".to_string()).unwrap(), "3");
    assert_eq!(sm.get(&"b".to_string()).unwrap(), "2");
    assert!(sm.get(&"c".to_string()).is_none());
}
