use kvs::common::{extract_key_from_cmd, Command};
use kvs::engine::record::{decode, decode_prefix, encode};
use kvs::error::KvsError;

#[test]
fn encode_matches_bincode_of_a_tuple() {
    let cmd = Command::Put { key: "key".to_string(), value: "välue".to_string() };
    let bytes = encode(&cmd).unwrap();
    assert_eq!(bytes, bincode::serialize(&(0u32, "key", "välue")).unwrap());
    assert_eq!(decode(&bytes).unwrap(), cmd);
    let get = Command::Get { key: "key".to_string() };
    assert_eq!(encode(&get).unwrap(), bincode::serialize(&(1u32, "key")).unwrap());
    let rm = Command::Rm { key: "key".to_string() };
    assert_eq!(encode(&rm).unwrap(), bincode::serialize(&(2u32, "key")).unwrap());
}

#[test]
fn encode_writes_tag_lengths_and_text() {
    let cmd = Command::Put { key: "ab".to_string(), value: "c".to_string() };
    assert_eq!(
        encode(&cmd).unwrap(),
        vec![0, 0, 0, 0, 2, 0, 0, 0, 0, 0, 0, 0, b'a', b'b', 1, 0, 0, 0, 0, 0, 0, 0, b'c']
    );
    let cmd = Command::Rm { key: "é".to_string() };
    assert_eq!(encode(&cmd).unwrap(), vec![2, 0, 0, 0, 2, 0, 0, 0, 0, 0, 0, 0, 0xc3, 0xa9]);
}

#[test]
fn decode_gives_back_what_was_encoded() {
    let cmds = vec![
        Command::Put { key: "k".to_string(), value: "v".to_string() },
        Command::Put { key: "".to_string(), value: "".to_string() },
        Command::Get { key: "some key".to_string() },
        Command::Rm { key: "ключ".to_string() },
    ];
    for cmd in cmds {
        let mut bytes = encode(&cmd).unwrap();
        let size = bytes.len();
        assert_eq!(decode(&bytes), Ok(cmd.clone()));
        bytes.extend_from_slice(&[1, 2, 3]);
        assert_eq!(decode_prefix(&bytes), Ok((cmd, size)));
    }
}

#[test]
fn decode_rejects_a_torn_record() {
    let cmd = Command::Put { key: "key".to_string(), value: "value".to_string() };
    let bytes = encode(&cmd).unwrap();
    for cut in 0..bytes.len() {
        assert_eq!(decode(&bytes[..cut]), Err(KvsError::Bincode));
    }
}

#[test]
fn decode_rejects_an_unknown_tag_and_bad_text() {
    assert_eq!(decode(&[3, 0, 0, 0, 0, 0, 0, 0, 0, 0, 0, 0]), Err(KvsError::Bincode));
    assert_eq!(decode(&[2, 0, 0, 0, 1, 0, 0, 0, 0, 0, 0, 0, 0xff]), Err(KvsError::Bincode));
    assert_eq!(
        decode(&[2, 0, 0, 0, 0xff, 0xff, 0xff, 0xff, 0xff, 0xff, 0xff, 0xff, b'a']),
        Err(KvsError::Bincode)
    );
    assert_eq!(decode(&[2, 0, 0, 0, 1, 0, 0, 0, 0, 0, 0, 0, b'a']), Ok(Command::Rm { key: "a".to_string() }));
}

#[test]
fn key_is_taken_out_of_each_command() {
    assert_eq!(extract_key_from_cmd(Command::Put { key: "a".to_string(), value: "b".to_string() }), "a");
    assert_eq!(extract_key_from_cmd(Command::Get { key: "c".to_string() }), "c");
    assert_eq!(extract_key_from_cmd(Command::Rm { key: "d".to_string() }), "d");
}
