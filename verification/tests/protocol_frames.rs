use least_conn::LbError;
use least_conn::protocol::{
    client_id_from_be, encode_command, parse_reply, Command, ASSIGN_FRAME_LEN, KEY_FRAME_LEN,
    OP_ASSIGN, OP_DEREGISTER, OP_RELEASE,
};

const X: [u8; 6] = [192, 168, 1, 20, 0x1f, 0x90];

#[test]
fn assign_frame_layout() {
    let f = encode_command(&Command::Assign {
        client_id: 0x01020304,
    });
    assert_eq!(f.len(), ASSIGN_FRAME_LEN);
    assert_eq!(f[0], OP_ASSIGN);
    assert_eq!(&f[1..7], &[0, 0, 0, 0, 0, 0]);
    assert_eq!(&f[7..11], &[1, 2, 3, 4]);
}

#[test]
fn release_frame_layout() {
    let f = encode_command(&Command::Release { server: X });
    assert_eq!(f.len(), KEY_FRAME_LEN);
    assert_eq!(f[0], OP_RELEASE);
    assert_eq!(&f[1..7], &X);
}

#[test]
fn deregister_frame_layout() {
    let f = encode_command(&Command::Deregister { server: X });
    assert_eq!(f.len(), KEY_FRAME_LEN);
    assert_eq!(f[0], OP_DEREGISTER);
    assert_eq!(&f[1..7], &X);
}

#[test]
fn client_id_survives_byte_trip() {
    for id in [0u32, 1, 7, 9, 0xdead_beef, u32::MAX] {
        let f = encode_command(&Command::Assign { client_id: id });
        assert_eq!(client_id_from_be(f[7], f[8], f[9], f[10]), id);
    }
}

#[test]
fn reply_parses_key_and_echoed_id() {
    let mut rep = X.to_vec();
    rep.extend_from_slice(&[0, 0, 0, 9]);
    let (key, id) = parse_reply(&rep).unwrap();
    assert_eq!(key, X);
    assert_eq!(id, 9);
}

#[test]
fn short_or_long_reply_is_a_framing_error() {
    assert_eq!(parse_reply(&vec![]), Err(LbError::ProtocolFraming));
    assert_eq!(parse_reply(&vec![0u8; 9]), Err(LbError::ProtocolFraming));
    assert_eq!(parse_reply(&vec![0u8; 11]), Err(LbError::ProtocolFraming));
}
