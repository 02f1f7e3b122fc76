use netsync::commands::{Command, DecodingError, deserialize_command, serialize_command};

fn round_trip(cmd: Command) -> Command {
    let bytes = serialize_command(&cmd).expect("encoding is infallible for these commands");
    deserialize_command(&bytes).expect("a full encoding must decode")
}

#[test]
fn update_round_trips() {
    assert_eq!(round_trip(Command::Update), Command::Update);
}

#[test]
fn ping_round_trips() {
    assert_eq!(round_trip(Command::Ping), Command::Ping);
}

#[test]
fn identify_round_trips() {
    let cmd = Command::Identify { hostname: String::from("worker-1") };
    assert_eq!(round_trip(cmd.clone()), cmd);
}

#[test]
fn custom_round_trips() {
    let cmd = Command::Custom { data: String::from("PONG") };
    assert_eq!(round_trip(cmd.clone()), cmd);
}

#[test]
fn empty_hostname_round_trips() {
    let cmd = Command::Identify { hostname: String::new() };
    assert_eq!(round_trip(cmd.clone()), cmd);
}

#[test]
fn non_ascii_payload_round_trips() {
    let cmd = Command::Custom { data: String::from("gr\u{00fc}n \u{2028} \u{1F600}") };
    assert_eq!(round_trip(cmd.clone()), cmd);
}

#[test]
fn every_truncation_fails() {
    let cmd = Command::Identify { hostname: String::from("host") };
    let bytes = serialize_command(&cmd).unwrap();
    for n in 0..bytes.len() {
        assert_eq!(deserialize_command(&bytes[..n]), Err(DecodingError));
    }
}

#[test]
fn empty_bytes_fail() {
    assert_eq!(deserialize_command(&[]), Err(DecodingError));
}

#[test]
fn random_bytes_fail() {
    let junk: Vec<u8> = vec![0x47, 0x11, 0xfe, 0x09, 0x55, 0x00, 0x31, 0x88, 0x12, 0xab];
    assert_eq!(deserialize_command(&junk), Err(DecodingError));
}

#[test]
fn unknown_tag_fails() {
    // A well-framed message whose payload tag is none of the four.
    let mut bytes: Vec<u8> = vec![1, 0, 0, 0, 0, 0, 0, 0];
    bytes.push(9);
    assert_eq!(deserialize_command(&bytes), Err(DecodingError));
}

#[test]
fn wrong_length_prefix_fails() {
    let mut bytes = serialize_command(&Command::Ping).unwrap();
    bytes[0] = bytes[0].wrapping_add(1);
    assert_eq!(deserialize_command(&bytes), Err(DecodingError));
}

#[test]
fn trailing_bytes_fail() {
    let mut bytes = serialize_command(&Command::Update).unwrap();
    bytes.push(0);
    assert_eq!(deserialize_command(&bytes), Err(DecodingError));
}

#[test]
fn surrogate_code_point_fails() {
    // Identify with one announced character whose value is a surrogate,
    // which is no Unicode scalar value.
    let mut bytes: Vec<u8> = Vec::new();
    let payload_len: u64 = 1 + 8 + 4;
    bytes.extend_from_slice(&payload_len.to_le_bytes());
    bytes.push(2);
    bytes.extend_from_slice(&1u64.to_le_bytes());
    bytes.extend_from_slice(&0xD800u32.to_le_bytes());
    assert_eq!(deserialize_command(&bytes), Err(DecodingError));
}

#[test]
fn concatenated_messages_fail() {
    // The codec takes exactly one message; two back to back are refused.
    let mut bytes = serialize_command(&Command::Ping).unwrap();
    bytes.extend(serialize_command(&Command::Update).unwrap());
    assert_eq!(deserialize_command(&bytes), Err(DecodingError));
}
