use bytestring::ByteString;
use std::sync::Arc;
use tchatche::serialize::{
    deserialize_str, test_serdeser_aux, Deserializable, DeserializeError, Serializable,
};
use tchatche::types::{Heartbeat, IpAddr, MemberId, SocketAddr};

#[test]
fn test_serialize_bool() {
    assert!(test_serdeser_aux(&true, 1));
}

#[test]
fn test_serialize_member_id() {
    let addr = SocketAddr::new(IpAddr::V4([127, 0, 0, 1]), 7280);
    // 2 (len) + 9 ("member-id") + 8 (incarnation) + 5 (ipv4) + 2 (port)
    assert!(test_serdeser_aux(
        &MemberId::new("member-id".to_string().into(), 1, addr),
        26
    ));
}

#[test]
fn test_serialize_heartbeat() {
    assert!(test_serdeser_aux(&Heartbeat(1), 8));
}

#[test]
fn test_serialize_ip() {
    let ipv4 = IpAddr::V4([127, 1, 3, 9]);
    assert!(test_serdeser_aux(&ipv4, 5));

    let ipv6 = IpAddr::V6([0, 1, 2, 3, 4, 5, 6, 7, 8, 9, 10, 11, 12, 13, 14, 15]);
    assert!(test_serdeser_aux(&ipv6, 17));
}

#[test]
fn a_wrong_length_is_noticed() {
    assert!(!test_serdeser_aux(&true, 2));
    assert!(!test_serdeser_aux(&Heartbeat(1), 7));
}

#[test]
fn numbers_are_little_endian() {
    assert_eq!(0x0102u16.serialize_to_vec(), vec![2, 1]);
    assert_eq!(
        0x0102_0304_0506_0708u64.serialize_to_vec(),
        vec![8, 7, 6, 5, 4, 3, 2, 1]
    );
    assert_eq!(false.serialize_to_vec(), vec![0]);
    assert_eq!(true.serialize_to_vec(), vec![1]);
    assert!(test_serdeser_aux(&u16::MAX, 2));
    assert!(test_serdeser_aux(&u64::MAX, 8));
    assert!(test_serdeser_aux(&7u8, 1));
}

#[test]
fn strings_carry_their_length() {
    assert_eq!("h\u{e9}".serialize_to_vec(), vec![3, 0, b'h', 0xc3, 0xa9]);
    assert!(test_serdeser_aux(&"h\u{e9}".to_string(), 5));
    assert!(test_serdeser_aux(&ByteString::from("h\u{e9}"), 5));
    let shared: Arc<str> = Arc::from("h\u{e9}");
    assert!(test_serdeser_aux(&shared, 5));
}

#[test]
fn values_follow_one_another() {
    let mut buf = 1u8.serialize_to_vec();
    "key".serialize(&mut buf);
    Heartbeat(9).serialize(&mut buf);
    let mut rest = &buf[..];
    assert_eq!(u8::deserialize(&mut rest), Ok(1));
    assert_eq!(deserialize_str(&mut rest), Ok("key"));
    assert_eq!(Heartbeat::deserialize(&mut rest), Ok(Heartbeat(9)));
    assert!(rest.is_empty());
}

#[test]
fn a_short_buffer_is_an_error() {
    let mut none: &[u8] = &[];
    assert_eq!(u8::deserialize(&mut none), Err(DeserializeError::BufferTooShort));
    let mut one: &[u8] = &[1];
    assert_eq!(u16::deserialize(&mut one), Err(DeserializeError::BufferTooShort));
    assert_eq!(one, &[1]);
    let mut seven: &[u8] = &[1, 2, 3, 4, 5, 6, 7];
    assert_eq!(u64::deserialize(&mut seven), Err(DeserializeError::BufferTooShort));
    assert_eq!(bool::deserialize(&mut none), Err(DeserializeError::BufferTooShort));
}

#[test]
fn a_short_string_is_an_error() {
    let mut buf: &[u8] = &[5, 0, b'a', b'b'];
    assert_eq!(
        String::deserialize(&mut buf),
        Err(DeserializeError::StringTooShort { str_len: 5, buf_len: 2 })
    );
}

#[test]
fn invalid_utf8_is_an_error() {
    let mut buf: &[u8] = &[2, 0, 0xc3, 0x28];
    assert_eq!(
        String::deserialize(&mut buf),
        Err(DeserializeError::InvalidUtf8 { valid_up_to: 0, error_len: Some(1) })
    );
    let mut buf: &[u8] = &[3, 0, b'a', 0xe2, 0x82];
    assert_eq!(
        String::deserialize(&mut buf),
        Err(DeserializeError::InvalidUtf8 { valid_up_to: 1, error_len: None })
    );
}

#[test]
fn utf8_errors_are_told_as_std_does() {
    let broken: [&[u8]; 5] = [
        &[0xc3, 0x28],
        &[b'a', 0xe2, 0x82],
        &[b'a', b'b', 0xe2, 0x82, 0x28, b'c'],
        &[0xf0, 0x9f, 0x98],
        &[0xff],
    ];
    for bytes in broken {
        let mut buf = (bytes.len() as u16).serialize_to_vec();
        buf.extend_from_slice(bytes);
        let error = String::deserialize(&mut &buf[..]).unwrap_err();
        let expected = std::str::from_utf8(bytes).unwrap_err().to_string();
        assert_eq!(error.message(), expected);
    }
}

#[test]
fn errors_have_messages() {
    for (error, message) in [
        (DeserializeError::BufferTooShort, "buffer too short"),
        (
            DeserializeError::StringTooShort { str_len: 500, buf_len: 12 },
            "failed to deserialize string, buffer too short (str_len=500, buf_len=12)",
        ),
        (
            DeserializeError::InvalidUtf8 { valid_up_to: 10, error_len: Some(2) },
            "invalid utf-8 sequence of 2 bytes from index 10",
        ),
        (
            DeserializeError::InvalidUtf8 { valid_up_to: 0, error_len: None },
            "incomplete utf-8 byte sequence from index 0",
        ),
        (
            DeserializeError::InvalidIpVersion(5),
            "invalid IP version byte: expected `4` or `6`, got `5`",
        ),
        (DeserializeError::UnknownDeltaTag(255), "unknown delta op tag: 255"),
        (
            DeserializeError::KeyValueWithoutMember,
            "received a key-value op without a preceding member op",
        ),
        (
            DeserializeError::VersionNotIncreasing,
            "kv version should be strictly increasing",
        ),
        (
            DeserializeError::HeaderTooShort,
            "buffer too small for the magic number and protocol version",
        ),
        (DeserializeError::InvalidMagicNumber, "invalid tchatche magic number"),
        (DeserializeError::InvalidProtocolVersion, "invalid protocol version"),
        (DeserializeError::InvalidMessageType, "invalid message type"),
    ] {
        assert_eq!(error.message(), message);
    }
}

#[test]
fn an_unknown_ip_version_is_an_error() {
    let mut buf: &[u8] = &[5, 127, 0, 0, 1];
    assert_eq!(
        IpAddr::deserialize(&mut buf),
        Err(DeserializeError::InvalidIpVersion(5))
    );
}

#[test]
fn addresses_are_read_back() {
    let v4 = SocketAddr::new(IpAddr::V4([10, 0, 0, 1]), 80);
    assert!(test_serdeser_aux(&v4, 7));
    let v6 = SocketAddr::new(IpAddr::V6([1; 16]), 443);
    assert!(test_serdeser_aux(&v6, 19));
    assert_eq!(v6.ip(), IpAddr::V6([1; 16]));
    assert_eq!(v6.port(), 443);
    // Flow info and scope are not on the wire.
    let scoped = SocketAddr::V6 { octets: [1; 16], port: 443, flowinfo: 0, scope_id: 7 };
    let bytes = scoped.serialize_to_vec();
    assert_eq!(SocketAddr::deserialize(&mut &bytes[..]), Ok(v6));
}

#[test]
fn a_string_of_64_kib_is_not_read_back() {
    let long = "x".repeat(0x1_0000);
    assert_eq!(long.serialized_len(), 0x1_0002);
    let bytes = long.serialize_to_vec();
    assert_eq!(&bytes[..2], &[0, 0]);
    assert_eq!(String::deserialize(&mut &bytes[..]), Ok(String::new()));
    assert!(test_serdeser_aux(&"x".repeat(0xffff), 0x1_0001));
}

#[test]
fn local_identities_name_their_port() {
    let member_id = MemberId::for_local_test(10_001);
    assert_eq!(&*member_id.id, "member-10001");
    assert_eq!(member_id.incarnation, 0);
    assert_eq!(member_id.advertise_port(), 10_001);
    assert_eq!(member_id.gossip_addr.ip(), IpAddr::V4([127, 0, 0, 1]));
    assert_eq!(&*MemberId::for_local_test(0).id, "member-0");
    assert_eq!(&*MemberId::for_local_test(10).id, "member-10");
    assert_eq!(&*MemberId::for_local_test(65_535).id, "member-65535");
    for n in 0..10u16 {
        assert_eq!(&*MemberId::for_local_test(n).id, format!("member-{n}"));
    }
}

#[test]
fn heartbeats_count() {
    let mut heartbeat = Heartbeat::default();
    heartbeat.inc();
    heartbeat.inc();
    assert_eq!(heartbeat, Heartbeat(2));
    assert_eq!(u64::from(heartbeat), 2);
}
