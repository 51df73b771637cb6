use protohackers_rs::line_reversal::message::ParseError;
use protohackers_rs::line_reversal::protocol::{Data, Packet, Payload, SessionId};

#[test]
fn parsing_packets_basic() {
    let bytes = "/data/1234567/0/hello/".as_bytes();

    let packet = Packet::try_from(bytes).unwrap();
    assert_eq!(
        packet,
        Packet {
            session_id: SessionId(1234567),
            payload: Payload::Data {
                data: Data(b"hello".to_vec()),
                pos: 0,
            },
        }
    );
}

#[test]
fn parsing_packets_complex() {
    let raw_packets = vec![
        "/connect/1234567/",
        "/data/1234567/0/hello/",
        "/data/1234567/5/world/",
        "/ack/1234567/0/",
        "/ack/1234567/5/",
        "/close/1234567/",
    ];

    for raw_packet in raw_packets {
        let packet = Packet::try_from(raw_packet.as_bytes()).unwrap();
        assert_eq!(packet.session_id, SessionId(1234567));
    }
}

#[test]
fn packets_are_written_as_they_are_read() {
    for raw in [
        &b"/connect/0/"[..],
        b"/close/2147483647/",
        b"/ack/12/2147483647/",
        b"/data/12/34/a\\/b\\\\c\n/",
    ] {
        let packet = Packet::try_from(raw).unwrap();
        assert_eq!(packet.to_bytes(), raw.to_vec());
    }
}

#[test]
fn the_data_of_a_packet_is_read_without_its_escapes() {
    let bytes = [&b"/data/1/0/"[..], &[b'a', 0x5c, b'/', b'b', b'/']].concat();
    let packet = Packet::try_from(&bytes[..]).unwrap();
    assert_eq!(packet.session_id, SessionId(1));
    assert_eq!(
        packet.payload,
        Payload::Data { data: Data(b"a/b".to_vec()), pos: 0 }
    );
    match &packet.payload {
        Payload::Data { data, .. } => assert_eq!(data.as_ref(), [b'a', b'/', b'b']),
        _ => panic!("a data packet"),
    }
}

#[test]
fn the_data_of_a_packet_is_written_with_escapes() {
    let packet = Packet {
        session_id: SessionId(1),
        payload: Payload::Data { data: Data::try_from(&b"a/b"[..]).unwrap(), pos: 0 },
    };
    assert_eq!(
        packet.to_bytes(),
        [&b"/data/1/0/"[..], &[b'a', 0x5c, b'/', b'b', b'/']].concat()
    );
}

#[test]
fn a_packet_is_read_back_from_its_own_bytes() {
    for packet in [
        Packet { session_id: SessionId(0), payload: Payload::Connect },
        Packet { session_id: SessionId(i32::MAX), payload: Payload::Close },
        Packet { session_id: SessionId(7), payload: Payload::Ack { pos: i32::MAX } },
        Packet {
            session_id: SessionId(7),
            payload: Payload::Data { data: Data(b"a/b".to_vec()), pos: 3 },
        },
        Packet {
            session_id: SessionId(7),
            payload: Payload::Data { data: Data(b"\\//\
".to_vec()), pos: 0 },
        },
    ] {
        let bytes = packet.to_bytes();
        assert_eq!(Packet::try_from(&bytes[..]).unwrap(), packet);
    }
}

#[test]
fn packets_follow_the_grammar_of_messages() {
    for (raw, error) in [
        (&b""[..], ParseError::Framing),
        (b"/connect/1", ParseError::Framing),
        (b"/connect/1/garbage/", ParseError::Framing),
        (b"/ack/1/", ParseError::Framing),
        (b"/data/1/2/", ParseError::Framing),
        (b"/hello/1/", ParseError::Kind),
        (b"/connect/-1/", ParseError::Number),
        (b"/connect/2147483648/", ParseError::Number),
        (b"/ack/1/2147483648/", ParseError::Number),
        (b"/data/1/2147483648/x/", ParseError::Number),
        (b"/data/1/2//", ParseError::Data),
        (b"/data/1/2/a/b/", ParseError::Data),
    ] {
        assert_eq!(Packet::try_from(raw).unwrap_err(), error, "{:?}", raw);
    }
}

#[test]
fn kinds_are_named_in_lower_case() {
    assert_eq!(Payload::Connect.to_kind_bytes(), b"connect");
    assert_eq!(Payload::Close.to_kind_bytes(), b"close");
    assert_eq!(Payload::Ack { pos: 1 }.to_kind_bytes(), b"ack");
    assert_eq!(
        Payload::Data { data: Data(vec![1]), pos: 1 }.to_kind_bytes(),
        b"data"
    );
}

#[test]
fn packets_are_written_field_by_field() {
    let packet = Packet {
        session_id: SessionId(-5),
        payload: Payload::Data { data: Data(b"raw/bytes".to_vec()), pos: -2147483648 },
    };
    assert_eq!(packet.to_bytes(), b"/data/-5/-2147483648/raw\\/bytes/".to_vec());
    let ack = Packet { session_id: SessionId(10), payload: Payload::Ack { pos: 20 } };
    assert_eq!(ack.to_bytes(), b"/ack/10/20/".to_vec());
    let connect = Packet { session_id: SessionId(0), payload: Payload::Connect };
    assert_eq!(connect.to_bytes(), b"/connect/0/".to_vec());
}

#[test]
fn session_ids_are_read_and_written_in_decimal() {
    assert_eq!(SessionId::try_from(&b"1234567"[..]).unwrap(), SessionId(1234567));
    assert_eq!(SessionId::try_from(&b"0012"[..]).unwrap(), SessionId(12));
    assert_eq!(SessionId::try_from(&b"2147483647"[..]).unwrap(), SessionId(2147483647));
    for raw in [&b""[..], b"-1", b"+1", b"12a", b"2147483648", b" 1"] {
        assert_eq!(SessionId::try_from(raw).unwrap_err(), ParseError::Number);
    }
    assert_eq!(SessionId(1234567).to_string(), "1234567");
    assert_eq!(SessionId(0).to_string(), "0");
    assert_eq!(SessionId(-42).to_string(), "-42");
    assert_eq!(SessionId(i32::MIN).to_string(), "-2147483648");
}

#[test]
fn data_is_taken_as_it_is() {
    let mut data = Data::try_from(&b"a/b\\"[..]).unwrap();
    assert_eq!(data, Data(b"a/b\\".to_vec()));
    assert_eq!(data.as_ref(), b"a/b\\");
    data.as_mut()[0] = b'z';
    assert_eq!(data.as_ref(), b"z/b\\");
    assert_eq!(Data::try_from(&b""[..]).unwrap(), Data(Vec::new()));
}
