use reroute_proxy::codec::{FramingError, Packet, PacketBuilder};

fn packet_over(body: Vec<u8>) -> Packet {
    Packet {
        offset: 0,
        size: 0,
        id: 0,
        body,
    }
}

#[test]
fn varint_encoding_lengths_are_minimal() {
    let cases: Vec<(u32, Vec<u8>)> = vec![
        (0, vec![0x00]),
        (1, vec![0x01]),
        (127, vec![0x7F]),
        (128, vec![0x80, 0x01]),
        (300, vec![0xAC, 0x02]),
        (16383, vec![0xFF, 0x7F]),
        (16384, vec![0x80, 0x80, 0x01]),
        (2097151, vec![0xFF, 0xFF, 0x7F]),
        (2097152, vec![0x80, 0x80, 0x80, 0x01]),
        (268435455, vec![0xFF, 0xFF, 0xFF, 0x7F]),
        (268435456, vec![0x80, 0x80, 0x80, 0x80, 0x01]),
        (u32::MAX, vec![0xFF, 0xFF, 0xFF, 0xFF, 0x0F]),
    ];
    for (value, expected) in cases {
        let mut b = PacketBuilder::new();
        b.write_var_int(value);
        b.write_var_int(0);
        let p = b.build();
        let mut body = expected.clone();
        body.push(0x00);
        let mut framed = vec![body.len() as u32 as u8];
        framed.extend(&body);
        assert_eq!(p.body, framed, "encoding of {}", value);
    }
}

#[test]
fn varint_round_trips_through_reader() {
    for value in [0u32, 1, 127, 128, 255, 300, 16384, 2097152, 268435456, u32::MAX] {
        let mut b = PacketBuilder::new();
        b.write_var_int(value);
        b.write_var_int(99);
        let built = b.build();
        let mut p = packet_over(built.body);
        // skip the frame length prefix
        let declared = p.read_var_int().unwrap();
        let got = p.read_var_int().unwrap();
        assert!(declared >= 1);
        assert_eq!(got, value);
        assert_eq!(p.read_var_int().unwrap(), 99);
    }
}

#[test]
fn varint_truncated_buffer_fails() {
    let mut p = packet_over(vec![0x80]);
    assert_eq!(p.read_var_int(), Err(FramingError::Truncated));
    assert_eq!(p.offset, 0);

    let mut empty = packet_over(vec![]);
    assert_eq!(empty.read_var_int(), Err(FramingError::Truncated));
}

#[test]
fn varint_oversized_fails() {
    let mut p = packet_over(vec![0x80, 0x80, 0x80, 0x80, 0x80, 0x01]);
    assert_eq!(p.read_var_int(), Err(FramingError::VarIntTooLarge));

    // terminates on the fifth byte but the value exceeds 32 bits
    let mut q = packet_over(vec![0xFF, 0xFF, 0xFF, 0xFF, 0x7F]);
    assert_eq!(q.read_var_int(), Err(FramingError::VarIntTooLarge));
}

#[test]
fn long_round_trips_little_endian() {
    let mut b = PacketBuilder::new();
    b.write_long(0x0123_4567_89AB_CDEF);
    let p = b.build();
    // frame length (16), then the eight bytes little-endian
    assert_eq!(
        p.body,
        vec![8, 0xEF, 0xCD, 0xAB, 0x89, 0x67, 0x45, 0x23, 0x01]
    );
    let mut r = packet_over(p.body[1..].to_vec());
    assert_eq!(r.read_long().unwrap(), 0x0123_4567_89AB_CDEF);
    assert_eq!(r.offset, 8);
}

#[test]
fn long_truncated_fails() {
    let mut p = packet_over(vec![1, 2, 3, 4, 5, 6, 7]);
    assert_eq!(p.read_long(), Err(FramingError::Truncated));
    assert_eq!(p.offset, 0);
}

#[test]
fn uint16_round_trips_big_endian() {
    let mut b = PacketBuilder::new();
    b.write_uint16(0xBEEF);
    let p = b.build();
    assert_eq!(p.body, vec![2, 0xBE, 0xEF]);
    let mut r = packet_over(vec![0xBE, 0xEF]);
    assert_eq!(r.read_uint16().unwrap(), 0xBEEF);

    let mut short = packet_over(vec![0xBE]);
    assert_eq!(short.read_uint16(), Err(FramingError::Truncated));
}

#[test]
fn string_round_trips() {
    let mut b = PacketBuilder::new();
    b.write_string("hôte.example");
    let p = b.build();
    let mut r = packet_over(p.body);
    let _frame_len = r.read_var_int().unwrap();
    assert_eq!(r.read_string().unwrap(), "hôte.example");
}

#[test]
fn string_invalid_utf8_fails() {
    let mut p = packet_over(vec![0x02, 0xFF, 0xFE]);
    assert_eq!(p.read_string(), Err(FramingError::InvalidUtf8));
    assert_eq!(p.offset, 0);
}

#[test]
fn string_truncated_fails() {
    let mut p = packet_over(vec![0x05, b'a', b'b']);
    assert_eq!(p.read_string(), Err(FramingError::Truncated));
    assert_eq!(p.offset, 0);
}

#[test]
fn packet_new_parses_header() {
    // body of the frame: id 1, then a two-byte payload
    let mut b = PacketBuilder::new();
    b.write_var_int(1);
    b.write_uint16(0x1234);
    let p = b.build();
    assert_eq!(p.size, 3);
    assert_eq!(p.id, 1);
    assert_eq!(p.offset, 2);
    assert_eq!(p.body, vec![3, 1, 0x12, 0x34]);
}

#[test]
fn packet_new_placeholder_on_short_input() {
    for body in [vec![], vec![0x05]] {
        let p = Packet::new(body.clone());
        assert_eq!(p.offset, 0);
        assert_eq!(p.size, 0);
        assert_eq!(p.id, 0);
        assert_eq!(p.body, body);
    }
}

#[test]
fn packet_new_placeholder_on_unparsed_header() {
    let p = Packet::new(vec![0x80, 0x80]);
    assert_eq!(p.offset, 0);
    assert_eq!(p.size, 0);
    assert_eq!(p.id, 0);
}

#[test]
fn frame_round_trips_id_and_payload() {
    let mut b = PacketBuilder::new();
    b.write_var_int(0x2A);
    b.write_long(0x0102030405060708);
    let framed = b.build();
    let mut parsed = Packet::new(framed.body.clone());
    assert_eq!(parsed.id, 0x2A);
    assert_eq!(parsed.size as usize, framed.body.len() - 1);
    assert_eq!(parsed.read_long().unwrap(), 0x0102030405060708);
    assert_eq!(parsed.offset as usize, framed.body.len());
}
