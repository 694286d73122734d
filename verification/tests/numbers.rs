//! The typed value helpers: binary and ASCII integers over the wire, and
//! text values.

use pathkvs::client::Connection;
use pathkvs::error::IoErrorKind;
use pathkvs::wire::MemTransport;

fn read_reply(payload: &[u8]) -> Vec<u8> {
    let mut v = vec![2u8];
    v.extend_from_slice(&(payload.len() as u32).to_le_bytes());
    v.extend_from_slice(payload);
    v
}

fn write_reply() -> Vec<u8> {
    vec![3u8]
}

#[test]
fn read_binary_integers() {
    let mut reply = read_reply(&7u8.to_le_bytes());
    reply.extend_from_slice(&read_reply(&300u16.to_le_bytes()));
    reply.extend_from_slice(&read_reply(&70000u32.to_le_bytes()));
    reply.extend_from_slice(&read_reply(&(1u64 << 40).to_le_bytes()));
    reply.extend_from_slice(&read_reply(&(1u128 << 100).to_le_bytes()));
    reply.extend_from_slice(&read_reply(&(-5i8).to_le_bytes()));
    reply.extend_from_slice(&read_reply(&(-300i16).to_le_bytes()));
    reply.extend_from_slice(&read_reply(&(-70000i32).to_le_bytes()));
    reply.extend_from_slice(&read_reply(&(-(1i64 << 40)).to_le_bytes()));
    reply.extend_from_slice(&read_reply(&(-(1i128 << 100)).to_le_bytes()));
    let mut conn = Connection::new(MemTransport::new(reply));
    assert_eq!(conn.read_u8_bin(b"k").unwrap(), 7);
    assert_eq!(conn.read_u16_bin(b"k").unwrap(), 300);
    assert_eq!(conn.read_u32_bin(b"k").unwrap(), 70000);
    assert_eq!(conn.read_u64_bin(b"k").unwrap(), 1 << 40);
    assert_eq!(conn.read_u128_bin(b"k").unwrap(), 1 << 100);
    assert_eq!(conn.read_i8_bin(b"k").unwrap(), -5);
    assert_eq!(conn.read_i16_bin(b"k").unwrap(), -300);
    assert_eq!(conn.read_i32_bin(b"k").unwrap(), -70000);
    assert_eq!(conn.read_i64_bin(b"k").unwrap(), -(1 << 40));
    assert_eq!(conn.read_i128_bin(b"k").unwrap(), -(1 << 100));
}

#[test]
fn read_binary_wrong_width_is_invalid() {
    let reply = read_reply(&[1, 2, 3]);
    let mut conn = Connection::new(MemTransport::new(reply));
    let err = conn.read_u32_bin(b"k").unwrap_err();
    assert_eq!(err.kind, IoErrorKind::InvalidData);
}

#[test]
fn read_binary_opt_empty_is_none() {
    let mut reply = read_reply(&[]);
    reply.extend_from_slice(&read_reply(&9u32.to_le_bytes()));
    let mut conn = Connection::new(MemTransport::new(reply));
    assert_eq!(conn.read_u32_bin_opt(b"k").unwrap(), None);
    assert_eq!(conn.read_u32_bin_opt(b"k").unwrap(), Some(9));
}

#[test]
fn read_ascii_integers() {
    let mut reply = read_reply(b"42");
    reply.extend_from_slice(&read_reply(b"-42"));
    reply.extend_from_slice(&read_reply(b"+7"));
    reply.extend_from_slice(&read_reply(b"255"));
    reply.extend_from_slice(&read_reply(b"-128"));
    let mut conn = Connection::new(MemTransport::new(reply));
    assert_eq!(conn.read_u32(b"k").unwrap(), 42);
    assert_eq!(conn.read_i32(b"k").unwrap(), -42);
    assert_eq!(conn.read_u8(b"k").unwrap(), 7);
    assert_eq!(conn.read_u8(b"k").unwrap(), 255);
    assert_eq!(conn.read_i8(b"k").unwrap(), -128);
}

#[test]
fn read_ascii_rejects_garbage_and_overflow() {
    let mut reply = read_reply(b"4x2");
    reply.extend_from_slice(&read_reply(b"256"));
    reply.extend_from_slice(&read_reply(b"-+5"));
    reply.extend_from_slice(&read_reply(b""));
    let mut conn = Connection::new(MemTransport::new(reply));
    assert_eq!(conn.read_u8(b"k").unwrap_err().kind, IoErrorKind::InvalidData);
    assert_eq!(conn.read_u8(b"k").unwrap_err().kind, IoErrorKind::InvalidData);
    assert_eq!(conn.read_i8(b"k").unwrap_err().kind, IoErrorKind::InvalidData);
    assert_eq!(conn.read_u8(b"k").unwrap_err().kind, IoErrorKind::InvalidData);
}

#[test]
fn read_ascii_opt_empty_is_none() {
    let mut reply = read_reply(b"");
    reply.extend_from_slice(&read_reply(b"19"));
    let mut conn = Connection::new(MemTransport::new(reply));
    assert_eq!(conn.read_u64_opt(b"k").unwrap(), None);
    assert_eq!(conn.read_u64_opt(b"k").unwrap(), Some(19));
}

#[test]
fn write_binary_integers_frame() {
    let mut reply = write_reply();
    reply.extend_from_slice(&write_reply());
    let mut conn = Connection::new(MemTransport::new(reply));
    conn.write_u32_bin(b"k", 0x01020304).unwrap();
    conn.write_i16_bin(b"k", -2).unwrap();
    let mut expect = vec![3u8];
    expect.extend_from_slice(&1u32.to_le_bytes());
    expect.push(b'k');
    expect.extend_from_slice(&4u32.to_le_bytes());
    expect.extend_from_slice(&[4, 3, 2, 1]);
    expect.push(3);
    expect.extend_from_slice(&1u32.to_le_bytes());
    expect.push(b'k');
    expect.extend_from_slice(&2u32.to_le_bytes());
    expect.extend_from_slice(&(-2i16).to_le_bytes());
    assert_eq!(conn.get_inner().outgoing, expect);
}

#[test]
fn write_ascii_integers_frame() {
    let mut reply = write_reply();
    reply.extend_from_slice(&write_reply());
    reply.extend_from_slice(&write_reply());
    let mut conn = Connection::new(MemTransport::new(reply));
    conn.write_u64(b"k", 12345).unwrap();
    conn.write_i32(b"k", -678).unwrap();
    conn.write_i8(b"k", -128).unwrap();
    let mut expect: Vec<u8> = Vec::new();
    for digits in [&b"12345"[..], b"-678", b"-128"] {
        expect.push(3);
        expect.extend_from_slice(&1u32.to_le_bytes());
        expect.push(b'k');
        expect.extend_from_slice(&(digits.len() as u32).to_le_bytes());
        expect.extend_from_slice(digits);
    }
    assert_eq!(conn.get_inner().outgoing, expect);
}

#[test]
fn write_u128_round_trips_through_store() {
    let mut reply = write_reply();
    reply.extend_from_slice(&read_reply(&(1u128 << 90).to_le_bytes()));
    let mut conn = Connection::new(MemTransport::new(reply));
    conn.write_u128_bin(b"k", 1 << 90).unwrap();
    // The bytes the client sent are the bytes a read hands back.
    let sent = conn.get_inner().outgoing.clone();
    assert_eq!(&sent[sent.len() - 16..], &(1u128 << 90).to_le_bytes()[..]);
    assert_eq!(conn.read_u128_bin(b"k").unwrap(), 1 << 90);
}

#[test]
fn clear_writes_the_empty_value() {
    let reply = write_reply();
    let mut conn = Connection::new(MemTransport::new(reply));
    conn.clear(b"k").unwrap();
    let mut expect = vec![3u8];
    expect.extend_from_slice(&1u32.to_le_bytes());
    expect.push(b'k');
    expect.extend_from_slice(&0u32.to_le_bytes());
    assert_eq!(conn.get_inner().outgoing, expect);
}

#[test]
fn read_str_decodes_utf8() {
    let mut reply = read_reply("héllo".as_bytes());
    reply.extend_from_slice(&read_reply(&[0xff, 0xfe]));
    let mut conn = Connection::new(MemTransport::new(reply));
    assert_eq!(conn.read_str(b"k").unwrap(), "héllo");
    let err = conn.read_str(b"k").unwrap_err();
    assert_eq!(err.kind, IoErrorKind::InvalidData);
}
