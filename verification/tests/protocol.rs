//! The wire protocol: client framing, the server loop, and the typed
//! helpers, all over the in-memory transport.

use pathkvs::client::Connection;
use pathkvs::error::{IoErrorKind, TransactionConflict, TransactionError, TransposeConflict};
use pathkvs::server::{serve, DbServer};
use pathkvs::store::Database;
use pathkvs::wire::MemTransport;

fn lengthed(b: &[u8]) -> Vec<u8> {
    let mut v = (b.len() as u32).to_le_bytes().to_vec();
    v.extend_from_slice(b);
    v
}

#[test]
fn client_len_frames() {
    // Server answers: LEN opcode, then the length 5.
    let mut reply = vec![1u8];
    reply.extend_from_slice(&5u32.to_le_bytes());
    let mut conn = Connection::new(MemTransport::new(reply));
    assert_eq!(conn.len(b"ab").unwrap(), 5);
    let mut expect = vec![1u8];
    expect.extend_from_slice(&lengthed(b"ab"));
    assert_eq!(conn.get_inner().outgoing, expect);
}

#[test]
fn client_read_and_limit() {
    let mut reply = vec![2u8];
    reply.extend_from_slice(&lengthed(b"value"));
    reply.push(254);
    let mut conn = Connection::new(MemTransport::new(reply));
    assert_eq!(conn.read(b"k").unwrap(), b"value".to_vec());
    assert_eq!(conn.read_limited_opt(b"k", 3).unwrap(), None);
    let err = conn.read_limited(b"k", 3).unwrap_err();
    assert_eq!(err.kind, IoErrorKind::UnexpectedEof);
}

#[test]
fn client_limit_exceeded_kind() {
    let reply = vec![254u8];
    let mut conn = Connection::new(MemTransport::new(reply));
    let err = conn.read_limited(b"k", 3).unwrap_err();
    assert_eq!(err.kind, IoErrorKind::LimitExceeded);
}

#[test]
fn client_write_and_commit_frames() {
    let reply = vec![3u8, 4u8, 5u8, 255u8];
    let mut conn = Connection::new(MemTransport::new(reply));
    conn.write(b"k", b"v").unwrap();
    conn.start_transaction().unwrap();
    conn.commit().unwrap();
    match conn.commit() {
        Err(TransactionError::Conflict) => {}
        _ => panic!("expected the conflict reply to surface"),
    }
    let mut expect = vec![3u8];
    expect.extend_from_slice(&lengthed(b"k"));
    expect.extend_from_slice(&lengthed(b"v"));
    expect.extend_from_slice(&[4, 5, 5]);
    assert_eq!(conn.get_inner().outgoing, expect);
}

#[test]
fn client_protocol_error_on_wrong_opcode() {
    let reply = vec![9u8];
    let mut conn = Connection::new(MemTransport::new(reply));
    let err = conn.rollback().unwrap_err();
    assert_eq!(err.kind, IoErrorKind::InvalidData);
}

#[test]
fn serve_write_then_read() {
    let mut request = vec![3u8];
    request.extend_from_slice(&lengthed(b"k"));
    request.extend_from_slice(&lengthed(b"v"));
    request.push(2);
    request.extend_from_slice(&lengthed(b"k"));
    request.extend_from_slice(&u32::MAX.to_le_bytes());
    let mut stream = MemTransport::new(request);
    let mut server = DbServer::new(Database::memory());
    serve(&mut stream, &mut server).unwrap();
    let mut expect = vec![3u8, 2u8];
    expect.extend_from_slice(&lengthed(b"v"));
    assert_eq!(stream.outgoing, expect);
}

#[test]
fn serve_transaction_roundtrip() {
    let mut request = vec![4u8];
    request.push(3);
    request.extend_from_slice(&lengthed(b"a"));
    request.extend_from_slice(&lengthed(b"1"));
    request.push(5);
    request.push(1);
    request.extend_from_slice(&lengthed(b"a"));
    let mut stream = MemTransport::new(request);
    let mut server = DbServer::new(Database::memory());
    serve(&mut stream, &mut server).unwrap();
    let mut expect = vec![4u8, 3u8, 5u8, 1u8];
    expect.extend_from_slice(&1u32.to_le_bytes());
    assert_eq!(stream.outgoing, expect);
    assert_eq!(server.into_db().read(b"a"), b"1".to_vec());
}

#[test]
fn serve_list_and_scan() {
    let mut db = Database::memory();
    db.write(b"x1", b"a");
    db.write(b"x2", b"bb");
    let mut request = vec![7u8];
    request.extend_from_slice(&lengthed(b"x"));
    request.extend_from_slice(&lengthed(b""));
    request.push(8);
    request.extend_from_slice(&lengthed(b"x"));
    request.extend_from_slice(&lengthed(b""));
    request.extend_from_slice(&u32::MAX.to_le_bytes());
    request.push(9);
    request.extend_from_slice(&lengthed(b"x"));
    request.extend_from_slice(&lengthed(b""));
    request.extend_from_slice(&u32::MAX.to_le_bytes());
    let mut stream = MemTransport::new(request);
    let mut server = DbServer::new(db);
    serve(&mut stream, &mut server).unwrap();
    let mut expect = vec![7u8];
    expect.extend_from_slice(&2u32.to_le_bytes());
    expect.push(8);
    expect.extend_from_slice(&2u32.to_le_bytes());
    expect.extend_from_slice(&lengthed(b"x1"));
    expect.extend_from_slice(&lengthed(b"x2"));
    expect.push(9);
    expect.extend_from_slice(&2u32.to_le_bytes());
    expect.extend_from_slice(&lengthed(b"x1"));
    expect.extend_from_slice(&lengthed(b"a"));
    expect.extend_from_slice(&lengthed(b"x2"));
    expect.extend_from_slice(&lengthed(b"bb"));
    assert_eq!(stream.outgoing, expect);
}

#[test]
fn serve_scan_respects_client_cap() {
    let mut db = Database::memory();
    db.write(b"x1", b"abcdef");
    let mut request = vec![9u8];
    request.extend_from_slice(&lengthed(b"x"));
    request.extend_from_slice(&lengthed(b""));
    request.extend_from_slice(&4u32.to_le_bytes());
    let mut stream = MemTransport::new(request);
    let mut server = DbServer::new(db);
    serve(&mut stream, &mut server).unwrap();
    assert_eq!(stream.outgoing, vec![254u8]);
}

#[test]
fn serve_rejects_unknown_opcode() {
    let mut stream = MemTransport::new(vec![77u8]);
    let mut server = DbServer::new(Database::memory());
    let err = serve(&mut stream, &mut server).unwrap_err();
    assert_eq!(err.kind, IoErrorKind::InvalidData);
}

#[test]
fn serve_write_rejected_in_snapshot_mode() {
    let mut server = DbServer::new(Database::memory());
    server.start_snapshot(None).unwrap();
    let mut request = vec![3u8];
    request.extend_from_slice(&lengthed(b"k"));
    request.extend_from_slice(&lengthed(b"v"));
    let mut stream = MemTransport::new(request);
    let err = serve(&mut stream, &mut server).unwrap_err();
    assert_eq!(err.kind, IoErrorKind::InvalidData);
}

#[test]
fn loopback_client_server() {
    // Drive a scripted client exchange: the client's bytes become the
    // server's input, and the server's reply becomes the client's input.
    let mut client = Connection::new(MemTransport::new(Vec::new()));
    let _ = client.write(b"k", b"hello");
    let requests = client.get_inner().outgoing.clone();
    let mut stream = MemTransport::new(requests);
    let mut server = DbServer::new(Database::memory());
    serve(&mut stream, &mut server).unwrap();
    let mut conn = Connection::new(MemTransport::new(stream.outgoing));
    conn.write(b"k", b"hello").unwrap();
    assert_eq!(server.into_db().read(b"k"), b"hello".to_vec());
}

#[test]
fn transpose_conflict_splits_results() {
    let ok: Result<u8, TransactionError> = Ok(7);
    assert!(matches!(ok.transpose_conflict(), Ok(Ok(7))));
    let conflict: Result<u8, TransactionError> = Err(TransactionError::Conflict);
    assert!(matches!(conflict.transpose_conflict(), Ok(Err(TransactionConflict))));
    let io: Result<u8, TransactionError> = Err(TransactionError::Io(
        pathkvs::error::IoError::new(IoErrorKind::Other),
    ));
    match io.transpose_conflict() {
        Err(e) => assert_eq!(e.kind, IoErrorKind::Other),
        _ => panic!("expected the I/O error to pass through"),
    }
}

#[test]
fn serve_treats_midframe_eof_as_hangup() {
    // A WRITE opcode whose payload never arrives: the peer hung up.
    let mut request = vec![3u8];
    request.extend_from_slice(&10u32.to_le_bytes());
    request.extend_from_slice(b"shor");
    let mut stream = MemTransport::new(request);
    let mut server = DbServer::new(Database::memory());
    assert!(serve(&mut stream, &mut server).is_ok());
    assert!(stream.outgoing.is_empty());
}

#[test]
fn serve_scan_at_exact_cap_replies() {
    // Total reply bytes equal to the cap: only exceeding it is refused.
    let mut db = Database::memory();
    db.write(b"x1", b"ab");
    let mut request = vec![9u8];
    request.extend_from_slice(&lengthed(b"x"));
    request.extend_from_slice(&lengthed(b""));
    request.extend_from_slice(&4u32.to_le_bytes());
    let mut stream = MemTransport::new(request);
    let mut server = DbServer::new(db);
    serve(&mut stream, &mut server).unwrap();
    let mut expect = vec![9u8];
    expect.extend_from_slice(&1u32.to_le_bytes());
    expect.extend_from_slice(&lengthed(b"x1"));
    expect.extend_from_slice(&lengthed(b"ab"));
    assert_eq!(stream.outgoing, expect);
}
