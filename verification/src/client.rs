//! The client side of the wire protocol.
//!
//! A connection wraps a transport and speaks the request/response protocol:
//! each method sends one request frame, flushes, and reads one response
//! frame.  The contracts describe the exact bytes handed to the transport
//! and the exact bytes consumed from it on every successful call, so the
//! framing itself is verified; what the peer chooses to answer is not
//! constrained.
//!
//! On top of the raw byte operations sit typed helpers: `_bin` variants
//! move fixed-width little-endian integers, the plain variants move ASCII
//! decimal numbers, and `_opt` variants read an unset (empty) value as
//! `None`.

use vstd::prelude::*;

use vstd::bytes::{
    spec_u16_from_le_bytes, spec_u32_from_le_bytes, spec_u32_to_le_bytes, spec_u64_from_le_bytes,
    u16_from_le_bytes, u16_to_le_bytes, u32_from_le_bytes, u32_to_le_bytes, u64_from_le_bytes,
    u64_to_le_bytes,
};

use crate::error::{IoError, IoErrorKind, TransactionError};
use crate::wire::{
    ascii_parsed, ascii_parsed_signed, dec_digits, lengthed, lengthed_all, lengthed_pairs,
    parse_ascii_u128, format_u128, Transport, OP_COMMIT, OP_CONFLICT, OP_COUNT, OP_LEN,
    OP_LIMIT_EXCEEDED, OP_LIST, OP_READ, OP_ROLLBACK, OP_SCAN, OP_START_TRANSACTION, OP_WRITE,
};

verus! {

/// The request frame of `len`.
pub open spec fn len_request(key: Seq<u8>) -> Seq<u8> {
    seq![OP_LEN] + lengthed(key)
}

/// The request frame of `read`.
pub open spec fn read_request(key: Seq<u8>, max: u32) -> Seq<u8> {
    seq![OP_READ] + lengthed(key) + spec_u32_to_le_bytes(max)
}

/// The request frame of `write`.
pub open spec fn write_request(key: Seq<u8>, value: Seq<u8>) -> Seq<u8> {
    seq![OP_WRITE] + lengthed(key) + lengthed(value)
}

/// The request frame of `count`.
pub open spec fn count_request(start: Seq<u8>, end: Seq<u8>) -> Seq<u8> {
    seq![OP_COUNT] + lengthed(start) + lengthed(end)
}

/// The request frame of `list` or `scan`.
pub open spec fn range_request(op: u8, start: Seq<u8>, end: Seq<u8>, max: u32) -> Seq<u8> {
    seq![op] + lengthed(start) + lengthed(end) + spec_u32_to_le_bytes(max)
}

/// The response frame of a successful `read`.
pub open spec fn read_reply(payload: Seq<u8>) -> Seq<u8> {
    seq![OP_READ] + lengthed(payload)
}

/// The ASCII encoding the write helpers use for a signed number.
pub open spec fn dec_signed(n: int) -> Seq<u8> {
    if n < 0 {
        seq![45u8] + dec_digits(-n)
    } else {
        dec_digits(n)
    }
}

/// The little-endian encoding of a 128-bit number as two 64-bit halves.
pub open spec fn le_u128(n: u128) -> Seq<u8> {
    vstd::bytes::spec_u64_to_le_bytes((n % 0x1_0000_0000_0000_0000) as u64)
        + vstd::bytes::spec_u64_to_le_bytes((n / 0x1_0000_0000_0000_0000) as u64)
}

/// A client connection over some transport.
pub struct Connection<T> {
    conn: T,
}

impl<T: Transport> Connection<T> {
    /// Everything this connection has handed to its transport.
    pub closed spec fn sent(&self) -> Seq<u8> {
        self.conn.sent()
    }

    /// Everything this connection has consumed from its transport.
    pub closed spec fn taken(&self) -> Seq<u8> {
        self.conn.taken()
    }

    pub fn new(inner: T) -> (r: Connection<T>)
        ensures
            r.sent() == inner.sent(),
            r.taken() == inner.taken(),
    {
        Connection { conn: inner }
    }

    /// The transport underneath, for callers that must reach it.
    pub fn get_inner(&mut self) -> &mut T {
        &mut self.conn
    }

    /// Send a single opcode byte.
    fn send_u8(&mut self, b: u8) -> (r: Result<(), IoError>)
        ensures
            r is Ok ==> final(self).sent() == old(self).sent() + seq![b] && final(self).taken()
                == old(self).taken(),
            r matches Err(e) ==> e.kind != IoErrorKind::LimitExceeded,
    {
        let buf: [u8; 1] = [b];
        let res = self.conn.send(buf.as_slice());
        proof {
            if res is Ok {
                assert(buf@ =~= seq![b]);
            }
        }
        res
    }

    /// Send a u32, little-endian.
    fn send_u32(&mut self, x: u32) -> (r: Result<(), IoError>)
        ensures
            r is Ok ==> final(self).sent() == old(self).sent() + spec_u32_to_le_bytes(x) && final(self).taken() == old(self).taken(),
            r matches Err(e) ==> e.kind != IoErrorKind::LimitExceeded,
    {
        let buf = u32_to_le_bytes(x);
        self.conn.send(buf.as_slice())
    }

    /// Send a byte string prefixed with its length.
    fn send_lengthed(&mut self, chunk: &[u8]) -> (r: Result<(), IoError>)
        requires
            chunk@.len() <= u32::MAX,
        ensures
            r is Ok ==> final(self).sent() == old(self).sent() + lengthed(chunk@) && final(self).taken() == old(self).taken(),
            r matches Err(e) ==> e.kind != IoErrorKind::LimitExceeded,
    {
        match self.send_u32(chunk.len() as u32) {
            Ok(()) => {},
            Err(e) => {
                return Err(e);
            },
        }
        let r2 = self.conn.send(chunk);
        proof {
            if r2 is Ok {
                assert(old(self).sent() + spec_u32_to_le_bytes(chunk@.len() as u32) + chunk@
                    =~= old(self).sent() + lengthed(chunk@));
            }
        }
        r2
    }

    /// Read a single opcode byte.
    fn recv_u8(&mut self) -> (r: Result<u8, IoError>)
        ensures
            r matches Ok(b) ==> final(self).taken() == old(self).taken() + seq![b] && final(self).sent() == old(self).sent(),
            r matches Err(e) ==> e.kind != IoErrorKind::LimitExceeded,
    {
        match self.conn.recv(1) {
            Ok(v) => {
                proof {
                    assert(v@ =~= seq![v@[0]]);
                }
                Ok(v[0])
            },
            Err(e) => Err(e),
        }
    }

    /// Read a u32, little-endian.
    fn recv_u32(&mut self) -> (r: Result<u32, IoError>)
        ensures
            r matches Ok(x) ==> final(self).taken() == old(self).taken() + spec_u32_to_le_bytes(x)
                && final(self).sent() == old(self).sent(),
            r matches Err(e) ==> e.kind != IoErrorKind::LimitExceeded,
    {
        match self.conn.recv(4) {
            Ok(v) => {
                let x = u32_from_le_bytes(v.as_slice());
                proof {
                    vstd::bytes::lemma_auto_spec_u32_to_from_le_bytes();
                }
                Ok(x)
            },
            Err(e) => Err(e),
        }
    }

    /// The length of the value stored under `key`.
    pub fn len(&mut self, key: &[u8]) -> (r: Result<u32, IoError>)
        requires
            key@.len() <= u32::MAX,
        ensures
            r matches Ok(n) ==> (if key@.len() == 0 {
                n == 0 && final(self).sent() == old(self).sent() && final(self).taken() == old(self).taken()
            } else {
                final(self).sent() == old(self).sent() + len_request(key@) && final(self).taken()
                    == old(self).taken() + seq![OP_LEN] + spec_u32_to_le_bytes(n)
            }),
            key@.len() == 0 ==> r == Ok::<u32, IoError>(0u32) && *final(self) == *old(self),
    {
        if key.len() == 0 {
            return Ok(0);
        }
        self.send_u8(OP_LEN)?;
        self.send_lengthed(key)?;
        self.conn.flush()?;
        let op = self.recv_u8()?;
        if op != OP_LEN {
            return Err(IoError::protocol());
        }
        let n = self.recv_u32()?;
        proof {
            assert(old(self).sent() + seq![OP_LEN] + lengthed(key@) =~= old(self).sent()
                + len_request(key@));
        }
        Ok(n)
    }

    /// Read the value under `key`; `Ok(None)` when the server reports the
    /// value longer than `max_len`.
    pub fn read_limited_opt(&mut self, key: &[u8], max_len: u32) -> (r: Result<
        Option<Vec<u8>>,
        IoError,
    >)
        requires
            key@.len() <= u32::MAX,
        ensures
            r matches Ok(Some(v)) ==> (if key@.len() == 0 {
                v@.len() == 0 && final(self).sent() == old(self).sent() && final(self).taken()
                    == old(self).taken()
            } else {
                final(self).sent() == old(self).sent() + read_request(key@, max_len) && final(self).taken() == old(self).taken() + read_reply(v@) && v@.len() <= max_len
            }),
            r matches Ok(None) ==> key@.len() > 0 && final(self).sent() == old(self).sent()
                + read_request(key@, max_len) && final(self).taken() == old(self).taken() + seq![
                OP_LIMIT_EXCEEDED,
            ],
            key@.len() == 0 ==> (r matches Ok(ov) && ov matches Some(v) && v@.len() == 0
                && *final(self) == *old(self)),
            r matches Err(e) ==> e.kind != IoErrorKind::LimitExceeded,
    {
        if key.len() == 0 {
            return Ok(Some(Vec::new()));
        }
        self.send_u8(OP_READ)?;
        self.send_lengthed(key)?;
        self.send_u32(max_len)?;
        self.conn.flush()?;
        proof {
            assert(old(self).sent() + seq![OP_READ] + lengthed(key@) + spec_u32_to_le_bytes(
                max_len,
            ) =~= old(self).sent() + read_request(key@, max_len));
        }
        let op = self.recv_u8()?;
        if op == OP_READ {
            let n = self.recv_u32()?;
            if n > max_len {
                return Err(IoError::protocol());
            }
            let v = self.conn.recv(n as usize)?;
            proof {
                assert(old(self).taken() + seq![OP_READ] + spec_u32_to_le_bytes(n) + v@ =~= old(self).taken() + read_reply(v@));
            }
            Ok(Some(v))
        } else if op == OP_LIMIT_EXCEEDED {
            Ok(None)
        } else {
            Err(IoError::protocol())
        }
    }

    /// As `read_limited_opt`, turning an exceeded cap into an error.
    pub fn read_limited(&mut self, key: &[u8], max_len: u32) -> (r: Result<Vec<u8>, IoError>)
        requires
            key@.len() <= u32::MAX,
        ensures
            r matches Ok(v) ==> (if key@.len() == 0 {
                v@.len() == 0 && final(self).sent() == old(self).sent() && final(self).taken()
                    == old(self).taken()
            } else {
                final(self).sent() == old(self).sent() + read_request(key@, max_len) && final(self).taken() == old(self).taken() + read_reply(v@) && v@.len() <= max_len
            }),
            key@.len() == 0 ==> r is Ok && *final(self) == *old(self),
            r matches Err(e) && e.kind == IoErrorKind::LimitExceeded ==> final(self).sent()
                == old(self).sent() + read_request(key@, max_len) && final(self).taken() == old(
                self).taken() + seq![OP_LIMIT_EXCEEDED],
    {
        match self.read_limited_opt(key, max_len)? {
            Some(v) => Ok(v),
            None => Err(IoError::new(IoErrorKind::LimitExceeded)),
        }
    }

    /// Read the value under `key` with no client-side cap.
    pub fn read(&mut self, key: &[u8]) -> (r: Result<Vec<u8>, IoError>)
        requires
            key@.len() <= u32::MAX,
        ensures
            r matches Ok(v) ==> (if key@.len() == 0 {
                v@.len() == 0 && final(self).sent() == old(self).sent() && final(self).taken()
                    == old(self).taken()
            } else {
                final(self).sent() == old(self).sent() + read_request(key@, u32::MAX) && final(self).taken() == old(self).taken() + read_reply(v@)
            }),
            key@.len() == 0 ==> r is Ok && *final(self) == *old(self),
    {
        self.read_limited(key, u32::MAX)
    }

    /// Write `value` under `key`.  The empty key is reserved and ignored.
    pub fn write(&mut self, key: &[u8], value: &[u8]) -> (r: Result<(), IoError>)
        requires
            key@.len() <= u32::MAX,
            value@.len() <= u32::MAX,
        ensures
            r is Ok ==> (if key@.len() == 0 {
                final(self).sent() == old(self).sent() && final(self).taken() == old(self).taken()
            } else {
                final(self).sent() == old(self).sent() + write_request(key@, value@) && final(self).taken() == old(self).taken() + seq![OP_WRITE]
            }),
            key@.len() == 0 ==> r is Ok && *final(self) == *old(self),
    {
        if key.len() == 0 {
            return Ok(());
        }
        self.send_u8(OP_WRITE)?;
        self.send_lengthed(key)?;
        self.send_lengthed(value)?;
        self.conn.flush()?;
        proof {
            assert(old(self).sent() + seq![OP_WRITE] + lengthed(key@) + lengthed(value@) =~= old(self).sent() + write_request(key@, value@));
        }
        let op = self.recv_u8()?;
        if op != OP_WRITE {
            return Err(IoError::protocol());
        }
        Ok(())
    }

    /// Erase `key` by writing the empty value.
    pub fn clear(&mut self, key: &[u8]) -> (r: Result<(), IoError>)
        requires
            key@.len() <= u32::MAX,
        ensures
            r is Ok ==> (if key@.len() == 0 {
                final(self).sent() == old(self).sent() && final(self).taken() == old(self).taken()
            } else {
                final(self).sent() == old(self).sent() + write_request(key@, Seq::empty())
                    && final(self).taken() == old(self).taken() + seq![OP_WRITE]
            }),
            key@.len() == 0 ==> r is Ok && *final(self) == *old(self),
            key@.len() == 0 ==> r is Ok && *final(self) == *old(self),
    {
        let empty: [u8; 0] = [];
        let r = self.write(key, empty.as_slice());
        proof {
            assert(empty@ =~= Seq::<u8>::empty());
        }
        r
    }

    /// Enter a transaction; any current transaction or snapshot is dropped.
    pub fn start_transaction(&mut self) -> (r: Result<(), IoError>)
        ensures
            r is Ok ==> final(self).sent() == old(self).sent() + seq![OP_START_TRANSACTION]
                && final(self).taken() == old(self).taken() + seq![OP_START_TRANSACTION],
    {
        self.send_u8(OP_START_TRANSACTION)?;
        self.conn.flush()?;
        let op = self.recv_u8()?;
        if op != OP_START_TRANSACTION {
            return Err(IoError::protocol());
        }
        Ok(())
    }

    /// Commit the current transaction; `Conflict` is recoverable.
    pub fn commit(&mut self) -> (r: Result<(), TransactionError>)
        ensures
            r is Ok ==> final(self).sent() == old(self).sent() + seq![OP_COMMIT] && final(self).taken() == old(self).taken() + seq![OP_COMMIT],
            r matches Err(e) && e is Conflict ==> final(self).sent() == old(self).sent() + seq![
                OP_COMMIT,
            ] && final(self).taken() == old(self).taken() + seq![OP_CONFLICT],
    {
        match self.send_u8(OP_COMMIT) {
            Ok(()) => {},
            Err(e) => {
                return Err(TransactionError::Io(e));
            },
        }
        match self.conn.flush() {
            Ok(()) => {},
            Err(e) => {
                return Err(TransactionError::Io(e));
            },
        }
        match self.recv_u8() {
            Ok(op) => {
                if op == OP_COMMIT {
                    Ok(())
                } else if op == OP_CONFLICT {
                    Err(TransactionError::Conflict)
                } else {
                    Err(TransactionError::Io(IoError::protocol()))
                }
            },
            Err(e) => Err(TransactionError::Io(e)),
        }
    }

    /// Abandon the current transaction or snapshot.
    pub fn rollback(&mut self) -> (r: Result<(), IoError>)
        ensures
            r is Ok ==> final(self).sent() == old(self).sent() + seq![OP_ROLLBACK] && final(self).taken() == old(self).taken() + seq![OP_ROLLBACK],
    {
        self.send_u8(OP_ROLLBACK)?;
        self.conn.flush()?;
        let op = self.recv_u8()?;
        if op != OP_ROLLBACK {
            return Err(IoError::protocol());
        }
        Ok(())
    }

    /// How many keys start with `start` and end with `end`.
    pub fn count(&mut self, start: &[u8], end: &[u8]) -> (r: Result<u32, IoError>)
        requires
            start@.len() + end@.len() <= u32::MAX,
        ensures
            r matches Ok(n) ==> final(self).sent() == old(self).sent() + count_request(
                start@,
                end@,
            ) && final(self).taken() == old(self).taken() + seq![OP_COUNT]
                + spec_u32_to_le_bytes(n),
    {
        self.send_u8(OP_COUNT)?;
        self.send_lengthed(start)?;
        self.send_lengthed(end)?;
        self.conn.flush()?;
        proof {
            assert(old(self).sent() + seq![OP_COUNT] + lengthed(start@) + lengthed(end@) =~= old(self).sent() + count_request(start@, end@));
        }
        let op = self.recv_u8()?;
        if op != OP_COUNT {
            return Err(IoError::protocol());
        }
        self.recv_u32()
    }

    /// List the matching keys; `Ok(None)` when the total reply would exceed
    /// `max_len` bytes.
    pub fn list_limited_opt(&mut self, start: &[u8], end: &[u8], max_len: u32) -> (r: Result<
        Option<Vec<Vec<u8>>>,
        IoError,
    >)
        requires
            start@.len() + end@.len() <= u32::MAX,
        ensures
            r matches Ok(Some(rows)) ==> final(self).sent() == old(self).sent() + range_request(
                OP_LIST,
                start@,
                end@,
                max_len,
            ) && final(self).taken() == old(self).taken() + seq![OP_LIST]
                + spec_u32_to_le_bytes(rows@.len() as u32) + lengthed_all(
                crate::query::key_views(rows@),
            ),
            r matches Ok(None) ==> final(self).sent() == old(self).sent() + range_request(
                OP_LIST,
                start@,
                end@,
                max_len,
            ) && final(self).taken() == old(self).taken() + seq![OP_LIMIT_EXCEEDED],
            r matches Err(e) ==> e.kind != IoErrorKind::LimitExceeded,
            r matches Ok(Some(rows)) ==> crate::wire::total_key_len(crate::query::key_views(
                rows@,
            )) <= max_len,
    {
        self.send_u8(OP_LIST)?;
        self.send_lengthed(start)?;
        self.send_lengthed(end)?;
        self.send_u32(max_len)?;
        self.conn.flush()?;
        proof {
            assert(old(self).sent() + seq![OP_LIST] + lengthed(start@) + lengthed(end@)
                + spec_u32_to_le_bytes(max_len) =~= old(self).sent() + range_request(
                OP_LIST,
                start@,
                end@,
                max_len,
            ));
        }
        let op = self.recv_u8()?;
        if op == OP_LIMIT_EXCEEDED {
            return Ok(None);
        }
        if op != OP_LIST {
            return Err(IoError::protocol());
        }
        let rowc = self.recv_u32()?;
        let ghost base = self.taken();
        let mut total: u32 = 0;
        let mut rows: Vec<Vec<u8>> = Vec::new();
        let mut i: u32 = 0;
        while i < rowc
            invariant
                0 <= i <= rowc,
                rows@.len() == i,
                self.sent() == old(self).sent() + range_request(OP_LIST, start@, end@, max_len),
                self.taken() == base + lengthed_all(crate::query::key_views(rows@)),
                total <= max_len,
                total as int == crate::wire::total_key_len(crate::query::key_views(rows@)),
            decreases rowc - i,
        {
            let ghost prev_rows = rows@;
            let n = self.recv_u32()?;
            match total.checked_add(n) {
                Some(t) => {
                    if t > max_len {
                        return Err(IoError::protocol());
                    }
                    total = t;
                },
                None => {
                    return Err(IoError::protocol());
                },
            }
            let row = self.conn.recv(n as usize)?;
            let ghost rv = row@;
            rows.push(row);
            proof {
                let kv = crate::query::key_views(rows@);
                assert(rv.len() as u32 == n);
                assert(kv =~= crate::query::key_views(prev_rows).push(rv));
                crate::wire::lemma_total_key_len_snoc(crate::query::key_views(prev_rows), rv);
                crate::wire::lemma_lengthed_all_snoc(crate::query::key_views(prev_rows), rv);
                assert(self.taken() =~= base + (lengthed_all(crate::query::key_views(prev_rows))
                    + (spec_u32_to_le_bytes(n) + rv)));
                assert(lengthed(rv) =~= spec_u32_to_le_bytes(n) + rv);
            }
            i = i + 1;
        }
        proof {
            vstd::bytes::lemma_auto_spec_u32_to_from_le_bytes();
        }
        Ok(Some(rows))
    }

    /// As `list_limited_opt`, turning an exceeded cap into an error.
    pub fn list_limited(&mut self, start: &[u8], end: &[u8], max_len: u32) -> (r: Result<
        Vec<Vec<u8>>,
        IoError,
    >)
        requires
            start@.len() + end@.len() <= u32::MAX,
        ensures
            r matches Ok(rows) ==> final(self).sent() == old(self).sent() + range_request(
                OP_LIST,
                start@,
                end@,
                max_len,
            ) && final(self).taken() == old(self).taken() + seq![OP_LIST]
                + spec_u32_to_le_bytes(rows@.len() as u32) + lengthed_all(
                crate::query::key_views(rows@),
            ),
            r matches Err(e) && e.kind == IoErrorKind::LimitExceeded ==> final(self).sent()
                == old(self).sent() + range_request(OP_LIST, start@, end@, max_len) && final(
                self).taken() == old(self).taken() + seq![OP_LIMIT_EXCEEDED],
            r matches Ok(rows) ==> crate::wire::total_key_len(crate::query::key_views(rows@))
                <= max_len,
    {
        match self.list_limited_opt(start, end, max_len)? {
            Some(rows) => Ok(rows),
            None => Err(IoError::new(IoErrorKind::LimitExceeded)),
        }
    }

    /// List the matching keys with no client-side cap.
    pub fn list(&mut self, start: &[u8], end: &[u8]) -> (r: Result<Vec<Vec<u8>>, IoError>)
        requires
            start@.len() + end@.len() <= u32::MAX,
        ensures
            r matches Ok(rows) ==> final(self).sent() == old(self).sent() + range_request(
                OP_LIST,
                start@,
                end@,
                u32::MAX,
            ) && final(self).taken() == old(self).taken() + seq![OP_LIST]
                + spec_u32_to_le_bytes(rows@.len() as u32) + lengthed_all(
                crate::query::key_views(rows@),
            ),
    {
        self.list_limited(start, end, u32::MAX)
    }

    /// Scan the matching keys and values; `Ok(None)` when the total reply
    /// would exceed `max_len` bytes.
    pub fn scan_limited_opt(&mut self, start: &[u8], end: &[u8], max_len: u32) -> (r: Result<
        Option<Vec<(Vec<u8>, Vec<u8>)>>,
        IoError,
    >)
        requires
            start@.len() + end@.len() <= u32::MAX,
        ensures
            r matches Ok(Some(rows)) ==> final(self).sent() == old(self).sent() + range_request(
                OP_SCAN,
                start@,
                end@,
                max_len,
            ) && final(self).taken() == old(self).taken() + seq![OP_SCAN]
                + spec_u32_to_le_bytes(rows@.len() as u32) + lengthed_pairs(
                crate::changes::entry_views(rows@),
            ),
            r matches Ok(None) ==> final(self).sent() == old(self).sent() + range_request(
                OP_SCAN,
                start@,
                end@,
                max_len,
            ) && final(self).taken() == old(self).taken() + seq![OP_LIMIT_EXCEEDED],
            r matches Err(e) ==> e.kind != IoErrorKind::LimitExceeded,
            r matches Ok(Some(rows)) ==> crate::wire::total_pair_len(
                crate::changes::entry_views(rows@),
            ) <= max_len,
    {
        self.send_u8(OP_SCAN)?;
        self.send_lengthed(start)?;
        self.send_lengthed(end)?;
        self.send_u32(max_len)?;
        self.conn.flush()?;
        proof {
            assert(old(self).sent() + seq![OP_SCAN] + lengthed(start@) + lengthed(end@)
                + spec_u32_to_le_bytes(max_len) =~= old(self).sent() + range_request(
                OP_SCAN,
                start@,
                end@,
                max_len,
            ));
        }
        let op = self.recv_u8()?;
        if op == OP_LIMIT_EXCEEDED {
            return Ok(None);
        }
        if op != OP_SCAN {
            return Err(IoError::protocol());
        }
        let rowc = self.recv_u32()?;
        let ghost base = self.taken();
        let mut total: u32 = 0;
        let mut rows: Vec<(Vec<u8>, Vec<u8>)> = Vec::new();
        let mut i: u32 = 0;
        while i < rowc
            invariant
                0 <= i <= rowc,
                rows@.len() == i,
                self.sent() == old(self).sent() + range_request(OP_SCAN, start@, end@, max_len),
                self.taken() == base + lengthed_pairs(crate::changes::entry_views(rows@)),
                total <= max_len,
                total as int == crate::wire::total_pair_len(crate::changes::entry_views(rows@)),
            decreases rowc - i,
        {
            let ghost prev_rows = rows@;
            let kn = self.recv_u32()?;
            match total.checked_add(kn) {
                Some(t) => {
                    if t > max_len {
                        return Err(IoError::protocol());
                    }
                    total = t;
                },
                None => {
                    return Err(IoError::protocol());
                },
            }
            let k = self.conn.recv(kn as usize)?;
            let vn = self.recv_u32()?;
            match total.checked_add(vn) {
                Some(t) => {
                    if t > max_len {
                        return Err(IoError::protocol());
                    }
                    total = t;
                },
                None => {
                    return Err(IoError::protocol());
                },
            }
            let v = self.conn.recv(vn as usize)?;
            let ghost kview = k@;
            let ghost vview = v@;
            rows.push((k, v));
            proof {
                let ev = crate::changes::entry_views(rows@);
                assert(kview.len() as u32 == kn);
                assert(vview.len() as u32 == vn);
                assert(ev =~= crate::changes::entry_views(prev_rows).push((kview, vview)));
                crate::wire::lemma_total_pair_len_snoc(
                    crate::changes::entry_views(prev_rows),
                    (kview, vview),
                );
                crate::wire::lemma_lengthed_pairs_snoc(crate::changes::entry_views(prev_rows), (kview, vview));
                assert(lengthed(kview) =~= spec_u32_to_le_bytes(kn) + kview);
                assert(lengthed(vview) =~= spec_u32_to_le_bytes(vn) + vview);
                assert(self.taken() =~= base + ((lengthed_pairs(
                    crate::changes::entry_views(prev_rows),
                ) + lengthed(kview)) + lengthed(vview)));
            }
            i = i + 1;
        }
        Ok(Some(rows))
    }

    /// As `scan_limited_opt`, turning an exceeded cap into an error.
    pub fn scan_limited(&mut self, start: &[u8], end: &[u8], max_len: u32) -> (r: Result<
        Vec<(Vec<u8>, Vec<u8>)>,
        IoError,
    >)
        requires
            start@.len() + end@.len() <= u32::MAX,
        ensures
            r matches Ok(rows) ==> final(self).sent() == old(self).sent() + range_request(
                OP_SCAN,
                start@,
                end@,
                max_len,
            ) && final(self).taken() == old(self).taken() + seq![OP_SCAN]
                + spec_u32_to_le_bytes(rows@.len() as u32) + lengthed_pairs(
                crate::changes::entry_views(rows@),
            ),
            r matches Err(e) && e.kind == IoErrorKind::LimitExceeded ==> final(self).sent()
                == old(self).sent() + range_request(OP_SCAN, start@, end@, max_len) && final(
                self).taken() == old(self).taken() + seq![OP_LIMIT_EXCEEDED],
            r matches Ok(rows) ==> crate::wire::total_pair_len(crate::changes::entry_views(
                rows@,
            )) <= max_len,
    {
        match self.scan_limited_opt(start, end, max_len)? {
            Some(rows) => Ok(rows),
            None => Err(IoError::new(IoErrorKind::LimitExceeded)),
        }
    }

    /// Scan the matching keys and values with no client-side cap.
    pub fn scan(&mut self, start: &[u8], end: &[u8]) -> (r: Result<
        Vec<(Vec<u8>, Vec<u8>)>,
        IoError,
    >)
        requires
            start@.len() + end@.len() <= u32::MAX,
        ensures
            r matches Ok(rows) ==> final(self).sent() == old(self).sent() + range_request(
                OP_SCAN,
                start@,
                end@,
                u32::MAX,
            ) && final(self).taken() == old(self).taken() + seq![OP_SCAN]
                + spec_u32_to_le_bytes(rows@.len() as u32) + lengthed_pairs(
                crate::changes::entry_views(rows@),
            ),
    {
        self.scan_limited(start, end, u32::MAX)
    }

    /// Read a UTF-8 value as text, up to `max_len` bytes.
    pub fn read_str_limited(&mut self, key: &[u8], max_len: u32) -> (r: Result<String, IoError>)
        requires
            key@.len() <= u32::MAX,
        ensures
            r matches Ok(s) ==> (if key@.len() == 0 {
                utf8_decode(Seq::empty()) == Some(s@)
            } else {
                exists|p: Seq<u8>|
                    final(self).taken() == old(self).taken() + read_reply(p) && #[trigger]
                    utf8_decode(p) == Some(s@)
            }),
    {
        let v = self.read_limited(key, max_len)?;
        let ghost pv = v@;
        let s = utf8_to_string(v)?;
        proof {
            if key@.len() == 0 {
                assert(pv =~= Seq::<u8>::empty());
            } else {
                assert(final(self).taken() == old(self).taken() + read_reply(pv) && utf8_decode(
                    pv,
                ) == Some(s@));
            }
        }
        Ok(s)
    }

    /// Read a UTF-8 value as text with no client-side cap.
    pub fn read_str(&mut self, key: &[u8]) -> (r: Result<String, IoError>)
        requires
            key@.len() <= u32::MAX,
        ensures
            r matches Ok(s) ==> (if key@.len() == 0 {
                utf8_decode(Seq::empty()) == Some(s@)
            } else {
                exists|p: Seq<u8>|
                    final(self).taken() == old(self).taken() + read_reply(p) && #[trigger]
                    utf8_decode(p) == Some(s@)
            }),
    {
        self.read_str_limited(key, u32::MAX)
    }

    /// Read a value that must be exactly `width` bytes long.
    fn read_exact_bin(&mut self, key: &[u8], width: u32) -> (r: Result<Vec<u8>, IoError>)
        requires
            key@.len() <= u32::MAX,
            width > 0,
        ensures
            r matches Ok(v) ==> v@.len() == width && key@.len() > 0 && final(self).sent() == old(self).sent() + read_request(key@, width) && final(self).taken() == old(self).taken()
                + read_reply(v@),
    {
        let v = self.read_limited(key, width)?;
        if v.len() != width as usize {
            return Err(IoError::new(IoErrorKind::InvalidData));
        }
        Ok(v)
    }

    /// Read a value and accept only the empty value or exactly `width`
    /// bytes.
    fn read_exact_bin_opt(&mut self, key: &[u8], width: u32) -> (r: Result<
        Option<Vec<u8>>,
        IoError,
    >)
        requires
            key@.len() <= u32::MAX,
            width > 0,
        ensures
            r matches Ok(Some(v)) ==> v@.len() == width && key@.len() > 0 && final(self).sent()
                == old(self).sent() + read_request(key@, width) && final(self).taken() == old(self).taken() + read_reply(v@),
    {
        let v = self.read_limited(key, width)?;
        if v.len() == 0 {
            return Ok(None);
        }
        if v.len() != width as usize {
            return Err(IoError::new(IoErrorKind::InvalidData));
        }
        Ok(Some(v))
    }

    /// Read an ASCII decimal value of at most `cap` bytes.
    fn read_ascii(&mut self, key: &[u8], cap: u32) -> (r: Result<Vec<u8>, IoError>)
        requires
            key@.len() <= u32::MAX,
        ensures
            r matches Ok(v) ==> (if key@.len() == 0 {
                v@.len() == 0 && final(self).sent() == old(self).sent() && final(self).taken()
                    == old(self).taken()
            } else {
                final(self).sent() == old(self).sent() + read_request(key@, cap) && final(self).taken() == old(self).taken() + read_reply(v@)
            }),
    {
        match self.read_limited_opt(key, cap)? {
            Some(v) => Ok(v),
            None => Err(IoError::new(IoErrorKind::InvalidData)),
        }
    }

    /// Read a little-endian `u8` stored as exactly 1 byte(s).
    pub fn read_u8_bin(&mut self, key: &[u8]) -> (r: Result<u8, IoError>)
        requires
            key@.len() <= u32::MAX,
        ensures
            r matches Ok(n) ==> exists|p: Seq<u8>|
                final(self).taken() == old(self).taken() + #[trigger] read_reply(p) && p.len()
                    == 1 && p[0] == n,
    {
        let v = self.read_exact_bin(key, 1)?;
        let n = v[0];
        proof {
            assert(final(self).taken() == old(self).taken() + read_reply(v@) && v@.len()
                == 1 && v@[0] == n);
        }
        Ok(n)
    }

    /// As `read_u8_bin`, reading an unset value as `None`.
    pub fn read_u8_bin_opt(&mut self, key: &[u8]) -> (r: Result<Option<u8>, IoError>)
        requires
            key@.len() <= u32::MAX,
        ensures
            r matches Ok(Some(n)) ==> exists|p: Seq<u8>|
                final(self).taken() == old(self).taken() + #[trigger] read_reply(p) && p.len()
                    == 1 && p[0] == n,
    {
        let v = match self.read_exact_bin_opt(key, 1)? {
            Some(v) => v,
            None => {
                return Ok(None);
            },
        };
        let n = v[0];
        proof {
            assert(final(self).taken() == old(self).taken() + read_reply(v@) && v@.len()
                == 1 && v@[0] == n);
        }
        Ok(Some(n))
    }

    /// Read a little-endian `u16` stored as exactly 2 byte(s).
    pub fn read_u16_bin(&mut self, key: &[u8]) -> (r: Result<u16, IoError>)
        requires
            key@.len() <= u32::MAX,
        ensures
            r matches Ok(n) ==> exists|p: Seq<u8>|
                final(self).taken() == old(self).taken() + #[trigger] read_reply(p) && p.len()
                    == 2 && spec_u16_from_le_bytes(p) == n,
    {
        let v = self.read_exact_bin(key, 2)?;
        let n = u16_from_le_bytes(v.as_slice());
        proof {
            assert(final(self).taken() == old(self).taken() + read_reply(v@) && v@.len()
                == 2 && spec_u16_from_le_bytes(v@) == n);
        }
        Ok(n)
    }

    /// As `read_u16_bin`, reading an unset value as `None`.
    pub fn read_u16_bin_opt(&mut self, key: &[u8]) -> (r: Result<Option<u16>, IoError>)
        requires
            key@.len() <= u32::MAX,
        ensures
            r matches Ok(Some(n)) ==> exists|p: Seq<u8>|
                final(self).taken() == old(self).taken() + #[trigger] read_reply(p) && p.len()
                    == 2 && spec_u16_from_le_bytes(p) == n,
    {
        let v = match self.read_exact_bin_opt(key, 2)? {
            Some(v) => v,
            None => {
                return Ok(None);
            },
        };
        let n = u16_from_le_bytes(v.as_slice());
        proof {
            assert(final(self).taken() == old(self).taken() + read_reply(v@) && v@.len()
                == 2 && spec_u16_from_le_bytes(v@) == n);
        }
        Ok(Some(n))
    }

    /// Read a little-endian `u32` stored as exactly 4 byte(s).
    pub fn read_u32_bin(&mut self, key: &[u8]) -> (r: Result<u32, IoError>)
        requires
            key@.len() <= u32::MAX,
        ensures
            r matches Ok(n) ==> exists|p: Seq<u8>|
                final(self).taken() == old(self).taken() + #[trigger] read_reply(p) && p.len()
                    == 4 && spec_u32_from_le_bytes(p) == n,
    {
        let v = self.read_exact_bin(key, 4)?;
        let n = u32_from_le_bytes(v.as_slice());
        proof {
            assert(final(self).taken() == old(self).taken() + read_reply(v@) && v@.len()
                == 4 && spec_u32_from_le_bytes(v@) == n);
        }
        Ok(n)
    }

    /// As `read_u32_bin`, reading an unset value as `None`.
    pub fn read_u32_bin_opt(&mut self, key: &[u8]) -> (r: Result<Option<u32>, IoError>)
        requires
            key@.len() <= u32::MAX,
        ensures
            r matches Ok(Some(n)) ==> exists|p: Seq<u8>|
                final(self).taken() == old(self).taken() + #[trigger] read_reply(p) && p.len()
                    == 4 && spec_u32_from_le_bytes(p) == n,
    {
        let v = match self.read_exact_bin_opt(key, 4)? {
            Some(v) => v,
            None => {
                return Ok(None);
            },
        };
        let n = u32_from_le_bytes(v.as_slice());
        proof {
            assert(final(self).taken() == old(self).taken() + read_reply(v@) && v@.len()
                == 4 && spec_u32_from_le_bytes(v@) == n);
        }
        Ok(Some(n))
    }

    /// Read a little-endian `u64` stored as exactly 8 byte(s).
    pub fn read_u64_bin(&mut self, key: &[u8]) -> (r: Result<u64, IoError>)
        requires
            key@.len() <= u32::MAX,
        ensures
            r matches Ok(n) ==> exists|p: Seq<u8>|
                final(self).taken() == old(self).taken() + #[trigger] read_reply(p) && p.len()
                    == 8 && spec_u64_from_le_bytes(p) == n,
    {
        let v = self.read_exact_bin(key, 8)?;
        let n = u64_from_le_bytes(v.as_slice());
        proof {
            assert(final(self).taken() == old(self).taken() + read_reply(v@) && v@.len()
                == 8 && spec_u64_from_le_bytes(v@) == n);
        }
        Ok(n)
    }

    /// As `read_u64_bin`, reading an unset value as `None`.
    pub fn read_u64_bin_opt(&mut self, key: &[u8]) -> (r: Result<Option<u64>, IoError>)
        requires
            key@.len() <= u32::MAX,
        ensures
            r matches Ok(Some(n)) ==> exists|p: Seq<u8>|
                final(self).taken() == old(self).taken() + #[trigger] read_reply(p) && p.len()
                    == 8 && spec_u64_from_le_bytes(p) == n,
    {
        let v = match self.read_exact_bin_opt(key, 8)? {
            Some(v) => v,
            None => {
                return Ok(None);
            },
        };
        let n = u64_from_le_bytes(v.as_slice());
        proof {
            assert(final(self).taken() == old(self).taken() + read_reply(v@) && v@.len()
                == 8 && spec_u64_from_le_bytes(v@) == n);
        }
        Ok(Some(n))
    }

    /// Read a little-endian `u128` stored as exactly 16 byte(s).
    pub fn read_u128_bin(&mut self, key: &[u8]) -> (r: Result<u128, IoError>)
        requires
            key@.len() <= u32::MAX,
        ensures
            r matches Ok(n) ==> exists|p: Seq<u8>|
                final(self).taken() == old(self).taken() + #[trigger] read_reply(p) && p.len()
                    == 16 && spec_u64_from_le_bytes(p.take(8)) + spec_u64_from_le_bytes(p.skip(8)) * 0x1_0000_0000_0000_0000 == n,
    {
        let v = self.read_exact_bin(key, 16)?;
        let lo = u64_from_le_bytes(crate::codec::slice_range(v.as_slice(), 0, 8));
        let hi = u64_from_le_bytes(crate::codec::slice_range(v.as_slice(), 8, 16));
        proof {
            assert((hi as u128) * 0x1_0000_0000_0000_0000 + lo < 0x1_0000_0000_0000_0000_0000_0000_0000_0000) by (nonlinear_arith)
                requires hi <= 0xffff_ffff_ffff_ffffu64, lo <= 0xffff_ffff_ffff_ffffu64;
        }
        let un: u128 = (lo as u128) + (hi as u128) * 0x1_0000_0000_0000_0000;
        proof {
            assert(spec_u64_from_le_bytes(v@.take(8)) + spec_u64_from_le_bytes(v@.skip(8)) * 0x1_0000_0000_0000_0000 == un) by {
                assert(v@.take(8) =~= v@.subrange(0, 8));
                assert(v@.skip(8) =~= v@.subrange(8, 16));
            }
        }
        let n = un;
        proof {
            assert(final(self).taken() == old(self).taken() + read_reply(v@) && v@.len()
                == 16 && spec_u64_from_le_bytes(v@.take(8)) + spec_u64_from_le_bytes(v@.skip(8)) * 0x1_0000_0000_0000_0000 == n);
        }
        Ok(n)
    }

    /// As `read_u128_bin`, reading an unset value as `None`.
    pub fn read_u128_bin_opt(&mut self, key: &[u8]) -> (r: Result<Option<u128>, IoError>)
        requires
            key@.len() <= u32::MAX,
        ensures
            r matches Ok(Some(n)) ==> exists|p: Seq<u8>|
                final(self).taken() == old(self).taken() + #[trigger] read_reply(p) && p.len()
                    == 16 && spec_u64_from_le_bytes(p.take(8)) + spec_u64_from_le_bytes(p.skip(8)) * 0x1_0000_0000_0000_0000 == n,
    {
        let v = match self.read_exact_bin_opt(key, 16)? {
            Some(v) => v,
            None => {
                return Ok(None);
            },
        };
        let lo = u64_from_le_bytes(crate::codec::slice_range(v.as_slice(), 0, 8));
        let hi = u64_from_le_bytes(crate::codec::slice_range(v.as_slice(), 8, 16));
        proof {
            assert((hi as u128) * 0x1_0000_0000_0000_0000 + lo < 0x1_0000_0000_0000_0000_0000_0000_0000_0000) by (nonlinear_arith)
                requires hi <= 0xffff_ffff_ffff_ffffu64, lo <= 0xffff_ffff_ffff_ffffu64;
        }
        let un: u128 = (lo as u128) + (hi as u128) * 0x1_0000_0000_0000_0000;
        proof {
            assert(spec_u64_from_le_bytes(v@.take(8)) + spec_u64_from_le_bytes(v@.skip(8)) * 0x1_0000_0000_0000_0000 == un) by {
                assert(v@.take(8) =~= v@.subrange(0, 8));
                assert(v@.skip(8) =~= v@.subrange(8, 16));
            }
        }
        let n = un;
        proof {
            assert(final(self).taken() == old(self).taken() + read_reply(v@) && v@.len()
                == 16 && spec_u64_from_le_bytes(v@.take(8)) + spec_u64_from_le_bytes(v@.skip(8)) * 0x1_0000_0000_0000_0000 == n);
        }
        Ok(Some(n))
    }

    /// Read a little-endian `i8` stored as exactly 1 byte(s).
    pub fn read_i8_bin(&mut self, key: &[u8]) -> (r: Result<i8, IoError>)
        requires
            key@.len() <= u32::MAX,
        ensures
            r matches Ok(n) ==> exists|p: Seq<u8>|
                final(self).taken() == old(self).taken() + #[trigger] read_reply(p) && p.len()
                    == 1 && p[0] == n as u8,
    {
        let v = self.read_exact_bin(key, 1)?;
        let b0 = v[0];
        let n = b0 as i8;
        proof {
            assert(b0 as i8 as u8 == b0) by (bit_vector);
            assert(final(self).taken() == old(self).taken() + read_reply(v@) && v@.len()
                == 1 && v@[0] == n as u8);
        }
        Ok(n)
    }

    /// As `read_i8_bin`, reading an unset value as `None`.
    pub fn read_i8_bin_opt(&mut self, key: &[u8]) -> (r: Result<Option<i8>, IoError>)
        requires
            key@.len() <= u32::MAX,
        ensures
            r matches Ok(Some(n)) ==> exists|p: Seq<u8>|
                final(self).taken() == old(self).taken() + #[trigger] read_reply(p) && p.len()
                    == 1 && p[0] == n as u8,
    {
        let v = match self.read_exact_bin_opt(key, 1)? {
            Some(v) => v,
            None => {
                return Ok(None);
            },
        };
        let b0 = v[0];
        let n = b0 as i8;
        proof {
            assert(b0 as i8 as u8 == b0) by (bit_vector);
            assert(final(self).taken() == old(self).taken() + read_reply(v@) && v@.len()
                == 1 && v@[0] == n as u8);
        }
        Ok(Some(n))
    }

    /// Read a little-endian `i16` stored as exactly 2 byte(s).
    pub fn read_i16_bin(&mut self, key: &[u8]) -> (r: Result<i16, IoError>)
        requires
            key@.len() <= u32::MAX,
        ensures
            r matches Ok(n) ==> exists|p: Seq<u8>|
                final(self).taken() == old(self).taken() + #[trigger] read_reply(p) && p.len()
                    == 2 && spec_u16_from_le_bytes(p) == n as u16,
    {
        let v = self.read_exact_bin(key, 2)?;
        let un = u16_from_le_bytes(v.as_slice());
        let n = un as i16;
        proof {
            assert(un as i16 as u16 == un) by (bit_vector);
            assert(final(self).taken() == old(self).taken() + read_reply(v@) && v@.len()
                == 2 && spec_u16_from_le_bytes(v@) == n as u16);
        }
        Ok(n)
    }

    /// As `read_i16_bin`, reading an unset value as `None`.
    pub fn read_i16_bin_opt(&mut self, key: &[u8]) -> (r: Result<Option<i16>, IoError>)
        requires
            key@.len() <= u32::MAX,
        ensures
            r matches Ok(Some(n)) ==> exists|p: Seq<u8>|
                final(self).taken() == old(self).taken() + #[trigger] read_reply(p) && p.len()
                    == 2 && spec_u16_from_le_bytes(p) == n as u16,
    {
        let v = match self.read_exact_bin_opt(key, 2)? {
            Some(v) => v,
            None => {
                return Ok(None);
            },
        };
        let un = u16_from_le_bytes(v.as_slice());
        let n = un as i16;
        proof {
            assert(un as i16 as u16 == un) by (bit_vector);
            assert(final(self).taken() == old(self).taken() + read_reply(v@) && v@.len()
                == 2 && spec_u16_from_le_bytes(v@) == n as u16);
        }
        Ok(Some(n))
    }

    /// Read a little-endian `i32` stored as exactly 4 byte(s).
    pub fn read_i32_bin(&mut self, key: &[u8]) -> (r: Result<i32, IoError>)
        requires
            key@.len() <= u32::MAX,
        ensures
            r matches Ok(n) ==> exists|p: Seq<u8>|
                final(self).taken() == old(self).taken() + #[trigger] read_reply(p) && p.len()
                    == 4 && spec_u32_from_le_bytes(p) == n as u32,
    {
        let v = self.read_exact_bin(key, 4)?;
        let un = u32_from_le_bytes(v.as_slice());
        let n = un as i32;
        proof {
            assert(un as i32 as u32 == un) by (bit_vector);
            assert(final(self).taken() == old(self).taken() + read_reply(v@) && v@.len()
                == 4 && spec_u32_from_le_bytes(v@) == n as u32);
        }
        Ok(n)
    }

    /// As `read_i32_bin`, reading an unset value as `None`.
    pub fn read_i32_bin_opt(&mut self, key: &[u8]) -> (r: Result<Option<i32>, IoError>)
        requires
            key@.len() <= u32::MAX,
        ensures
            r matches Ok(Some(n)) ==> exists|p: Seq<u8>|
                final(self).taken() == old(self).taken() + #[trigger] read_reply(p) && p.len()
                    == 4 && spec_u32_from_le_bytes(p) == n as u32,
    {
        let v = match self.read_exact_bin_opt(key, 4)? {
            Some(v) => v,
            None => {
                return Ok(None);
            },
        };
        let un = u32_from_le_bytes(v.as_slice());
        let n = un as i32;
        proof {
            assert(un as i32 as u32 == un) by (bit_vector);
            assert(final(self).taken() == old(self).taken() + read_reply(v@) && v@.len()
                == 4 && spec_u32_from_le_bytes(v@) == n as u32);
        }
        Ok(Some(n))
    }

    /// Read a little-endian `i64` stored as exactly 8 byte(s).
    pub fn read_i64_bin(&mut self, key: &[u8]) -> (r: Result<i64, IoError>)
        requires
            key@.len() <= u32::MAX,
        ensures
            r matches Ok(n) ==> exists|p: Seq<u8>|
                final(self).taken() == old(self).taken() + #[trigger] read_reply(p) && p.len()
                    == 8 && spec_u64_from_le_bytes(p) == n as u64,
    {
        let v = self.read_exact_bin(key, 8)?;
        let un = u64_from_le_bytes(v.as_slice());
        let n = un as i64;
        proof {
            assert(un as i64 as u64 == un) by (bit_vector);
            assert(final(self).taken() == old(self).taken() + read_reply(v@) && v@.len()
                == 8 && spec_u64_from_le_bytes(v@) == n as u64);
        }
        Ok(n)
    }

    /// As `read_i64_bin`, reading an unset value as `None`.
    pub fn read_i64_bin_opt(&mut self, key: &[u8]) -> (r: Result<Option<i64>, IoError>)
        requires
            key@.len() <= u32::MAX,
        ensures
            r matches Ok(Some(n)) ==> exists|p: Seq<u8>|
                final(self).taken() == old(self).taken() + #[trigger] read_reply(p) && p.len()
                    == 8 && spec_u64_from_le_bytes(p) == n as u64,
    {
        let v = match self.read_exact_bin_opt(key, 8)? {
            Some(v) => v,
            None => {
                return Ok(None);
            },
        };
        let un = u64_from_le_bytes(v.as_slice());
        let n = un as i64;
        proof {
            assert(un as i64 as u64 == un) by (bit_vector);
            assert(final(self).taken() == old(self).taken() + read_reply(v@) && v@.len()
                == 8 && spec_u64_from_le_bytes(v@) == n as u64);
        }
        Ok(Some(n))
    }

    /// Read a little-endian `i128` stored as exactly 16 byte(s).
    pub fn read_i128_bin(&mut self, key: &[u8]) -> (r: Result<i128, IoError>)
        requires
            key@.len() <= u32::MAX,
        ensures
            r matches Ok(n) ==> exists|p: Seq<u8>|
                final(self).taken() == old(self).taken() + #[trigger] read_reply(p) && p.len()
                    == 16 && spec_u64_from_le_bytes(p.take(8)) + spec_u64_from_le_bytes(p.skip(8)) * 0x1_0000_0000_0000_0000 == n as u128,
    {
        let v = self.read_exact_bin(key, 16)?;
        let lo = u64_from_le_bytes(crate::codec::slice_range(v.as_slice(), 0, 8));
        let hi = u64_from_le_bytes(crate::codec::slice_range(v.as_slice(), 8, 16));
        proof {
            assert((hi as u128) * 0x1_0000_0000_0000_0000 + lo < 0x1_0000_0000_0000_0000_0000_0000_0000_0000) by (nonlinear_arith)
                requires hi <= 0xffff_ffff_ffff_ffffu64, lo <= 0xffff_ffff_ffff_ffffu64;
        }
        let un: u128 = (lo as u128) + (hi as u128) * 0x1_0000_0000_0000_0000;
        proof {
            assert(spec_u64_from_le_bytes(v@.take(8)) + spec_u64_from_le_bytes(v@.skip(8)) * 0x1_0000_0000_0000_0000 == un) by {
                assert(v@.take(8) =~= v@.subrange(0, 8));
                assert(v@.skip(8) =~= v@.subrange(8, 16));
            }
        }
        let n = un as i128;
        proof {
            assert(un as i128 as u128 == un) by (bit_vector);
            assert(final(self).taken() == old(self).taken() + read_reply(v@) && v@.len()
                == 16 && spec_u64_from_le_bytes(v@.take(8)) + spec_u64_from_le_bytes(v@.skip(8)) * 0x1_0000_0000_0000_0000 == n as u128);
        }
        Ok(n)
    }

    /// As `read_i128_bin`, reading an unset value as `None`.
    pub fn read_i128_bin_opt(&mut self, key: &[u8]) -> (r: Result<Option<i128>, IoError>)
        requires
            key@.len() <= u32::MAX,
        ensures
            r matches Ok(Some(n)) ==> exists|p: Seq<u8>|
                final(self).taken() == old(self).taken() + #[trigger] read_reply(p) && p.len()
                    == 16 && spec_u64_from_le_bytes(p.take(8)) + spec_u64_from_le_bytes(p.skip(8)) * 0x1_0000_0000_0000_0000 == n as u128,
    {
        let v = match self.read_exact_bin_opt(key, 16)? {
            Some(v) => v,
            None => {
                return Ok(None);
            },
        };
        let lo = u64_from_le_bytes(crate::codec::slice_range(v.as_slice(), 0, 8));
        let hi = u64_from_le_bytes(crate::codec::slice_range(v.as_slice(), 8, 16));
        proof {
            assert((hi as u128) * 0x1_0000_0000_0000_0000 + lo < 0x1_0000_0000_0000_0000_0000_0000_0000_0000) by (nonlinear_arith)
                requires hi <= 0xffff_ffff_ffff_ffffu64, lo <= 0xffff_ffff_ffff_ffffu64;
        }
        let un: u128 = (lo as u128) + (hi as u128) * 0x1_0000_0000_0000_0000;
        proof {
            assert(spec_u64_from_le_bytes(v@.take(8)) + spec_u64_from_le_bytes(v@.skip(8)) * 0x1_0000_0000_0000_0000 == un) by {
                assert(v@.take(8) =~= v@.subrange(0, 8));
                assert(v@.skip(8) =~= v@.subrange(8, 16));
            }
        }
        let n = un as i128;
        proof {
            assert(un as i128 as u128 == un) by (bit_vector);
            assert(final(self).taken() == old(self).taken() + read_reply(v@) && v@.len()
                == 16 && spec_u64_from_le_bytes(v@.take(8)) + spec_u64_from_le_bytes(v@.skip(8)) * 0x1_0000_0000_0000_0000 == n as u128);
        }
        Ok(Some(n))
    }

    /// Read an ASCII decimal `u8`.
    pub fn read_u8(&mut self, key: &[u8]) -> (r: Result<u8, IoError>)
        requires
            key@.len() <= u32::MAX,
        ensures
            r matches Ok(n) ==> exists|p: Seq<u8>|
                final(self).taken() == old(self).taken() + #[trigger] read_reply(p)
                    && ascii_parsed(p) == Some(n as int),
    {
        let v = self.read_ascii(key, 3)?;
        match parse_ascii_u128(v.as_slice()) {
            Some(m) if m <= 255u128 => {
                proof {
                    assert(final(self).taken() == old(self).taken() + read_reply(v@)
                        && ascii_parsed(v@) == Some((m as u8) as int));
                }
                Ok(m as u8)
            },
            _ => Err(IoError::new(IoErrorKind::InvalidData)),
        }
    }

    /// As `read_u8`, reading an unset value as `None`.
    pub fn read_u8_opt(&mut self, key: &[u8]) -> (r: Result<Option<u8>, IoError>)
        requires
            key@.len() <= u32::MAX,
        ensures
            r matches Ok(Some(n)) ==> exists|p: Seq<u8>|
                final(self).taken() == old(self).taken() + #[trigger] read_reply(p)
                    && ascii_parsed(p) == Some(n as int),
    {
        let v = self.read_ascii(key, 3)?;
        if v.len() == 0 {
            return Ok(None);
        }
        match parse_ascii_u128(v.as_slice()) {
            Some(m) if m <= 255u128 => {
                proof {
                    assert(final(self).taken() == old(self).taken() + read_reply(v@)
                        && ascii_parsed(v@) == Some((m as u8) as int));
                }
                Ok(Some(m as u8))
            },
            _ => Err(IoError::new(IoErrorKind::InvalidData)),
        }
    }

    /// Read an ASCII decimal `u16`.
    pub fn read_u16(&mut self, key: &[u8]) -> (r: Result<u16, IoError>)
        requires
            key@.len() <= u32::MAX,
        ensures
            r matches Ok(n) ==> exists|p: Seq<u8>|
                final(self).taken() == old(self).taken() + #[trigger] read_reply(p)
                    && ascii_parsed(p) == Some(n as int),
    {
        let v = self.read_ascii(key, 5)?;
        match parse_ascii_u128(v.as_slice()) {
            Some(m) if m <= 65535u128 => {
                proof {
                    assert(final(self).taken() == old(self).taken() + read_reply(v@)
                        && ascii_parsed(v@) == Some((m as u16) as int));
                }
                Ok(m as u16)
            },
            _ => Err(IoError::new(IoErrorKind::InvalidData)),
        }
    }

    /// As `read_u16`, reading an unset value as `None`.
    pub fn read_u16_opt(&mut self, key: &[u8]) -> (r: Result<Option<u16>, IoError>)
        requires
            key@.len() <= u32::MAX,
        ensures
            r matches Ok(Some(n)) ==> exists|p: Seq<u8>|
                final(self).taken() == old(self).taken() + #[trigger] read_reply(p)
                    && ascii_parsed(p) == Some(n as int),
    {
        let v = self.read_ascii(key, 5)?;
        if v.len() == 0 {
            return Ok(None);
        }
        match parse_ascii_u128(v.as_slice()) {
            Some(m) if m <= 65535u128 => {
                proof {
                    assert(final(self).taken() == old(self).taken() + read_reply(v@)
                        && ascii_parsed(v@) == Some((m as u16) as int));
                }
                Ok(Some(m as u16))
            },
            _ => Err(IoError::new(IoErrorKind::InvalidData)),
        }
    }

    /// Read an ASCII decimal `u32`.
    pub fn read_u32(&mut self, key: &[u8]) -> (r: Result<u32, IoError>)
        requires
            key@.len() <= u32::MAX,
        ensures
            r matches Ok(n) ==> exists|p: Seq<u8>|
                final(self).taken() == old(self).taken() + #[trigger] read_reply(p)
                    && ascii_parsed(p) == Some(n as int),
    {
        let v = self.read_ascii(key, 10)?;
        match parse_ascii_u128(v.as_slice()) {
            Some(m) if m <= 4294967295u128 => {
                proof {
                    assert(final(self).taken() == old(self).taken() + read_reply(v@)
                        && ascii_parsed(v@) == Some((m as u32) as int));
                }
                Ok(m as u32)
            },
            _ => Err(IoError::new(IoErrorKind::InvalidData)),
        }
    }

    /// As `read_u32`, reading an unset value as `None`.
    pub fn read_u32_opt(&mut self, key: &[u8]) -> (r: Result<Option<u32>, IoError>)
        requires
            key@.len() <= u32::MAX,
        ensures
            r matches Ok(Some(n)) ==> exists|p: Seq<u8>|
                final(self).taken() == old(self).taken() + #[trigger] read_reply(p)
                    && ascii_parsed(p) == Some(n as int),
    {
        let v = self.read_ascii(key, 10)?;
        if v.len() == 0 {
            return Ok(None);
        }
        match parse_ascii_u128(v.as_slice()) {
            Some(m) if m <= 4294967295u128 => {
                proof {
                    assert(final(self).taken() == old(self).taken() + read_reply(v@)
                        && ascii_parsed(v@) == Some((m as u32) as int));
                }
                Ok(Some(m as u32))
            },
            _ => Err(IoError::new(IoErrorKind::InvalidData)),
        }
    }

    /// Read an ASCII decimal `u64`.
    pub fn read_u64(&mut self, key: &[u8]) -> (r: Result<u64, IoError>)
        requires
            key@.len() <= u32::MAX,
        ensures
            r matches Ok(n) ==> exists|p: Seq<u8>|
                final(self).taken() == old(self).taken() + #[trigger] read_reply(p)
                    && ascii_parsed(p) == Some(n as int),
    {
        let v = self.read_ascii(key, 20)?;
        match parse_ascii_u128(v.as_slice()) {
            Some(m) if m <= 18446744073709551615u128 => {
                proof {
                    assert(final(self).taken() == old(self).taken() + read_reply(v@)
                        && ascii_parsed(v@) == Some((m as u64) as int));
                }
                Ok(m as u64)
            },
            _ => Err(IoError::new(IoErrorKind::InvalidData)),
        }
    }

    /// As `read_u64`, reading an unset value as `None`.
    pub fn read_u64_opt(&mut self, key: &[u8]) -> (r: Result<Option<u64>, IoError>)
        requires
            key@.len() <= u32::MAX,
        ensures
            r matches Ok(Some(n)) ==> exists|p: Seq<u8>|
                final(self).taken() == old(self).taken() + #[trigger] read_reply(p)
                    && ascii_parsed(p) == Some(n as int),
    {
        let v = self.read_ascii(key, 20)?;
        if v.len() == 0 {
            return Ok(None);
        }
        match parse_ascii_u128(v.as_slice()) {
            Some(m) if m <= 18446744073709551615u128 => {
                proof {
                    assert(final(self).taken() == old(self).taken() + read_reply(v@)
                        && ascii_parsed(v@) == Some((m as u64) as int));
                }
                Ok(Some(m as u64))
            },
            _ => Err(IoError::new(IoErrorKind::InvalidData)),
        }
    }

    /// Read an ASCII decimal `u128`.
    pub fn read_u128(&mut self, key: &[u8]) -> (r: Result<u128, IoError>)
        requires
            key@.len() <= u32::MAX,
        ensures
            r matches Ok(n) ==> exists|p: Seq<u8>|
                final(self).taken() == old(self).taken() + #[trigger] read_reply(p)
                    && ascii_parsed(p) == Some(n as int),
    {
        let v = self.read_ascii(key, 39)?;
        match parse_ascii_u128(v.as_slice()) {
            Some(m) if m <= 340282366920938463463374607431768211455u128 => {
                proof {
                    assert(final(self).taken() == old(self).taken() + read_reply(v@)
                        && ascii_parsed(v@) == Some((m as u128) as int));
                }
                Ok(m as u128)
            },
            _ => Err(IoError::new(IoErrorKind::InvalidData)),
        }
    }

    /// As `read_u128`, reading an unset value as `None`.
    pub fn read_u128_opt(&mut self, key: &[u8]) -> (r: Result<Option<u128>, IoError>)
        requires
            key@.len() <= u32::MAX,
        ensures
            r matches Ok(Some(n)) ==> exists|p: Seq<u8>|
                final(self).taken() == old(self).taken() + #[trigger] read_reply(p)
                    && ascii_parsed(p) == Some(n as int),
    {
        let v = self.read_ascii(key, 39)?;
        if v.len() == 0 {
            return Ok(None);
        }
        match parse_ascii_u128(v.as_slice()) {
            Some(m) if m <= 340282366920938463463374607431768211455u128 => {
                proof {
                    assert(final(self).taken() == old(self).taken() + read_reply(v@)
                        && ascii_parsed(v@) == Some((m as u128) as int));
                }
                Ok(Some(m as u128))
            },
            _ => Err(IoError::new(IoErrorKind::InvalidData)),
        }
    }

    /// Read an ASCII decimal `i8`, with an optional sign.
    pub fn read_i8(&mut self, key: &[u8]) -> (r: Result<i8, IoError>)
        requires
            key@.len() <= u32::MAX,
        ensures
            r matches Ok(n) ==> exists|p: Seq<u8>|
                final(self).taken() == old(self).taken() + #[trigger] read_reply(p)
                    && ascii_parsed_signed(p) == Some(n as int),
    {
        let v = self.read_ascii(key, 4)?;
        match parse_signed_value(v.as_slice(), 127u128, 128u128) {
            Some(m) => {
                proof {
                    assert(final(self).taken() == old(self).taken() + read_reply(v@));
                    assert(ascii_parsed_signed(v@) == Some((m as i8) as int));
                }
                Ok(m as i8)
            },
            None => Err(IoError::new(IoErrorKind::InvalidData)),
        }
    }

    /// As `read_i8`, reading an unset value as `None`.
    pub fn read_i8_opt(&mut self, key: &[u8]) -> (r: Result<Option<i8>, IoError>)
        requires
            key@.len() <= u32::MAX,
        ensures
            r matches Ok(Some(n)) ==> exists|p: Seq<u8>|
                final(self).taken() == old(self).taken() + #[trigger] read_reply(p)
                    && ascii_parsed_signed(p) == Some(n as int),
    {
        let v = self.read_ascii(key, 4)?;
        if v.len() == 0 {
            return Ok(None);
        }
        match parse_signed_value(v.as_slice(), 127u128, 128u128) {
            Some(m) => {
                proof {
                    assert(final(self).taken() == old(self).taken() + read_reply(v@));
                    assert(ascii_parsed_signed(v@) == Some((m as i8) as int));
                }
                Ok(Some(m as i8))
            },
            None => Err(IoError::new(IoErrorKind::InvalidData)),
        }
    }

    /// Read an ASCII decimal `i16`, with an optional sign.
    pub fn read_i16(&mut self, key: &[u8]) -> (r: Result<i16, IoError>)
        requires
            key@.len() <= u32::MAX,
        ensures
            r matches Ok(n) ==> exists|p: Seq<u8>|
                final(self).taken() == old(self).taken() + #[trigger] read_reply(p)
                    && ascii_parsed_signed(p) == Some(n as int),
    {
        let v = self.read_ascii(key, 6)?;
        match parse_signed_value(v.as_slice(), 32767u128, 32768u128) {
            Some(m) => {
                proof {
                    assert(final(self).taken() == old(self).taken() + read_reply(v@));
                    assert(ascii_parsed_signed(v@) == Some((m as i16) as int));
                }
                Ok(m as i16)
            },
            None => Err(IoError::new(IoErrorKind::InvalidData)),
        }
    }

    /// As `read_i16`, reading an unset value as `None`.
    pub fn read_i16_opt(&mut self, key: &[u8]) -> (r: Result<Option<i16>, IoError>)
        requires
            key@.len() <= u32::MAX,
        ensures
            r matches Ok(Some(n)) ==> exists|p: Seq<u8>|
                final(self).taken() == old(self).taken() + #[trigger] read_reply(p)
                    && ascii_parsed_signed(p) == Some(n as int),
    {
        let v = self.read_ascii(key, 6)?;
        if v.len() == 0 {
            return Ok(None);
        }
        match parse_signed_value(v.as_slice(), 32767u128, 32768u128) {
            Some(m) => {
                proof {
                    assert(final(self).taken() == old(self).taken() + read_reply(v@));
                    assert(ascii_parsed_signed(v@) == Some((m as i16) as int));
                }
                Ok(Some(m as i16))
            },
            None => Err(IoError::new(IoErrorKind::InvalidData)),
        }
    }

    /// Read an ASCII decimal `i32`, with an optional sign.
    pub fn read_i32(&mut self, key: &[u8]) -> (r: Result<i32, IoError>)
        requires
            key@.len() <= u32::MAX,
        ensures
            r matches Ok(n) ==> exists|p: Seq<u8>|
                final(self).taken() == old(self).taken() + #[trigger] read_reply(p)
                    && ascii_parsed_signed(p) == Some(n as int),
    {
        let v = self.read_ascii(key, 11)?;
        match parse_signed_value(v.as_slice(), 2147483647u128, 2147483648u128) {
            Some(m) => {
                proof {
                    assert(final(self).taken() == old(self).taken() + read_reply(v@));
                    assert(ascii_parsed_signed(v@) == Some((m as i32) as int));
                }
                Ok(m as i32)
            },
            None => Err(IoError::new(IoErrorKind::InvalidData)),
        }
    }

    /// As `read_i32`, reading an unset value as `None`.
    pub fn read_i32_opt(&mut self, key: &[u8]) -> (r: Result<Option<i32>, IoError>)
        requires
            key@.len() <= u32::MAX,
        ensures
            r matches Ok(Some(n)) ==> exists|p: Seq<u8>|
                final(self).taken() == old(self).taken() + #[trigger] read_reply(p)
                    && ascii_parsed_signed(p) == Some(n as int),
    {
        let v = self.read_ascii(key, 11)?;
        if v.len() == 0 {
            return Ok(None);
        }
        match parse_signed_value(v.as_slice(), 2147483647u128, 2147483648u128) {
            Some(m) => {
                proof {
                    assert(final(self).taken() == old(self).taken() + read_reply(v@));
                    assert(ascii_parsed_signed(v@) == Some((m as i32) as int));
                }
                Ok(Some(m as i32))
            },
            None => Err(IoError::new(IoErrorKind::InvalidData)),
        }
    }

    /// Read an ASCII decimal `i64`, with an optional sign.
    pub fn read_i64(&mut self, key: &[u8]) -> (r: Result<i64, IoError>)
        requires
            key@.len() <= u32::MAX,
        ensures
            r matches Ok(n) ==> exists|p: Seq<u8>|
                final(self).taken() == old(self).taken() + #[trigger] read_reply(p)
                    && ascii_parsed_signed(p) == Some(n as int),
    {
        let v = self.read_ascii(key, 20)?;
        match parse_signed_value(v.as_slice(), 9223372036854775807u128, 9223372036854775808u128) {
            Some(m) => {
                proof {
                    assert(final(self).taken() == old(self).taken() + read_reply(v@));
                    assert(ascii_parsed_signed(v@) == Some((m as i64) as int));
                }
                Ok(m as i64)
            },
            None => Err(IoError::new(IoErrorKind::InvalidData)),
        }
    }

    /// As `read_i64`, reading an unset value as `None`.
    pub fn read_i64_opt(&mut self, key: &[u8]) -> (r: Result<Option<i64>, IoError>)
        requires
            key@.len() <= u32::MAX,
        ensures
            r matches Ok(Some(n)) ==> exists|p: Seq<u8>|
                final(self).taken() == old(self).taken() + #[trigger] read_reply(p)
                    && ascii_parsed_signed(p) == Some(n as int),
    {
        let v = self.read_ascii(key, 20)?;
        if v.len() == 0 {
            return Ok(None);
        }
        match parse_signed_value(v.as_slice(), 9223372036854775807u128, 9223372036854775808u128) {
            Some(m) => {
                proof {
                    assert(final(self).taken() == old(self).taken() + read_reply(v@));
                    assert(ascii_parsed_signed(v@) == Some((m as i64) as int));
                }
                Ok(Some(m as i64))
            },
            None => Err(IoError::new(IoErrorKind::InvalidData)),
        }
    }

    /// Read an ASCII decimal `i128`, with an optional sign.
    pub fn read_i128(&mut self, key: &[u8]) -> (r: Result<i128, IoError>)
        requires
            key@.len() <= u32::MAX,
        ensures
            r matches Ok(n) ==> exists|p: Seq<u8>|
                final(self).taken() == old(self).taken() + #[trigger] read_reply(p)
                    && ascii_parsed_signed(p) == Some(n as int),
    {
        let v = self.read_ascii(key, 40)?;
        match parse_signed_value(v.as_slice(), 170141183460469231731687303715884105727u128, 170141183460469231731687303715884105728u128) {
            Some(m) => {
                proof {
                    assert(final(self).taken() == old(self).taken() + read_reply(v@));
                    assert(ascii_parsed_signed(v@) == Some((m as i128) as int));
                }
                Ok(m as i128)
            },
            None => Err(IoError::new(IoErrorKind::InvalidData)),
        }
    }

    /// As `read_i128`, reading an unset value as `None`.
    pub fn read_i128_opt(&mut self, key: &[u8]) -> (r: Result<Option<i128>, IoError>)
        requires
            key@.len() <= u32::MAX,
        ensures
            r matches Ok(Some(n)) ==> exists|p: Seq<u8>|
                final(self).taken() == old(self).taken() + #[trigger] read_reply(p)
                    && ascii_parsed_signed(p) == Some(n as int),
    {
        let v = self.read_ascii(key, 40)?;
        if v.len() == 0 {
            return Ok(None);
        }
        match parse_signed_value(v.as_slice(), 170141183460469231731687303715884105727u128, 170141183460469231731687303715884105728u128) {
            Some(m) => {
                proof {
                    assert(final(self).taken() == old(self).taken() + read_reply(v@));
                    assert(ascii_parsed_signed(v@) == Some((m as i128) as int));
                }
                Ok(Some(m as i128))
            },
            None => Err(IoError::new(IoErrorKind::InvalidData)),
        }
    }

    /// Write a `u8` as its little-endian bytes.
    pub fn write_u8_bin(&mut self, key: &[u8], value: u8) -> (r: Result<(), IoError>)
        requires
            key@.len() <= u32::MAX,
        ensures
            r is Ok && key@.len() > 0 ==> final(self).sent() == old(self).sent() + write_request(
                key@,
                seq![value],
            ) && final(self).taken() == old(self).taken() + seq![OP_WRITE],
    {
        let buf: [u8; 1] = [value as u8];
        let r = self.write(key, buf.as_slice());
        proof {
            assert(buf@ =~= seq![value]);
        }
        r
    }

    /// Write a `u16` as its little-endian bytes.
    pub fn write_u16_bin(&mut self, key: &[u8], value: u16) -> (r: Result<(), IoError>)
        requires
            key@.len() <= u32::MAX,
        ensures
            r is Ok && key@.len() > 0 ==> final(self).sent() == old(self).sent() + write_request(
                key@,
                vstd::bytes::spec_u16_to_le_bytes(value),
            ) && final(self).taken() == old(self).taken() + seq![OP_WRITE],
    {
        let buf = u16_to_le_bytes(value);
        self.write(key, buf.as_slice())
    }

    /// Write a `u32` as its little-endian bytes.
    pub fn write_u32_bin(&mut self, key: &[u8], value: u32) -> (r: Result<(), IoError>)
        requires
            key@.len() <= u32::MAX,
        ensures
            r is Ok && key@.len() > 0 ==> final(self).sent() == old(self).sent() + write_request(
                key@,
                vstd::bytes::spec_u32_to_le_bytes(value),
            ) && final(self).taken() == old(self).taken() + seq![OP_WRITE],
    {
        let buf = u32_to_le_bytes(value);
        self.write(key, buf.as_slice())
    }

    /// Write a `u64` as its little-endian bytes.
    pub fn write_u64_bin(&mut self, key: &[u8], value: u64) -> (r: Result<(), IoError>)
        requires
            key@.len() <= u32::MAX,
        ensures
            r is Ok && key@.len() > 0 ==> final(self).sent() == old(self).sent() + write_request(
                key@,
                vstd::bytes::spec_u64_to_le_bytes(value),
            ) && final(self).taken() == old(self).taken() + seq![OP_WRITE],
    {
        let buf = u64_to_le_bytes(value);
        self.write(key, buf.as_slice())
    }

    /// Write a `u128` as its little-endian bytes.
    pub fn write_u128_bin(&mut self, key: &[u8], value: u128) -> (r: Result<(), IoError>)
        requires
            key@.len() <= u32::MAX,
        ensures
            r is Ok && key@.len() > 0 ==> final(self).sent() == old(self).sent() + write_request(
                key@,
                le_u128(value),
            ) && final(self).taken() == old(self).taken() + seq![OP_WRITE],
    {
        let uv: u128 = value;
        let mut buf = u64_to_le_bytes((uv % 0x1_0000_0000_0000_0000) as u64);
        let mut hi = u64_to_le_bytes((uv / 0x1_0000_0000_0000_0000) as u64);
        buf.append(&mut hi);
        proof {
            assert(buf@ =~= le_u128(value));
        }
        self.write(key, buf.as_slice())
    }

    /// Write a `i8` as its little-endian bytes.
    pub fn write_i8_bin(&mut self, key: &[u8], value: i8) -> (r: Result<(), IoError>)
        requires
            key@.len() <= u32::MAX,
        ensures
            r is Ok && key@.len() > 0 ==> final(self).sent() == old(self).sent() + write_request(
                key@,
                seq![value as u8],
            ) && final(self).taken() == old(self).taken() + seq![OP_WRITE],
    {
        let buf: [u8; 1] = [value as u8];
        let r = self.write(key, buf.as_slice());
        proof {
            assert(buf@ =~= seq![value as u8]);
        }
        r
    }

    /// Write a `i16` as its little-endian bytes.
    pub fn write_i16_bin(&mut self, key: &[u8], value: i16) -> (r: Result<(), IoError>)
        requires
            key@.len() <= u32::MAX,
        ensures
            r is Ok && key@.len() > 0 ==> final(self).sent() == old(self).sent() + write_request(
                key@,
                vstd::bytes::spec_u16_to_le_bytes(value as u16),
            ) && final(self).taken() == old(self).taken() + seq![OP_WRITE],
    {
        let buf = u16_to_le_bytes(value as u16);
        self.write(key, buf.as_slice())
    }

    /// Write a `i32` as its little-endian bytes.
    pub fn write_i32_bin(&mut self, key: &[u8], value: i32) -> (r: Result<(), IoError>)
        requires
            key@.len() <= u32::MAX,
        ensures
            r is Ok && key@.len() > 0 ==> final(self).sent() == old(self).sent() + write_request(
                key@,
                vstd::bytes::spec_u32_to_le_bytes(value as u32),
            ) && final(self).taken() == old(self).taken() + seq![OP_WRITE],
    {
        let buf = u32_to_le_bytes(value as u32);
        self.write(key, buf.as_slice())
    }

    /// Write a `i64` as its little-endian bytes.
    pub fn write_i64_bin(&mut self, key: &[u8], value: i64) -> (r: Result<(), IoError>)
        requires
            key@.len() <= u32::MAX,
        ensures
            r is Ok && key@.len() > 0 ==> final(self).sent() == old(self).sent() + write_request(
                key@,
                vstd::bytes::spec_u64_to_le_bytes(value as u64),
            ) && final(self).taken() == old(self).taken() + seq![OP_WRITE],
    {
        let buf = u64_to_le_bytes(value as u64);
        self.write(key, buf.as_slice())
    }

    /// Write a `i128` as its little-endian bytes.
    pub fn write_i128_bin(&mut self, key: &[u8], value: i128) -> (r: Result<(), IoError>)
        requires
            key@.len() <= u32::MAX,
        ensures
            r is Ok && key@.len() > 0 ==> final(self).sent() == old(self).sent() + write_request(
                key@,
                le_u128(value as u128),
            ) && final(self).taken() == old(self).taken() + seq![OP_WRITE],
    {
        let uv: u128 = value as u128;
        let mut buf = u64_to_le_bytes((uv % 0x1_0000_0000_0000_0000) as u64);
        let mut hi = u64_to_le_bytes((uv / 0x1_0000_0000_0000_0000) as u64);
        buf.append(&mut hi);
        proof {
            assert(buf@ =~= le_u128(value as u128));
        }
        self.write(key, buf.as_slice())
    }

    /// Write a `u8` as ASCII decimal digits.
    pub fn write_u8(&mut self, key: &[u8], value: u8) -> (r: Result<(), IoError>)
        requires
            key@.len() <= u32::MAX,
        ensures
            r is Ok && key@.len() > 0 ==> final(self).sent() == old(self).sent() + write_request(
                key@,
                dec_digits(value as int),
            ) && final(self).taken() == old(self).taken() + seq![OP_WRITE],
    {
        let mut buf: Vec<u8> = Vec::new();
        format_u128(value as u128, &mut buf);
        proof {
            crate::wire::lemma_dec_digits_value(value as int);
        }
        if buf.len() > u32::MAX as usize {
            return Err(IoError::protocol());
        }
        self.write(key, buf.as_slice())
    }

    /// Write a `u16` as ASCII decimal digits.
    pub fn write_u16(&mut self, key: &[u8], value: u16) -> (r: Result<(), IoError>)
        requires
            key@.len() <= u32::MAX,
        ensures
            r is Ok && key@.len() > 0 ==> final(self).sent() == old(self).sent() + write_request(
                key@,
                dec_digits(value as int),
            ) && final(self).taken() == old(self).taken() + seq![OP_WRITE],
    {
        let mut buf: Vec<u8> = Vec::new();
        format_u128(value as u128, &mut buf);
        proof {
            crate::wire::lemma_dec_digits_value(value as int);
        }
        if buf.len() > u32::MAX as usize {
            return Err(IoError::protocol());
        }
        self.write(key, buf.as_slice())
    }

    /// Write a `u32` as ASCII decimal digits.
    pub fn write_u32(&mut self, key: &[u8], value: u32) -> (r: Result<(), IoError>)
        requires
            key@.len() <= u32::MAX,
        ensures
            r is Ok && key@.len() > 0 ==> final(self).sent() == old(self).sent() + write_request(
                key@,
                dec_digits(value as int),
            ) && final(self).taken() == old(self).taken() + seq![OP_WRITE],
    {
        let mut buf: Vec<u8> = Vec::new();
        format_u128(value as u128, &mut buf);
        proof {
            crate::wire::lemma_dec_digits_value(value as int);
        }
        if buf.len() > u32::MAX as usize {
            return Err(IoError::protocol());
        }
        self.write(key, buf.as_slice())
    }

    /// Write a `u64` as ASCII decimal digits.
    pub fn write_u64(&mut self, key: &[u8], value: u64) -> (r: Result<(), IoError>)
        requires
            key@.len() <= u32::MAX,
        ensures
            r is Ok && key@.len() > 0 ==> final(self).sent() == old(self).sent() + write_request(
                key@,
                dec_digits(value as int),
            ) && final(self).taken() == old(self).taken() + seq![OP_WRITE],
    {
        let mut buf: Vec<u8> = Vec::new();
        format_u128(value as u128, &mut buf);
        proof {
            crate::wire::lemma_dec_digits_value(value as int);
        }
        if buf.len() > u32::MAX as usize {
            return Err(IoError::protocol());
        }
        self.write(key, buf.as_slice())
    }

    /// Write a `u128` as ASCII decimal digits.
    pub fn write_u128(&mut self, key: &[u8], value: u128) -> (r: Result<(), IoError>)
        requires
            key@.len() <= u32::MAX,
        ensures
            r is Ok && key@.len() > 0 ==> final(self).sent() == old(self).sent() + write_request(
                key@,
                dec_digits(value as int),
            ) && final(self).taken() == old(self).taken() + seq![OP_WRITE],
    {
        let mut buf: Vec<u8> = Vec::new();
        format_u128(value as u128, &mut buf);
        proof {
            crate::wire::lemma_dec_digits_value(value as int);
        }
        if buf.len() > u32::MAX as usize {
            return Err(IoError::protocol());
        }
        self.write(key, buf.as_slice())
    }

    /// Write an `i8` as ASCII decimal digits, with a sign when
    /// negative.
    pub fn write_i8(&mut self, key: &[u8], value: i8) -> (r: Result<(), IoError>)
        requires
            key@.len() <= u32::MAX,
        ensures
            r is Ok && key@.len() > 0 ==> final(self).sent() == old(self).sent() + write_request(
                key@,
                dec_signed(value as int),
            ) && final(self).taken() == old(self).taken() + seq![OP_WRITE],
    {
        let mut buf: Vec<u8> = Vec::new();
        if value < 0 {
            buf.push(45);
            let mag: u128 = if value == i8::MIN {
                128u128
            } else {
                (-value) as u128
            };
            proof {
                assert(mag as int == -(value as int));
            }
            format_u128(mag, &mut buf);
            proof {
                crate::wire::lemma_dec_digits_value(mag as int);
                assert(buf@ =~= seq![45u8] + dec_digits(-(value as int)));
            }
        } else {
            format_u128(value as u128, &mut buf);
            proof {
                crate::wire::lemma_dec_digits_value(value as int);
                assert(buf@ =~= dec_digits(value as int));
            }
        }
        if buf.len() > u32::MAX as usize {
            return Err(IoError::protocol());
        }
        self.write(key, buf.as_slice())
    }

    /// Write an `i16` as ASCII decimal digits, with a sign when
    /// negative.
    pub fn write_i16(&mut self, key: &[u8], value: i16) -> (r: Result<(), IoError>)
        requires
            key@.len() <= u32::MAX,
        ensures
            r is Ok && key@.len() > 0 ==> final(self).sent() == old(self).sent() + write_request(
                key@,
                dec_signed(value as int),
            ) && final(self).taken() == old(self).taken() + seq![OP_WRITE],
    {
        let mut buf: Vec<u8> = Vec::new();
        if value < 0 {
            buf.push(45);
            let mag: u128 = if value == i16::MIN {
                32768u128
            } else {
                (-value) as u128
            };
            proof {
                assert(mag as int == -(value as int));
            }
            format_u128(mag, &mut buf);
            proof {
                crate::wire::lemma_dec_digits_value(mag as int);
                assert(buf@ =~= seq![45u8] + dec_digits(-(value as int)));
            }
        } else {
            format_u128(value as u128, &mut buf);
            proof {
                crate::wire::lemma_dec_digits_value(value as int);
                assert(buf@ =~= dec_digits(value as int));
            }
        }
        if buf.len() > u32::MAX as usize {
            return Err(IoError::protocol());
        }
        self.write(key, buf.as_slice())
    }

    /// Write an `i32` as ASCII decimal digits, with a sign when
    /// negative.
    pub fn write_i32(&mut self, key: &[u8], value: i32) -> (r: Result<(), IoError>)
        requires
            key@.len() <= u32::MAX,
        ensures
            r is Ok && key@.len() > 0 ==> final(self).sent() == old(self).sent() + write_request(
                key@,
                dec_signed(value as int),
            ) && final(self).taken() == old(self).taken() + seq![OP_WRITE],
    {
        let mut buf: Vec<u8> = Vec::new();
        if value < 0 {
            buf.push(45);
            let mag: u128 = if value == i32::MIN {
                2147483648u128
            } else {
                (-value) as u128
            };
            proof {
                assert(mag as int == -(value as int));
            }
            format_u128(mag, &mut buf);
            proof {
                crate::wire::lemma_dec_digits_value(mag as int);
                assert(buf@ =~= seq![45u8] + dec_digits(-(value as int)));
            }
        } else {
            format_u128(value as u128, &mut buf);
            proof {
                crate::wire::lemma_dec_digits_value(value as int);
                assert(buf@ =~= dec_digits(value as int));
            }
        }
        if buf.len() > u32::MAX as usize {
            return Err(IoError::protocol());
        }
        self.write(key, buf.as_slice())
    }

    /// Write an `i64` as ASCII decimal digits, with a sign when
    /// negative.
    pub fn write_i64(&mut self, key: &[u8], value: i64) -> (r: Result<(), IoError>)
        requires
            key@.len() <= u32::MAX,
        ensures
            r is Ok && key@.len() > 0 ==> final(self).sent() == old(self).sent() + write_request(
                key@,
                dec_signed(value as int),
            ) && final(self).taken() == old(self).taken() + seq![OP_WRITE],
    {
        let mut buf: Vec<u8> = Vec::new();
        if value < 0 {
            buf.push(45);
            let mag: u128 = if value == i64::MIN {
                9223372036854775808u128
            } else {
                (-value) as u128
            };
            proof {
                assert(mag as int == -(value as int));
            }
            format_u128(mag, &mut buf);
            proof {
                crate::wire::lemma_dec_digits_value(mag as int);
                assert(buf@ =~= seq![45u8] + dec_digits(-(value as int)));
            }
        } else {
            format_u128(value as u128, &mut buf);
            proof {
                crate::wire::lemma_dec_digits_value(value as int);
                assert(buf@ =~= dec_digits(value as int));
            }
        }
        if buf.len() > u32::MAX as usize {
            return Err(IoError::protocol());
        }
        self.write(key, buf.as_slice())
    }

    /// Write an `i128` as ASCII decimal digits, with a sign when
    /// negative.
    pub fn write_i128(&mut self, key: &[u8], value: i128) -> (r: Result<(), IoError>)
        requires
            key@.len() <= u32::MAX,
        ensures
            r is Ok && key@.len() > 0 ==> final(self).sent() == old(self).sent() + write_request(
                key@,
                dec_signed(value as int),
            ) && final(self).taken() == old(self).taken() + seq![OP_WRITE],
    {
        let mut buf: Vec<u8> = Vec::new();
        if value < 0 {
            buf.push(45);
            let mag: u128 = if value == i128::MIN {
                170141183460469231731687303715884105728u128
            } else {
                (-value) as u128
            };
            proof {
                assert(mag as int == -(value as int));
            }
            format_u128(mag, &mut buf);
            proof {
                crate::wire::lemma_dec_digits_value(mag as int);
                assert(buf@ =~= seq![45u8] + dec_digits(-(value as int)));
            }
        } else {
            format_u128(value as u128, &mut buf);
            proof {
                crate::wire::lemma_dec_digits_value(value as int);
                assert(buf@ =~= dec_digits(value as int));
            }
        }
        if buf.len() > u32::MAX as usize {
            return Err(IoError::protocol());
        }
        self.write(key, buf.as_slice())
    }
}

/// Parse a signed ASCII decimal whose magnitude must fit the given bounds:
/// `max_pos` for a positive value, `max_neg_mag` for a negative one.
fn parse_signed_value(bytes: &[u8], max_pos: u128, max_neg_mag: u128) -> (r: Option<i128>)
    requires
        max_pos < 0x8000_0000_0000_0000_0000_0000_0000_0000u128,
        max_neg_mag <= 0x8000_0000_0000_0000_0000_0000_0000_0000u128,
    ensures
        r matches Some(n) ==> ascii_parsed_signed(bytes@) == Some(n as int) && -(max_neg_mag
            as int) <= n as int <= max_pos as int,
{
    if bytes.len() > 0 && bytes[0] == 45 {
        // A sign may not follow the sign: after `-` only digits are valid.
        if bytes.len() > 1 && bytes[1] == 43 {
            return None;
        }
        let mag = match parse_ascii_u128(crate::codec::slice_range(bytes, 1, bytes.len())) {
            Some(m) => m,
            None => {
                return None;
            },
        };
        proof {
            assert(bytes@.subrange(1, bytes@.len() as int) =~= bytes@.skip(1));
        }
        if mag > max_neg_mag {
            return None;
        }
        if mag == 0 {
            return Some(0);
        }
        let n: i128 = if mag == 0x8000_0000_0000_0000_0000_0000_0000_0000u128 {
            i128::MIN
        } else {
            -(mag as i128)
        };
        proof {
            assert(n as int == -(mag as int));
        }
        Some(n)
    } else {
        let mag = match parse_ascii_u128(bytes) {
            Some(m) => m,
            None => {
                return None;
            },
        };
        if mag > max_pos {
            return None;
        }
        proof {
            assert((mag as i128) as int == mag as int);
        }
        Some(mag as i128)
    }
}

/// The characters that a byte string decodes to as UTF-8, or nothing if it
/// is not valid UTF-8; a function of the bytes alone.
pub uninterp spec fn utf8_decode(b: Seq<u8>) -> Option<Seq<char>>;

/// Relies on `String::from_utf8`: whether the bytes are valid UTF-8, and
/// which characters they decode to, depend on the bytes alone.
#[verifier::external_body]
fn utf8_to_string(bytes: Vec<u8>) -> (r: Result<String, IoError>)
    ensures
        match r {
            Ok(s) => utf8_decode(bytes@) == Some(s@),
            Err(e) => utf8_decode(bytes@) is None && e.kind == IoErrorKind::InvalidData,
        },
{
    match String::from_utf8(bytes) {
        Ok(s) => Ok(s),
        Err(_) => Err(IoError { kind: IoErrorKind::InvalidData }),
    }
}

} // verus!
