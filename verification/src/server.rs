//! The server side of the wire protocol.
//!
//! `serve` pumps one connection: it reads request frames from a transport,
//! calls the backing `Server`, and writes the response frames; each request
//! is handled by `serve_request`, whose contract fixes the exact bytes
//! consumed and sent for every opcode and ties the reply to what the
//! backing server answered.  `DbServer` backs a connection with a database,
//! holding the per-connection mode — plain reads and writes, an open
//! transaction, or a pinned snapshot — and its relational contracts say
//! what every operation does in each mode.

use vstd::prelude::*;

use vstd::bytes::spec_u32_to_le_bytes;

use crate::changes::{ChangeSet, Timestamp};
use crate::error::{IoError, IoErrorKind, TransactionConflict, TransactionError};
use crate::query::{count_clamp, key_views, list_result_ok, scan_result_ok};
use crate::store::{
    chain_lookup, chain_value, head_ok, layered_lookup, past_snapshot_node, Database, Snapshot,
};
use crate::txn::{segment_conflicts, Transaction};
use crate::wire::{
    lemma_lengthed_all_snoc, lemma_lengthed_pairs_snoc, lemma_total_key_len_take,
    lemma_total_pair_len_take, lengthed, lengthed_all, lengthed_pairs, total_key_len,
    total_pair_len, Transport, OP_COMMIT, OP_CONFLICT, OP_COUNT, OP_LEN, OP_LIMIT_EXCEEDED,
    OP_LIST, OP_READ, OP_ROLLBACK, OP_SCAN, OP_START_TRANSACTION, OP_WRITE,
};

verus! {

/// What a connection needs from the store behind it.  A server value
/// carries its own well-formedness, which every operation preserves, and a
/// relational predicate per operation saying what a finished call did; the
/// defaults promise nothing, and the library's database-backed server
/// strengthens them to the store's real meaning.
pub trait Server: Sized {
    open spec fn wf(&self) -> bool {
        true
    }

    open spec fn len_ok(pre: Self, post: Self, key: Seq<u8>, r: Result<u32, IoError>) -> bool {
        true
    }

    open spec fn read_ok(pre: Self, post: Self, key: Seq<u8>, r: Result<Vec<u8>, IoError>) -> bool {
        true
    }

    open spec fn write_ok(
        pre: Self,
        post: Self,
        key: Seq<u8>,
        value: Seq<u8>,
        r: Result<(), IoError>,
    ) -> bool {
        true
    }

    open spec fn start_transaction_ok(pre: Self, post: Self, r: Result<(), IoError>) -> bool {
        true
    }

    open spec fn commit_ok(
        pre: Self,
        post: Self,
        r: Result<Result<(), TransactionConflict>, IoError>,
    ) -> bool {
        true
    }

    open spec fn rollback_ok(pre: Self, post: Self, r: Result<(), IoError>) -> bool {
        true
    }

    open spec fn count_ok(
        pre: Self,
        post: Self,
        start: Seq<u8>,
        end: Seq<u8>,
        r: Result<u32, IoError>,
    ) -> bool {
        true
    }

    open spec fn list_ok(
        pre: Self,
        post: Self,
        start: Seq<u8>,
        end: Seq<u8>,
        r: Result<Vec<Vec<u8>>, IoError>,
    ) -> bool {
        true
    }

    open spec fn scan_ok(
        pre: Self,
        post: Self,
        start: Seq<u8>,
        end: Seq<u8>,
        r: Result<Vec<(Vec<u8>, Vec<u8>)>, IoError>,
    ) -> bool {
        true
    }

    /// The longest key or value this server accepts from the wire.
    fn max_len(&self) -> (r: u32)
        requires
            self.wf(),
    ;

    fn len(&mut self, key: &Vec<u8>) -> (r: Result<u32, IoError>)
        requires
            old(self).wf(),
        ensures
            final(self).wf(),
            Self::len_ok(*old(self), *final(self), key@, r),
    ;

    fn read(&mut self, key: &Vec<u8>) -> (r: Result<Vec<u8>, IoError>)
        requires
            old(self).wf(),
        ensures
            final(self).wf(),
            Self::read_ok(*old(self), *final(self), key@, r),
    ;

    fn write(&mut self, key: &Vec<u8>, value: &Vec<u8>) -> (r: Result<(), IoError>)
        requires
            old(self).wf(),
        ensures
            final(self).wf(),
            Self::write_ok(*old(self), *final(self), key@, value@, r),
    ;

    fn start_transaction(&mut self) -> (r: Result<(), IoError>)
        requires
            old(self).wf(),
        ensures
            final(self).wf(),
            Self::start_transaction_ok(*old(self), *final(self), r),
    ;

    fn commit(&mut self) -> (r: Result<Result<(), TransactionConflict>, IoError>)
        requires
            old(self).wf(),
        ensures
            final(self).wf(),
            Self::commit_ok(*old(self), *final(self), r),
    ;

    fn rollback(&mut self) -> (r: Result<(), IoError>)
        requires
            old(self).wf(),
        ensures
            final(self).wf(),
            Self::rollback_ok(*old(self), *final(self), r),
    ;

    fn count(&mut self, start: &Vec<u8>, end: &Vec<u8>) -> (r: Result<u32, IoError>)
        requires
            old(self).wf(),
        ensures
            final(self).wf(),
            Self::count_ok(*old(self), *final(self), start@, end@, r),
    ;

    fn list(&mut self, start: &Vec<u8>, end: &Vec<u8>) -> (r: Result<Vec<Vec<u8>>, IoError>)
        requires
            old(self).wf(),
        ensures
            final(self).wf(),
            Self::list_ok(*old(self), *final(self), start@, end@, r),
    ;

    fn scan(&mut self, start: &Vec<u8>, end: &Vec<u8>) -> (r: Result<
        Vec<(Vec<u8>, Vec<u8>)>,
        IoError,
    >)
        requires
            old(self).wf(),
        ensures
            final(self).wf(),
            Self::scan_ok(*old(self), *final(self), start@, end@, r),
    ;
}

fn send_op<T: Transport>(stream: &mut T, b: u8) -> (r: Result<(), IoError>)
    ensures
        r is Ok ==> final(stream).sent() == old(stream).sent() + seq![b] && final(stream).taken()
            == old(stream).taken() && final(stream).remaining() == old(stream).remaining(),
{
    let buf: [u8; 1] = [b];
    let res = stream.send(buf.as_slice());
    proof {
        if res is Ok {
            assert(buf@ =~= seq![b]);
        }
    }
    res
}

fn send_num<T: Transport>(stream: &mut T, x: u32) -> (r: Result<(), IoError>)
    ensures
        r is Ok ==> final(stream).sent() == old(stream).sent() + spec_u32_to_le_bytes(x) && final(stream).taken() == old(stream).taken() && final(stream).remaining() == old(stream).remaining(),
{
    let buf = vstd::bytes::u32_to_le_bytes(x);
    stream.send(buf.as_slice())
}

fn recv_op<T: Transport>(stream: &mut T) -> (r: Result<u8, IoError>)
    ensures
        r matches Ok(b) ==> final(stream).taken() == old(stream).taken() + seq![b] && final(stream).sent() == old(stream).sent() && final(stream).remaining() + 1 == old(stream).remaining(),
{
    match stream.recv(1) {
        Ok(v) => {
            proof {
                assert(v@ =~= seq![v@[0]]);
            }
            Ok(v[0])
        },
        Err(e) => Err(e),
    }
}

fn recv_num<T: Transport>(stream: &mut T) -> (r: Result<u32, IoError>)
    ensures
        r matches Ok(x) ==> final(stream).taken() == old(stream).taken() + spec_u32_to_le_bytes(x)
            && final(stream).sent() == old(stream).sent() && final(stream).remaining() + 4 == old(stream).remaining(),
{
    match stream.recv(4) {
        Ok(v) => {
            let x = vstd::bytes::u32_from_le_bytes(v.as_slice());
            proof {
                vstd::bytes::lemma_auto_spec_u32_to_from_le_bytes();
            }
            Ok(x)
        },
        Err(e) => Err(e),
    }
}

/// Read a length-prefixed byte string, refusing one longer than `max_len`.
fn recv_lengthed<T: Transport>(stream: &mut T, max_len: u32) -> (r: Result<Vec<u8>, IoError>)
    ensures
        r matches Ok(v) ==> v@.len() <= max_len && final(stream).taken() == old(stream).taken()
            + lengthed(v@) && final(stream).sent() == old(stream).sent() && final(stream).remaining() + 4 <= old(stream).remaining(),
{
    let n = recv_num(stream)?;
    if n > max_len {
        return Err(IoError::protocol());
    }
    let v = stream.recv(n as usize)?;
    proof {
        assert(v@.len() as u32 == n);
        assert(old(stream).taken() + spec_u32_to_le_bytes(n) + v@ =~= old(stream).taken()
            + lengthed(v@));
    }
    Ok(v)
}

/// Send one length-prefixed byte string, as the response frames carry them.
fn send_lengthed<T: Transport>(stream: &mut T, chunk: &Vec<u8>) -> (r: Result<(), IoError>)
    ensures
        r is Ok ==> chunk@.len() <= u32::MAX && final(stream).sent() == old(stream).sent()
            + lengthed(chunk@) && final(stream).taken() == old(stream).taken() && final(stream).remaining() == old(stream).remaining(),
{
    if chunk.len() > u32::MAX as usize {
        return Err(IoError::protocol());
    }
    send_num(stream, chunk.len() as u32)?;
    let res = stream.send(chunk.as_slice());
    proof {
        if res is Ok {
            assert(old(stream).sent() + spec_u32_to_le_bytes(chunk@.len() as u32) + chunk@
                =~= old(stream).sent() + lengthed(chunk@));
        }
    }
    res
}

/// The request opcodes `serve` understands.
pub open spec fn known_op(op: u8) -> bool {
    ||| op == OP_LEN
    ||| op == OP_READ
    ||| op == OP_WRITE
    ||| op == OP_START_TRANSACTION
    ||| op == OP_COMMIT
    ||| op == OP_ROLLBACK
    ||| op == OP_COUNT
    ||| op == OP_LIST
    ||| op == OP_SCAN
}

/// A listing reply fits the client's cap when the row count fits its u32
/// field and the keys' bytes do not exceed the cap.
pub open spec fn list_reply_fits(rows: Seq<Seq<u8>>, cap: u32) -> bool {
    rows.len() <= u32::MAX && total_key_len(rows) <= cap
}

/// A scan reply fits the client's cap when the row count fits its u32 field
/// and the keys' and values' bytes do not exceed the cap.
pub open spec fn scan_reply_fits(rows: Seq<(Seq<u8>, Seq<u8>)>, cap: u32) -> bool {
    rows.len() <= u32::MAX && total_pair_len(rows) <= cap
}

/// Handle one request whose opcode byte has already been consumed: read its
/// payload, call the backing server, and send the response frame.
#[verifier::rlimit(100)]
fn serve_request<T: Transport, S: Server>(stream: &mut T, server: &mut S, op: u8) -> (r: Result<
    (),
    IoError,
>)
    requires
        old(server).wf(),
    ensures
        final(server).wf(),
        r is Ok ==> final(stream).remaining() <= old(stream).remaining(),
        !known_op(op) ==> (r matches Err(e) && e.kind == IoErrorKind::InvalidData
            && *final(stream) == *old(stream) && *final(server) == *old(server)),
        r is Ok && op == OP_LEN ==> exists|key: Seq<u8>, n: u32|
            #![auto]
            {
                &&& final(stream).taken() == old(stream).taken() + lengthed(key)
                &&& S::len_ok(*old(server), *final(server), key, Ok(n))
                &&& final(stream).sent() == old(stream).sent() + seq![OP_LEN]
                    + spec_u32_to_le_bytes(n)
            },
        r is Ok && op == OP_READ ==> exists|key: Seq<u8>, cap: u32, v: Vec<u8>|
            #![auto]
            {
                &&& final(stream).taken() == old(stream).taken() + lengthed(key)
                    + spec_u32_to_le_bytes(cap)
                &&& S::read_ok(*old(server), *final(server), key, Ok(v))
                &&& final(stream).sent() == old(stream).sent() + (if v@.len() <= cap {
                    seq![OP_READ] + lengthed(v@)
                } else {
                    seq![OP_LIMIT_EXCEEDED]
                })
            },
        r is Ok && op == OP_WRITE ==> exists|key: Seq<u8>, value: Seq<u8>|
            #![auto]
            {
                &&& final(stream).taken() == old(stream).taken() + lengthed(key) + lengthed(value)
                &&& S::write_ok(*old(server), *final(server), key, value, Ok(()))
                &&& final(stream).sent() == old(stream).sent() + seq![OP_WRITE]
            },
        r is Ok && op == OP_START_TRANSACTION ==> final(stream).taken() == old(stream).taken()
            && S::start_transaction_ok(*old(server), *final(server), Ok(())) && final(stream).sent() == old(stream).sent() + seq![OP_START_TRANSACTION],
        r is Ok && op == OP_COMMIT ==> exists|outcome: Result<(), TransactionConflict>|
            #![auto]
            {
                &&& final(stream).taken() == old(stream).taken()
                &&& S::commit_ok(*old(server), *final(server), Ok(outcome))
                &&& final(stream).sent() == old(stream).sent() + (if outcome is Ok {
                    seq![OP_COMMIT]
                } else {
                    seq![OP_CONFLICT]
                })
            },
        r is Ok && op == OP_ROLLBACK ==> final(stream).taken() == old(stream).taken()
            && S::rollback_ok(*old(server), *final(server), Ok(())) && final(stream).sent()
            == old(stream).sent() + seq![OP_ROLLBACK],
        r is Ok && op == OP_COUNT ==> exists|start: Seq<u8>, end: Seq<u8>, n: u32|
            #![auto]
            {
                &&& final(stream).taken() == old(stream).taken() + lengthed(start) + lengthed(end)
                &&& S::count_ok(*old(server), *final(server), start, end, Ok(n))
                &&& final(stream).sent() == old(stream).sent() + seq![OP_COUNT]
                    + spec_u32_to_le_bytes(n)
            },
        r is Ok && op == OP_LIST ==> exists|
            start: Seq<u8>,
            end: Seq<u8>,
            cap: u32,
            rows: Vec<Vec<u8>>,
        |
            #![auto]
            {
                &&& final(stream).taken() == old(stream).taken() + lengthed(start) + lengthed(end)
                    + spec_u32_to_le_bytes(cap)
                &&& S::list_ok(*old(server), *final(server), start, end, Ok(rows))
                &&& final(stream).sent() == old(stream).sent() + (if list_reply_fits(
                    key_views(rows@),
                    cap,
                ) {
                    seq![OP_LIST] + spec_u32_to_le_bytes(rows@.len() as u32) + lengthed_all(
                        key_views(rows@),
                    )
                } else {
                    seq![OP_LIMIT_EXCEEDED]
                })
            },
        r is Ok && op == OP_SCAN ==> exists|
            start: Seq<u8>,
            end: Seq<u8>,
            cap: u32,
            rows: Vec<(Vec<u8>, Vec<u8>)>,
        |
            #![auto]
            {
                &&& final(stream).taken() == old(stream).taken() + lengthed(start) + lengthed(end)
                    + spec_u32_to_le_bytes(cap)
                &&& S::scan_ok(*old(server), *final(server), start, end, Ok(rows))
                &&& final(stream).sent() == old(stream).sent() + (if scan_reply_fits(
                    crate::changes::entry_views(rows@),
                    cap,
                ) {
                    seq![OP_SCAN] + spec_u32_to_le_bytes(rows@.len() as u32) + lengthed_pairs(
                        crate::changes::entry_views(rows@),
                    )
                } else {
                    seq![OP_LIMIT_EXCEEDED]
                })
            },
{
    if op == OP_LEN {
        let max = server.max_len();
        let key = recv_lengthed(stream, max)?;
        let n = server.len(&key)?;
        send_op(stream, OP_LEN)?;
        send_num(stream, n)?;
        proof {
            assert(stream.sent() == old(stream).sent() + seq![OP_LEN]
                + spec_u32_to_le_bytes(n));
        }
        Ok(())
    } else if op == OP_READ {
        let max = server.max_len();
        let key = recv_lengthed(stream, max)?;
        let client_max = recv_num(stream)?;
        proof {
            assert(stream.taken() == old(stream).taken() + lengthed(key@)
                + spec_u32_to_le_bytes(client_max));
        }
        let value = server.read(&key)?;
        if value.len() <= client_max as usize {
            send_op(stream, OP_READ)?;
            send_lengthed(stream, &value)?;
            proof {
                assert(stream.sent() == old(stream).sent() + (seq![OP_READ] + lengthed(
                    value@,
                )));
            }
        } else {
            send_op(stream, OP_LIMIT_EXCEEDED)?;
        }
        Ok(())
    } else if op == OP_WRITE {
        let max = server.max_len();
        let key = recv_lengthed(stream, max)?;
        let value = recv_lengthed(stream, max)?;
        proof {
            assert(stream.taken() == old(stream).taken() + lengthed(key@) + lengthed(
                value@,
            ));
        }
        server.write(&key, &value)?;
        send_op(stream, OP_WRITE)?;
        Ok(())
    } else if op == OP_START_TRANSACTION {
        server.start_transaction()?;
        send_op(stream, OP_START_TRANSACTION)?;
        Ok(())
    } else if op == OP_COMMIT {
        let ret = server.commit();
        let outcome = match ret {
            Ok(o) => o,
            Err(e) => {
                return Err(e);
            },
        };
        proof {
            assert(S::commit_ok(*old(server), *server, ret));
            assert(ret == Ok::<Result<(), TransactionConflict>, IoError>(outcome));
        }
        match outcome {
            Ok(()) => {
                proof {
                    assert(S::commit_ok(*old(server), *server, Ok(outcome)));
                }
                send_op(stream, OP_COMMIT)?;
            },
            Err(TransactionConflict) => {
                proof {
                    assert(S::commit_ok(*old(server), *server, Ok(outcome)));
                }
                send_op(stream, OP_CONFLICT)?;
            },
        }
        Ok(())
    } else if op == OP_ROLLBACK {
        server.rollback()?;
        send_op(stream, OP_ROLLBACK)?;
        Ok(())
    } else if op == OP_COUNT {
        let max = server.max_len();
        let start = recv_lengthed(stream, max)?;
        let end = recv_lengthed(stream, max)?;
        proof {
            assert(stream.taken() == old(stream).taken() + lengthed(start@) + lengthed(
                end@,
            ));
        }
        let n = server.count(&start, &end)?;
        send_op(stream, OP_COUNT)?;
        send_num(stream, n)?;
        proof {
            assert(stream.sent() == old(stream).sent() + seq![OP_COUNT]
                + spec_u32_to_le_bytes(n));
        }
        Ok(())
    } else if op == OP_LIST {
        let max = server.max_len();
        let start = recv_lengthed(stream, max)?;
        let end = recv_lengthed(stream, max)?;
        let client_max = recv_num(stream)?;
        proof {
            assert(stream.taken() == old(stream).taken() + lengthed(start@) + lengthed(
                end@,
            ) + spec_u32_to_le_bytes(client_max));
        }
        let rows = match server.list(&start, &end) {
            Ok(rows) => rows,
            Err(e) => {
                return Err(e);
            },
        };
        proof {
            assert(S::list_ok(*old(server), *server, start@, end@, Ok(rows)));
        }
        let ghost kv = key_views(rows@);
        let mut total: usize = 0;
        let mut fits = rows.len() <= u32::MAX as usize;
        let mut i: usize = 0;
        while i < rows.len()
            invariant
                0 <= i <= rows@.len(),
                kv == key_views(rows@),
                fits ==> rows@.len() <= u32::MAX && total == total_key_len(kv.take(i as int)),
                !fits ==> !list_reply_fits(kv, client_max),
            decreases rows@.len() - i,
        {
            proof {
                assert(kv.take(i as int + 1) =~= kv.take(i as int).push(kv[i as int]));
                crate::wire::lemma_total_key_len_snoc(kv.take(i as int), kv[i as int]);
            }
            match total.checked_add(rows[i].len()) {
                Some(t) => {
                    total = t;
                },
                None => {
                    proof {
                        if fits {
                            lemma_total_key_len_take(kv, i as int + 1);
                        }
                    }
                    fits = false;
                },
            }
            i = i + 1;
        }
        proof {
            assert(kv.take(rows@.len() as int) =~= kv);
        }
        if fits && total <= client_max as usize {
            send_op(stream, OP_LIST)?;
            send_num(stream, rows.len() as u32)?;
            let ghost base = stream.sent();
            proof {
                assert(kv.take(0) =~= Seq::<Seq<u8>>::empty());
                assert(base + lengthed_all(kv.take(0)) =~= base);
            }
            let mut j: usize = 0;
            while j < rows.len()
                invariant
                    op == OP_LIST,
                    0 <= j <= rows@.len(),
                    kv == key_views(rows@),
                    server.wf(),
                    stream.sent() == base + lengthed_all(kv.take(j as int)),
                    stream.taken() == old(stream).taken() + lengthed(start@) + lengthed(end@)
                        + spec_u32_to_le_bytes(client_max),
                    stream.remaining() <= old(stream).remaining(),
                decreases rows@.len() - j,
            {
                send_lengthed(stream, &rows[j])?;
                proof {
                    assert(kv.take(j as int + 1) =~= kv.take(j as int).push(kv[j as int]));
                    lemma_lengthed_all_snoc(kv.take(j as int), kv[j as int]);
                }
                j = j + 1;
            }
            proof {
                assert(kv.take(rows@.len() as int) =~= kv);
                assert(list_reply_fits(kv, client_max));
                assert(stream.sent() == old(stream).sent() + (if list_reply_fits(
                    kv,
                    client_max,
                ) {
                    seq![OP_LIST] + spec_u32_to_le_bytes(rows@.len() as u32) + lengthed_all(kv)
                } else {
                    seq![OP_LIMIT_EXCEEDED]
                }));
            }
        } else {
            proof {
                assert(!list_reply_fits(kv, client_max));
            }
            send_op(stream, OP_LIMIT_EXCEEDED)?;
            proof {
                assert(stream.sent() == old(stream).sent() + (if list_reply_fits(
                    kv,
                    client_max,
                ) {
                    seq![OP_LIST] + spec_u32_to_le_bytes(rows@.len() as u32) + lengthed_all(kv)
                } else {
                    seq![OP_LIMIT_EXCEEDED]
                }));
            }
        }
        proof {
            assert(exists|start2: Seq<u8>, end2: Seq<u8>, cap2: u32, rows2: Vec<Vec<u8>>|
                #![auto]
                {
                    &&& stream.taken() == old(stream).taken() + lengthed(start2) + lengthed(end2)
                        + spec_u32_to_le_bytes(cap2)
                    &&& S::list_ok(*old(server), *server, start2, end2, Ok(rows2))
                    &&& stream.sent() == old(stream).sent() + (if list_reply_fits(
                        key_views(rows2@),
                        cap2,
                    ) {
                        seq![OP_LIST] + spec_u32_to_le_bytes(rows2@.len() as u32) + lengthed_all(
                            key_views(rows2@),
                        )
                    } else {
                        seq![OP_LIMIT_EXCEEDED]
                    })
                }) by {
                assert(S::list_ok(*old(server), *server, start@, end@, Ok(rows)));
                assert(stream.taken() == old(stream).taken() + lengthed(start@) + lengthed(end@)
                    + spec_u32_to_le_bytes(client_max));
                assert(stream.sent() == old(stream).sent() + (if list_reply_fits(
                    key_views(rows@),
                    client_max,
                ) {
                    seq![OP_LIST] + spec_u32_to_le_bytes(rows@.len() as u32) + lengthed_all(
                        key_views(rows@),
                    )
                } else {
                    seq![OP_LIMIT_EXCEEDED]
                }));
            }
        }
        Ok(())
    } else if op == OP_SCAN {
        let max = server.max_len();
        let start = recv_lengthed(stream, max)?;
        let end = recv_lengthed(stream, max)?;
        let client_max = recv_num(stream)?;
        proof {
            assert(stream.taken() == old(stream).taken() + lengthed(start@) + lengthed(
                end@,
            ) + spec_u32_to_le_bytes(client_max));
        }
        let rows = match server.scan(&start, &end) {
            Ok(rows) => rows,
            Err(e) => {
                return Err(e);
            },
        };
        proof {
            assert(S::scan_ok(*old(server), *server, start@, end@, Ok(rows)));
        }
        let ghost pv = crate::changes::entry_views(rows@);
        let mut total: usize = 0;
        let mut fits = rows.len() <= u32::MAX as usize;
        let mut i: usize = 0;
        while i < rows.len()
            invariant
                0 <= i <= rows@.len(),
                pv == crate::changes::entry_views(rows@),
                fits ==> rows@.len() <= u32::MAX && total == total_pair_len(pv.take(i as int)),
                !fits ==> !scan_reply_fits(pv, client_max),
            decreases rows@.len() - i,
        {
            proof {
                assert(pv.take(i as int + 1) =~= pv.take(i as int).push(pv[i as int]));
                crate::wire::lemma_total_pair_len_snoc(pv.take(i as int), pv[i as int]);
            }
            let add1 = total.checked_add(rows[i].0.len());
            let add2 = match add1 {
                Some(t) => t.checked_add(rows[i].1.len()),
                None => None,
            };
            match add2 {
                Some(t) => {
                    total = t;
                },
                None => {
                    proof {
                        if fits {
                            lemma_total_pair_len_take(pv, i as int + 1);
                        }
                    }
                    fits = false;
                },
            }
            i = i + 1;
        }
        proof {
            assert(pv.take(rows@.len() as int) =~= pv);
        }
        if fits && total <= client_max as usize {
            send_op(stream, OP_SCAN)?;
            send_num(stream, rows.len() as u32)?;
            let ghost base = stream.sent();
            proof {
                assert(pv.take(0) =~= Seq::<(Seq<u8>, Seq<u8>)>::empty());
                assert(base + lengthed_pairs(pv.take(0)) =~= base);
            }
            let mut j: usize = 0;
            while j < rows.len()
                invariant
                    op == OP_SCAN,
                    0 <= j <= rows@.len(),
                    pv == crate::changes::entry_views(rows@),
                    server.wf(),
                    stream.sent() == base + lengthed_pairs(pv.take(j as int)),
                    stream.taken() == old(stream).taken() + lengthed(start@) + lengthed(end@)
                        + spec_u32_to_le_bytes(client_max),
                    stream.remaining() <= old(stream).remaining(),
                decreases rows@.len() - j,
            {
                send_lengthed(stream, &rows[j].0)?;
                send_lengthed(stream, &rows[j].1)?;
                proof {
                    assert(pv.take(j as int + 1) =~= pv.take(j as int).push(pv[j as int]));
                    lemma_lengthed_pairs_snoc(pv.take(j as int), pv[j as int]);
                }
                j = j + 1;
            }
            proof {
                assert(pv.take(rows@.len() as int) =~= pv);
                assert(scan_reply_fits(pv, client_max));
                assert(stream.sent() == old(stream).sent() + (if scan_reply_fits(
                    pv,
                    client_max,
                ) {
                    seq![OP_SCAN] + spec_u32_to_le_bytes(rows@.len() as u32) + lengthed_pairs(pv)
                } else {
                    seq![OP_LIMIT_EXCEEDED]
                }));
            }
        } else {
            proof {
                assert(!scan_reply_fits(pv, client_max));
            }
            send_op(stream, OP_LIMIT_EXCEEDED)?;
            proof {
                assert(stream.sent() == old(stream).sent() + (if scan_reply_fits(
                    pv,
                    client_max,
                ) {
                    seq![OP_SCAN] + spec_u32_to_le_bytes(rows@.len() as u32) + lengthed_pairs(pv)
                } else {
                    seq![OP_LIMIT_EXCEEDED]
                }));
            }
        }
        proof {
            assert(exists|
                start2: Seq<u8>,
                end2: Seq<u8>,
                cap2: u32,
                rows2: Vec<(Vec<u8>, Vec<u8>)>,
            |
                #![auto]
                {
                    &&& stream.taken() == old(stream).taken() + lengthed(start2) + lengthed(end2)
                        + spec_u32_to_le_bytes(cap2)
                    &&& S::scan_ok(*old(server), *server, start2, end2, Ok(rows2))
                    &&& stream.sent() == old(stream).sent() + (if scan_reply_fits(
                        crate::changes::entry_views(rows2@),
                        cap2,
                    ) {
                        seq![OP_SCAN] + spec_u32_to_le_bytes(rows2@.len() as u32)
                            + lengthed_pairs(crate::changes::entry_views(rows2@))
                    } else {
                        seq![OP_LIMIT_EXCEEDED]
                    })
                }) by {
                assert(S::scan_ok(*old(server), *server, start@, end@, Ok(rows)));
                assert(stream.taken() == old(stream).taken() + lengthed(start@) + lengthed(end@)
                    + spec_u32_to_le_bytes(client_max));
                assert(stream.sent() == old(stream).sent() + (if scan_reply_fits(
                    crate::changes::entry_views(rows@),
                    client_max,
                ) {
                    seq![OP_SCAN] + spec_u32_to_le_bytes(rows@.len() as u32) + lengthed_pairs(
                        crate::changes::entry_views(rows@),
                    )
                } else {
                    seq![OP_LIMIT_EXCEEDED]
                }));
            }
        }
        Ok(())
    } else {
        Err(IoError::protocol())
    }
}

/// Serve one connection until it closes.  A connection reset or input that
/// ends — anywhere, even inside a frame — is a normal hangup and returns
/// `Ok`; every other failure is returned.  What each request does is
/// `serve_request`'s contract.
pub fn serve<T: Transport, S: Server>(stream: &mut T, server: &mut S) -> (r: Result<(), IoError>)
    requires
        old(server).wf(),
    ensures
        final(server).wf(),
        r matches Err(e) ==> e.kind != IoErrorKind::ConnectionReset && e.kind
            != IoErrorKind::UnexpectedEof,
{
    loop
        invariant
            server.wf(),
        decreases stream.remaining(),
    {
        let op = match recv_op(stream) {
            Ok(op) => op,
            Err(e) => {
                if e.kind == IoErrorKind::ConnectionReset || e.kind == IoErrorKind::UnexpectedEof {
                    return Ok(());
                }
                return Err(e);
            },
        };
        match serve_request(stream, server, op) {
            Ok(()) => {},
            Err(e) => {
                if e.kind == IoErrorKind::ConnectionReset || e.kind == IoErrorKind::UnexpectedEof {
                    return Ok(());
                }
                return Err(e);
            },
        }
    }
}

/// What a connection is in the middle of: nothing, a transaction, or a
/// read-only snapshot (pinning a chain node by its arena index).
pub enum ServerMode {
    Normal,
    Transaction(Transaction),
    Snapshot(Option<usize>),
}

/// A connection's server backed by a database it owns.
pub struct DbServer {
    db: Database,
    mode: ServerMode,
}

/// What a read answers in each mode: the database's durable view, the
/// transaction's layered view, or the pinned snapshot; the empty key reads
/// empty except through a raw snapshot, which has no such reservation.
pub open spec fn mode_read(pre: DbServer, key: Seq<u8>) -> Seq<u8> {
    match pre.spec_mode() {
        ServerMode::Normal => if key.len() == 0 {
            Seq::empty()
        } else {
            pre.spec_db().spec_read(key)
        },
        ServerMode::Transaction(t0) => if key.len() == 0 {
            Seq::empty()
        } else {
            match layered_lookup(pre.spec_db().nodes@, t0.base, Some(t0.staged), key) {
                Some(v) => v,
                None => Seq::empty(),
            }
        },
        ServerMode::Snapshot(h) => chain_value(pre.spec_db().nodes@, h, key),
    }
}

/// The chain head a range query runs from in each mode.
pub open spec fn mode_head(pre: DbServer) -> Option<usize> {
    match pre.spec_mode() {
        ServerMode::Normal => pre.spec_db().spec_load_master(),
        ServerMode::Transaction(t0) => t0.base,
        ServerMode::Snapshot(h) => h,
    }
}

/// The staged change-set a range query layers over the chain, if any.
pub open spec fn mode_extra(pre: DbServer) -> Option<ChangeSet> {
    match pre.spec_mode() {
        ServerMode::Transaction(t0) => Some(t0.staged),
        _ => None,
    }
}

/// A query leaves the connection as it was: same database, same mode, with
/// a transaction's base and staged writes untouched (its witnesses may
/// grow).
pub open spec fn mode_preserved(pre: DbServer, post: DbServer) -> bool {
    &&& post.spec_db() == pre.spec_db()
    &&& match (pre.spec_mode(), post.spec_mode()) {
        (ServerMode::Normal, ServerMode::Normal) => true,
        (ServerMode::Transaction(t0), ServerMode::Transaction(t1)) => t1.base == t0.base
            && t1.staged == t0.staged,
        (ServerMode::Snapshot(h0), ServerMode::Snapshot(h1)) => h1 == h0,
        _ => false,
    }
}

impl DbServer {
    pub closed spec fn spec_db(&self) -> Database {
        self.db
    }

    pub closed spec fn spec_mode(&self) -> ServerMode {
        self.mode
    }

    pub closed spec fn inv(&self) -> bool {
        &&& self.db.wf()
        &&& match self.mode {
            ServerMode::Normal => true,
            ServerMode::Transaction(tx) => tx.valid_for(&self.db)
                && tx.staged.view_entries().len() <= u32::MAX,
            ServerMode::Snapshot(h) => head_ok(self.db.nodes@, h),
        }
    }

    pub fn new(db: Database) -> (r: DbServer)
        requires
            db.wf(),
        ensures
            r.inv(),
            r.spec_db() == db,
            r.spec_mode() is Normal,
    {
        DbServer { db, mode: ServerMode::Normal }
    }

    /// Give the database back, ending this connection's view of it.
    pub fn into_db(self) -> (r: Database)
        requires
            self.inv(),
        ensures
            r.wf(),
            r == self.spec_db(),
    {
        let DbServer { db, mode } = self;
        db
    }

    /// Swap the current mode out for `Normal` and hand it back.
    fn take_mode(&mut self) -> (r: ServerMode)
        requires
            old(self).inv(),
        ensures
            final(self).inv(),
            final(self).db == old(self).db,
            r == old(self).mode,
            final(self).mode is Normal,
    {
        let mut mode = ServerMode::Normal;
        core::mem::swap(&mut self.mode, &mut mode);
        mode
    }

    /// Enter snapshot mode, pinning the durable state or, with a time, the
    /// newest commit at or before it; any open transaction is dropped.
    pub fn start_snapshot(&mut self, past_unix_time: Option<Timestamp>) -> (r: Result<
        (),
        IoError,
    >)
        requires
            old(self).inv(),
        ensures
            final(self).inv(),
            r is Ok,
            final(self).spec_db() == old(self).spec_db(),
            final(self).spec_mode() matches ServerMode::Snapshot(h) && h == (
            match past_unix_time {
                Some(t) => past_snapshot_node(
                    old(self).spec_db().nodes@,
                    old(self).spec_db().resolved_head,
                    t,
                ),
                None => old(self).spec_db().spec_load_master(),
            }),
    {
        let _ = self.take_mode();
        let node = match past_unix_time {
            Some(t) => self.db.past_unix_time_snapshot_with(t).node,
            None => self.db.snapshot().node,
        };
        self.mode = ServerMode::Snapshot(node);
        Ok(())
    }
}

impl Server for DbServer {
    open spec fn wf(&self) -> bool {
        self.inv()
    }

    /// A read never fails, never changes anything, and answers the mode's
    /// effective value.
    open spec fn read_ok(
        pre: DbServer,
        post: DbServer,
        key: Seq<u8>,
        r: Result<Vec<u8>, IoError>,
    ) -> bool {
        &&& r is Ok
        &&& mode_preserved(pre, post)
        &&& r matches Ok(v) ==> v@ == mode_read(pre, key)
    }

    /// A length query answers the length of what a read would.
    open spec fn len_ok(pre: DbServer, post: DbServer, key: Seq<u8>, r: Result<u32, IoError>) -> bool {
        &&& r is Ok
        &&& mode_preserved(pre, post)
        &&& r matches Ok(n) ==> n == mode_read(pre, key).len()
    }

    /// A write commits directly in Normal mode, stages in a transaction,
    /// and is a protocol error in a snapshot; oversized keys or values and
    /// a full staged change-set are refused.
    open spec fn write_ok(
        pre: DbServer,
        post: DbServer,
        key: Seq<u8>,
        value: Seq<u8>,
        r: Result<(), IoError>,
    ) -> bool {
        if key.len() > u32::MAX || value.len() > u32::MAX {
            &&& r matches Err(e) && e.kind == IoErrorKind::InvalidData
            &&& post.spec_db() == pre.spec_db()
            &&& post.spec_mode() == pre.spec_mode()
        } else {
            match pre.spec_mode() {
                ServerMode::Normal => {
                    &&& r is Ok
                    &&& post.spec_mode() is Normal
                    &&& key.len() == 0 ==> post.spec_db() == pre.spec_db()
                    &&& key.len() > 0 ==> forall|k: Seq<u8>|
                        chain_lookup(post.spec_db().nodes@, post.spec_db().resolved_head, k) == (
                        if k == key {
                            Some(value)
                        } else {
                            chain_lookup(pre.spec_db().nodes@, pre.spec_db().resolved_head, k)
                        })
                },
                ServerMode::Transaction(t0) => if t0.staged.view_entries().len() >= u32::MAX {
                    &&& r matches Err(e) && e.kind == IoErrorKind::InvalidData
                    &&& post.spec_db() == pre.spec_db()
                    &&& post.spec_mode() == pre.spec_mode()
                } else {
                    &&& r is Ok
                    &&& post.spec_db() == pre.spec_db()
                    &&& post.spec_mode() matches ServerMode::Transaction(t1) && t1.base == t0.base
                        && t1.staged.as_map() == (if key.len() == 0 {
                        t0.staged.as_map()
                    } else {
                        t0.staged.as_map().insert(key, value)
                    })
                },
                ServerMode::Snapshot(_) => {
                    &&& r matches Err(e) && e.kind == IoErrorKind::InvalidData
                    &&& post.spec_db() == pre.spec_db()
                    &&& post.spec_mode() == pre.spec_mode()
                },
            }
        }
    }

    /// Entering a transaction drops whatever was open and captures the
    /// current head as the base snapshot, with nothing staged or witnessed.
    open spec fn start_transaction_ok(pre: DbServer, post: DbServer, r: Result<(), IoError>) -> bool {
        &&& r is Ok
        &&& post.spec_db() == pre.spec_db()
        &&& post.spec_mode() matches ServerMode::Transaction(t) && t.base == pre.spec_db(
        ).spec_load_master() && t.staged.as_map() == Map::<Seq<u8>, Seq<u8>>::empty()
            && t.read_witnesses() == Set::<Seq<u8>>::empty() && t.scan_witnesses() == Set::<
            (Seq<u8>, Seq<u8>),
        >::empty()
    }

    /// Committing an open transaction runs the commit protocol: success
    /// exactly when no interposed commit touched a witness, making the
    /// staged writes visible; a conflict changes nothing.  Either way the
    /// connection returns to Normal; without a transaction there is nothing
    /// to do.
    open spec fn commit_ok(
        pre: DbServer,
        post: DbServer,
        r: Result<Result<(), TransactionConflict>, IoError>,
    ) -> bool {
        &&& r is Ok
        &&& post.spec_mode() is Normal
        &&& match pre.spec_mode() {
            ServerMode::Transaction(t0) => {
                &&& r matches Ok(outcome) ==> {
                    &&& outcome is Ok ==> !segment_conflicts(
                        pre.spec_db().nodes@,
                        pre.spec_db().resolved_head,
                        t0.base,
                        t0.read_witnesses(),
                        t0.scan_witnesses(),
                    ) && forall|k: Seq<u8>|
                        chain_lookup(post.spec_db().nodes@, post.spec_db().resolved_head, k)
                            == layered_lookup(
                            pre.spec_db().nodes@,
                            pre.spec_db().resolved_head,
                            Some(t0.staged),
                            k,
                        )
                    &&& outcome is Err ==> post.spec_db() == pre.spec_db() && segment_conflicts(
                        pre.spec_db().nodes@,
                        pre.spec_db().resolved_head,
                        t0.base,
                        t0.read_witnesses(),
                        t0.scan_witnesses(),
                    )
                }
            },
            _ => r == Ok::<Result<(), TransactionConflict>, IoError>(Ok(()))
                && post.spec_db() == pre.spec_db(),
        }
    }

    /// A rollback discards whatever was open and changes nothing else.
    open spec fn rollback_ok(pre: DbServer, post: DbServer, r: Result<(), IoError>) -> bool {
        &&& r is Ok
        &&& post.spec_db() == pre.spec_db()
        &&& post.spec_mode() is Normal
    }

    /// A count answers the size of the mode's listing, saturating at the
    /// wire's u32.
    open spec fn count_ok(
        pre: DbServer,
        post: DbServer,
        start: Seq<u8>,
        end: Seq<u8>,
        r: Result<u32, IoError>,
    ) -> bool {
        &&& r is Ok
        &&& mode_preserved(pre, post)
        &&& r matches Ok(n) ==> exists|ks: Seq<Seq<u8>>|
            list_result_ok(pre.spec_db().nodes@, mode_head(pre), mode_extra(pre), start, end, ks)
                && n as int == count_clamp(ks.len() as int)
    }

    /// A listing answers exactly the mode's matching keys, sorted.
    open spec fn list_ok(
        pre: DbServer,
        post: DbServer,
        start: Seq<u8>,
        end: Seq<u8>,
        r: Result<Vec<Vec<u8>>, IoError>,
    ) -> bool {
        &&& r is Ok
        &&& mode_preserved(pre, post)
        &&& r matches Ok(rows) ==> list_result_ok(
            pre.spec_db().nodes@,
            mode_head(pre),
            mode_extra(pre),
            start,
            end,
            key_views(rows@),
        )
    }

    /// A scan answers the listing paired with each key's effective value.
    open spec fn scan_ok(
        pre: DbServer,
        post: DbServer,
        start: Seq<u8>,
        end: Seq<u8>,
        r: Result<Vec<(Vec<u8>, Vec<u8>)>, IoError>,
    ) -> bool {
        &&& r is Ok
        &&& mode_preserved(pre, post)
        &&& r matches Ok(rows) ==> scan_result_ok(
            pre.spec_db().nodes@,
            mode_head(pre),
            mode_extra(pre),
            start,
            end,
            crate::changes::entry_views(rows@),
        )
    }

    fn max_len(&self) -> (r: u32) {
        u32::MAX
    }

    fn len(&mut self, key: &Vec<u8>) -> (r: Result<u32, IoError>) {
        let mode = self.take_mode();
        match mode {
            ServerMode::Normal => Ok(self.db.len(key.as_slice())),
            ServerMode::Transaction(mut tr) => {
                let n = tr.len(&self.db, key.as_slice());
                self.mode = ServerMode::Transaction(tr);
                Ok(n)
            },
            ServerMode::Snapshot(h) => {
                let n = Snapshot { db: &self.db, node: h }.len(key.as_slice());
                self.mode = ServerMode::Snapshot(h);
                Ok(n)
            },
        }
    }

    fn read(&mut self, key: &Vec<u8>) -> (r: Result<Vec<u8>, IoError>) {
        let mode = self.take_mode();
        match mode {
            ServerMode::Normal => Ok(self.db.read(key.as_slice())),
            ServerMode::Transaction(mut tr) => {
                let v = tr.read(&self.db, key.as_slice());
                self.mode = ServerMode::Transaction(tr);
                Ok(v)
            },
            ServerMode::Snapshot(h) => {
                let v = Snapshot { db: &self.db, node: h }.read(key.as_slice());
                self.mode = ServerMode::Snapshot(h);
                Ok(v)
            },
        }
    }

    fn write(&mut self, key: &Vec<u8>, value: &Vec<u8>) -> (r: Result<(), IoError>) {
        if key.len() > u32::MAX as usize || value.len() > u32::MAX as usize {
            return Err(IoError::protocol());
        }
        let mode = self.take_mode();
        match mode {
            ServerMode::Normal => {
                let _ = self.db.write(key.as_slice(), value.as_slice());
                Ok(())
            },
            ServerMode::Transaction(mut tr) => {
                if tr.staged.num_entries() >= u32::MAX as usize {
                    self.mode = ServerMode::Transaction(tr);
                    return Err(IoError::protocol());
                }
                tr.write(key.as_slice(), value.as_slice());
                self.mode = ServerMode::Transaction(tr);
                Ok(())
            },
            ServerMode::Snapshot(h) => {
                self.mode = ServerMode::Snapshot(h);
                Err(IoError::protocol())
            },
        }
    }

    fn start_transaction(&mut self) -> (r: Result<(), IoError>) {
        let _ = self.take_mode();
        let tx = self.db.start_writes();
        self.mode = ServerMode::Transaction(tx);
        Ok(())
    }

    fn commit(&mut self) -> (r: Result<Result<(), TransactionConflict>, IoError>) {
        let mode = self.take_mode();
        match mode {
            ServerMode::Normal => Ok(Ok(())),
            ServerMode::Transaction(tr) => {
                match tr.commit(&mut self.db) {
                    Ok(_) => Ok(Ok(())),
                    Err(TransactionError::Conflict) => Ok(Err(TransactionConflict)),
                    Err(TransactionError::Io(e)) => Err(e),
                }
            },
            ServerMode::Snapshot(_) => Ok(Ok(())),
        }
    }

    fn rollback(&mut self) -> (r: Result<(), IoError>) {
        let mode = self.take_mode();
        match mode {
            ServerMode::Normal => {},
            ServerMode::Transaction(tr) => {
                tr.rollback();
            },
            ServerMode::Snapshot(_) => {},
        }
        Ok(())
    }

    fn count(&mut self, start: &Vec<u8>, end: &Vec<u8>) -> (r: Result<u32, IoError>) {
        let mode = self.take_mode();
        match mode {
            ServerMode::Normal => Ok(self.db.count(start.as_slice(), end.as_slice())),
            ServerMode::Transaction(mut tr) => {
                let n = tr.count(&self.db, start.as_slice(), end.as_slice());
                self.mode = ServerMode::Transaction(tr);
                Ok(n)
            },
            ServerMode::Snapshot(h) => {
                let n = Snapshot { db: &self.db, node: h }.count(start.as_slice(), end.as_slice());
                self.mode = ServerMode::Snapshot(h);
                Ok(n)
            },
        }
    }

    fn list(&mut self, start: &Vec<u8>, end: &Vec<u8>) -> (r: Result<Vec<Vec<u8>>, IoError>) {
        let mode = self.take_mode();
        match mode {
            ServerMode::Normal => Ok(self.db.list(start.as_slice(), end.as_slice())),
            ServerMode::Transaction(mut tr) => {
                let rows = tr.list(&self.db, start.as_slice(), end.as_slice());
                self.mode = ServerMode::Transaction(tr);
                Ok(rows)
            },
            ServerMode::Snapshot(h) => {
                let rows = Snapshot { db: &self.db, node: h }.list(
                    start.as_slice(),
                    end.as_slice(),
                );
                self.mode = ServerMode::Snapshot(h);
                Ok(rows)
            },
        }
    }

    fn scan(&mut self, start: &Vec<u8>, end: &Vec<u8>) -> (r: Result<
        Vec<(Vec<u8>, Vec<u8>)>,
        IoError,
    >) {
        let mode = self.take_mode();
        match mode {
            ServerMode::Normal => Ok(self.db.scan(start.as_slice(), end.as_slice())),
            ServerMode::Transaction(mut tr) => {
                let rows = tr.scan(&self.db, start.as_slice(), end.as_slice());
                self.mode = ServerMode::Transaction(tr);
                Ok(rows)
            },
            ServerMode::Snapshot(h) => {
                let rows = Snapshot { db: &self.db, node: h }.scan(
                    start.as_slice(),
                    end.as_slice(),
                );
                self.mode = ServerMode::Snapshot(h);
                Ok(rows)
            },
        }
    }
}

} // verus!
