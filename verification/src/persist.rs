//! The durability pipeline and recovery.
//!
//! Persistence serializes the nodes between `serialized_head` and
//! `resolved_head` to log records, oldest first; the caller appends those
//! bytes to the log file under its sync policy and then marks them
//! persisted.  Recovery parses a log prefix back into a chain, stopping at
//! the first torn or invalid record; the offset reached is where the file
//! should be truncated.

use vstd::prelude::*;

use crate::codec::{
    decode_record, encode_record, parse_log, parse_record, record_bytes, record_of, RecordView,
};
use crate::store::{
    chain_log, chain_records, head_measure, head_ok, nodes_wf, on_chain, Database,
    DatabaseWriteSyncMode, Node,
};

verus! {

/// The pending records named by a stack of arena indices, newest first at
/// index 0; the bytes come out oldest first.
pub open spec fn pending_suffix(nodes: Seq<Node>, stack: Seq<usize>) -> Seq<u8>
    decreases stack.len(),
{
    if stack.len() == 0 {
        Seq::empty()
    } else {
        let n = nodes[stack.last() as int];
        record_bytes(n.time, n.changes.view_entries()) + pending_suffix(nodes, stack.drop_last())
    }
}

/// Peeling the newest index off the stack moves its record to the end.
proof fn lemma_pending_suffix_skip_first(nodes: Seq<Node>, stack: Seq<usize>)
    requires
        stack.len() > 0,
    ensures
        pending_suffix(nodes, stack) == pending_suffix(nodes, stack.skip(1)) + record_bytes(
            nodes[stack[0] as int].time,
            nodes[stack[0] as int].changes.view_entries(),
        ),
    decreases stack.len(),
{
    let first = nodes[stack[0] as int];
    let fb = record_bytes(first.time, first.changes.view_entries());
    if stack.len() == 1 {
        assert(stack.drop_last() =~= Seq::<usize>::empty());
        assert(stack.skip(1) =~= Seq::<usize>::empty());
        assert(pending_suffix(nodes, stack.drop_last()) == Seq::<u8>::empty());
        assert(pending_suffix(nodes, stack.skip(1)) == Seq::<u8>::empty());
        assert(stack.last() == stack[0]);
        assert(fb + Seq::<u8>::empty() =~= Seq::<u8>::empty() + fb);
    } else {
        let lastn = nodes[stack.last() as int];
        let lb = record_bytes(lastn.time, lastn.changes.view_entries());
        lemma_pending_suffix_skip_first(nodes, stack.drop_last());
        assert(stack.drop_last()[0] == stack[0]);
        assert(stack.skip(1).drop_last() =~= stack.drop_last().skip(1));
        assert(stack.skip(1).last() == stack.last());
        assert(lb + (pending_suffix(nodes, stack.drop_last().skip(1)) + fb) =~= (lb
            + pending_suffix(nodes, stack.drop_last().skip(1))) + fb);
    }
}

/// `db2` is the chain rebuilt from the record list `recs`: one node per
/// record, linked in order, with the same times and mappings.
pub open spec fn rebuilt_from(db2: Database, recs: Seq<RecordView>) -> bool {
    &&& db2.wf()
    &&& db2.persistent
    &&& db2.sync == DatabaseWriteSyncMode::Sync
    &&& db2.nodes@.len() == recs.len()
    &&& db2.resolved_head == (if recs.len() > 0 {
        Some((recs.len() - 1) as usize)
    } else {
        None::<usize>
    })
    &&& db2.serialized_head == db2.resolved_head
    &&& forall|j: int|
        0 <= j < recs.len() ==> {
            &&& (#[trigger] db2.nodes@[j]).prev == (if j == 0 {
                None::<usize>
            } else {
                Some((j - 1) as usize)
            })
            &&& db2.nodes@[j].time == recs[j].time
            &&& db2.nodes@[j].changes.as_map() == crate::changes::map_of_entries(recs[j].entries)
        }
}

impl Database {
    /// The serialized form of the commits not yet in the log: appending
    /// these bytes to the log of `serialized_head` yields the log of
    /// `resolved_head`.
    pub fn pending_log_bytes(&self) -> (r: Vec<u8>)
        requires
            self.wf(),
        ensures
            chain_log(self.nodes@, self.serialized_head) + r@ == chain_log(
                self.nodes@,
                self.resolved_head,
            ),
    {
        let mut stack: Vec<usize> = Vec::new();
        let mut cur = self.resolved_head;
        loop
            invariant
                self.wf(),
                head_ok(self.nodes@, cur),
                on_chain(self.nodes@, cur, self.serialized_head),
                chain_log(self.nodes@, self.resolved_head) == chain_log(self.nodes@, cur)
                    + pending_suffix(self.nodes@, stack@),
                forall|j: int| 0 <= j < stack@.len() ==> (#[trigger] stack@[j]) < self.nodes@.len(),
            ensures
                chain_log(self.nodes@, self.resolved_head) == chain_log(
                    self.nodes@,
                    self.serialized_head,
                ) + pending_suffix(self.nodes@, stack@),
                forall|j: int| 0 <= j < stack@.len() ==> (#[trigger] stack@[j]) < self.nodes@.len(),
            decreases head_measure(cur),
        {
            let done = match (cur, self.serialized_head) {
                (None, None) => true,
                (Some(a), Some(b)) => a == b,
                _ => false,
            };
            if done {
                proof {
                    assert(cur == self.serialized_head);
                }
                break ;
            }
            let i = match cur {
                Some(i) => i,
                None => {
                    // `on_chain` rules this out: the serialized head lies on
                    // the walked chain.
                    proof {
                        assert(false);
                    }
                    0
                },
            };
            let ghost old_stack = stack@;
            stack.push(i);
            proof {
                assert(stack@.drop_last() =~= old_stack);
                assert(stack@.last() == i);
            }
            cur = self.nodes[i].prev;
        }
        let mut out: Vec<u8> = Vec::new();
        let mut t = stack.len();
        proof {
            assert(stack@.skip(t as int) =~= Seq::<usize>::empty());
        }
        while t > 0
            invariant
                self.wf(),
                forall|j: int| 0 <= j < stack@.len() ==> (#[trigger] stack@[j]) < self.nodes@.len(),
                0 <= t <= stack@.len(),
                out@ == pending_suffix(self.nodes@, stack@.skip(t as int)),
            decreases t,
        {
            t = t - 1;
            let i = stack[t];
            encode_record(&mut out, &self.nodes[i].time, &self.nodes[i].changes);
            proof {
                lemma_pending_suffix_skip_first(self.nodes@, stack@.skip(t as int));
                assert(stack@.skip(t as int).skip(1) =~= stack@.skip(t as int + 1));
                assert(stack@.skip(t as int)[0] == stack@[t as int]);
            }
        }
        proof {
            assert(stack@.skip(0) =~= stack@);
        }
        out
    }

    /// Record that everything resolved has reached the log.
    pub fn mark_persisted(&mut self)
        requires
            old(self).wf(),
        ensures
            final(self).wf(),
            final(self).nodes == old(self).nodes,
            final(self).resolved_head == old(self).resolved_head,
            final(self).serialized_head == old(self).resolved_head,
            final(self).persistent == old(self).persistent,
            final(self).sync == old(self).sync,
    {
        self.serialized_head = self.resolved_head;
    }

    /// Rebuild a database from the bytes of a log file.
    ///
    /// Records parse from the front until the input ends or a record is torn
    /// or invalid; the returned offset is the end of the valid prefix, and
    /// the caller should truncate the file there.  An empty log yields an
    /// empty database.
    pub fn from_log_bytes(bytes: &[u8]) -> (r: (Database, usize))
        ensures
            rebuilt_from(r.0, parse_log(bytes@, 0).0),
            r.1 as int == parse_log(bytes@, 0).1,
    {
        let ghost recs = parse_log(bytes@, 0).0;
        let mut nodes: Vec<Node> = Vec::new();
        let mut pos: usize = 0;
        loop
            invariant
                0 <= pos <= bytes@.len(),
                nodes_wf(nodes@),
                recs == parse_log(bytes@, 0).0,
                recs.len() == nodes@.len() + parse_log(bytes@, pos as int).0.len(),
                recs.skip(nodes@.len() as int) == parse_log(bytes@, pos as int).0,
                parse_log(bytes@, 0).1 == parse_log(bytes@, pos as int).1,
                forall|j: int|
                    0 <= j < nodes@.len() ==> (#[trigger] nodes@[j]).prev == (if j == 0 {
                        None::<usize>
                    } else {
                        Some((j - 1) as usize)
                    }),
                forall|j: int|
                    0 <= j < nodes@.len() ==> (#[trigger] nodes@[j]).time == recs[j].time
                        && nodes@[j].changes.as_map() == crate::changes::map_of_entries(
                        recs[j].entries,
                    ),
            ensures
                nodes_wf(nodes@),
                recs.len() == nodes@.len(),
                parse_log(bytes@, 0).1 == pos as int,
                forall|j: int|
                    0 <= j < nodes@.len() ==> (#[trigger] nodes@[j]).prev == (if j == 0 {
                        None::<usize>
                    } else {
                        Some((j - 1) as usize)
                    }),
                forall|j: int|
                    0 <= j < nodes@.len() ==> (#[trigger] nodes@[j]).time == recs[j].time
                        && nodes@[j].changes.as_map() == crate::changes::map_of_entries(
                        recs[j].entries,
                    ),
            decreases bytes@.len() - pos,
        {
            match decode_record(bytes, pos) {
                None => {
                    proof {
                        assert(parse_log(bytes@, pos as int) == (Seq::<RecordView>::empty(),
                        pos as int));
                        assert(recs.skip(nodes@.len() as int) =~= Seq::<RecordView>::empty());
                    }
                    break ;
                },
                Some((time, cs, end)) => {
                    let ghost rv = record_of(parse_record(bytes@, pos as int));
                    let ghost oldpos = pos as int;
                    let ghost old_len = nodes@.len() as int;
                    let prev: Option<usize> = if nodes.len() == 0 {
                        None
                    } else {
                        Some(nodes.len() - 1)
                    };
                    let ghost old_nodes = nodes@;
                    nodes.push(Node { prev, time, changes: cs });
                    pos = end;
                    proof {
                        assert(parse_log(bytes@, oldpos) == (seq![rv] + parse_log(
                            bytes@,
                            pos as int,
                        ).0, parse_log(bytes@, pos as int).1));
                        assert(recs.skip(old_len) == seq![rv] + parse_log(bytes@, pos as int).0);
                        assert(recs.skip(old_len + 1) =~= recs.skip(old_len).skip(1));
                        assert(recs.skip(old_len).skip(1) =~= parse_log(bytes@, pos as int).0);
                        assert(recs[old_len] == recs.skip(old_len)[0]);
                        assert(recs[old_len] == rv);
                        assert forall|j: int| 0 <= j < nodes@.len() implies crate::store::node_wf(
                            #[trigger] nodes@[j],
                            j,
                        ) by {
                            if j < old_len {
                                assert(crate::store::node_wf(old_nodes[j], j));
                            }
                        }
                    }
                },
            }
        }
        let head: Option<usize> = if nodes.len() == 0 {
            None
        } else {
            Some(nodes.len() - 1)
        };
        let db = Database {
            nodes,
            resolved_head: head,
            serialized_head: head,
            persistent: true,
            sync: DatabaseWriteSyncMode::Sync,
        };
        (db, pos)
    }
}

/// Parsing the serialization of a well-formed chain yields its records and
/// consumes every byte.
pub proof fn lemma_parse_chain_log(nodes: Seq<Node>, h: Option<usize>)
    requires
        nodes_wf(nodes),
        head_ok(nodes, h),
    ensures
        parse_log(chain_log(nodes, h), 0) == (
            chain_records(nodes, h),
            chain_log(nodes, h).len() as int,
        ),
    decreases head_measure(h),
{
    match h {
        None => {
            assert(parse_record(Seq::<u8>::empty(), 0) is None);
        },
        Some(i) => {
            let n = nodes[i as int];
            lemma_parse_chain_log(nodes, n.prev);
            crate::codec::lemma_parse_log_append(
                chain_log(nodes, n.prev),
                0,
                n.time,
                n.changes.view_entries(),
            );
        },
    }
}

} // verus!
