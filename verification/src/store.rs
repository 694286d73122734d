//! The commit chain and the database around it.
//!
//! The database is a singly linked list of immutable nodes, newest first;
//! each node carries the change-set of one commit and a timestamp.  The
//! chain is held in an arena: a vector of nodes in which every link points
//! at a strictly smaller index, so walks toward the origin terminate.
//!
//! `resolved_head` is the newest committed node; `serialized_head` is the
//! newest node already written to the log and always lies on the resolved
//! chain.  For a database without persistence the two heads coincide.

use vstd::prelude::*;

use crate::changes::{lemma_bounded_map_lookup, ChangeSet, Timestamp};
use crate::codec::{record_bytes, RecordView};

verus! {

/// One link of the commit chain.
pub struct Node {
    /// Arena index of the previous (older) node, or `None` at the origin.
    pub prev: Option<usize>,
    /// Commit timestamp.
    pub time: Timestamp,
    /// The mapping this commit installs.
    pub changes: ChangeSet,
}

/// How far a commit must have reached the log before it returns.
#[derive(Debug, Clone, Copy, PartialEq, Eq, Structural)]
pub enum DatabaseWriteSyncMode {
    /// Flush and fsync: the commit is on stable storage.
    Sync,
    /// Flush only: the write reached the operating system.
    Flush,
    /// Neither: the bytes were handed to the operating system unsynced.
    Cached,
}

impl Default for DatabaseWriteSyncMode {
    fn default() -> (r: Self)
        ensures
            r == DatabaseWriteSyncMode::Sync,
    {
        DatabaseWriteSyncMode::Sync
    }
}

/// Induction measure for walks toward the origin.
pub open spec fn head_measure(h: Option<usize>) -> int {
    match h {
        None => 0,
        Some(i) => i + 1,
    }
}

/// A node may link only to a strictly earlier node of the arena.
pub open spec fn node_wf(n: Node, i: int) -> bool {
    &&& match n.prev {
        Some(p) => p < i,
        None => true,
    }
    &&& n.time.wf()
    &&& n.changes.wf()
    &&& n.changes.view_entries().len() <= u32::MAX
}

pub open spec fn nodes_wf(nodes: Seq<Node>) -> bool {
    forall|i: int| 0 <= i < nodes.len() ==> node_wf(#[trigger] nodes[i], i)
}

pub open spec fn head_ok(nodes: Seq<Node>, h: Option<usize>) -> bool {
    match h {
        Some(i) => i < nodes.len(),
        None => true,
    }
}

/// The effective value of `key` on the chain from `h`: the value recorded by
/// the nearest node whose change-set mentions it, or `None` if no node does.
pub open spec fn chain_lookup(nodes: Seq<Node>, h: Option<usize>, key: Seq<u8>) -> Option<Seq<u8>>
    decreases head_measure(h),
{
    match h {
        None => None,
        Some(i) => if i < nodes.len() {
            let n = nodes[i as int];
            if n.changes.as_map().dom().contains(key) {
                Some(n.changes.as_map()[key])
            } else if head_measure(n.prev) <= i {
                chain_lookup(nodes, n.prev, key)
            } else {
                None
            }
        } else {
            None
        },
    }
}

/// The effective value as the API reports it: absent keys read as empty.
pub open spec fn chain_value(nodes: Seq<Node>, h: Option<usize>, key: Seq<u8>) -> Seq<u8> {
    match chain_lookup(nodes, h, key) {
        Some(v) => v,
        None => Seq::empty(),
    }
}

/// `target` is reachable from `from` by following `prev` zero or more times.
pub open spec fn on_chain(nodes: Seq<Node>, from: Option<usize>, target: Option<usize>) -> bool
    decreases head_measure(from),
{
    if from == target {
        true
    } else {
        match from {
            None => false,
            Some(i) => if i < nodes.len() && head_measure(nodes[i as int].prev) <= i {
                on_chain(nodes, nodes[i as int].prev, target)
            } else {
                false
            },
        }
    }
}

/// The serialization of the whole chain from `h`, oldest record first.
pub open spec fn chain_log(nodes: Seq<Node>, h: Option<usize>) -> Seq<u8>
    decreases head_measure(h),
{
    match h {
        None => Seq::empty(),
        Some(i) => if i < nodes.len() && head_measure(nodes[i as int].prev) <= i {
            let n = nodes[i as int];
            chain_log(nodes, n.prev) + record_bytes(n.time, n.changes.view_entries())
        } else {
            Seq::empty()
        },
    }
}

/// The chain from `h` as parsed records, oldest first.
pub open spec fn chain_records(nodes: Seq<Node>, h: Option<usize>) -> Seq<RecordView>
    decreases head_measure(h),
{
    match h {
        None => Seq::empty(),
        Some(i) => if i < nodes.len() && head_measure(nodes[i as int].prev) <= i {
            let n = nodes[i as int];
            chain_records(nodes, n.prev) + seq![
                RecordView { time: n.time, entries: n.changes.view_entries() },
            ]
        } else {
            Seq::empty()
        },
    }
}

/// The node a time-travel snapshot pins: the first node, walking newest to
/// oldest from `h`, whose timestamp is at or before `t`.
pub open spec fn past_snapshot_node(nodes: Seq<Node>, h: Option<usize>, t: Timestamp) -> Option<
    usize,
>
    decreases head_measure(h),
{
    match h {
        None => None,
        Some(i) => if i < nodes.len() {
            if nodes[i as int].time.spec_le(t) {
                Some(i)
            } else if head_measure(nodes[i as int].prev) <= i {
                past_snapshot_node(nodes, nodes[i as int].prev, t)
            } else {
                None
            }
        } else {
            None
        },
    }
}

/// The effective value with a transaction's staged change-set layered over
/// the chain.
pub open spec fn layered_lookup(
    nodes: Seq<Node>,
    h: Option<usize>,
    extra: Option<ChangeSet>,
    key: Seq<u8>,
) -> Option<Seq<u8>> {
    match extra {
        Some(cs) => if cs.as_map().dom().contains(key) {
            Some(cs.as_map()[key])
        } else {
            chain_lookup(nodes, h, key)
        },
        None => chain_lookup(nodes, h, key),
    }
}

/// An effective value that exists was written by some node, so its key and
/// length fit the on-disk fields.
pub proof fn lemma_chain_lookup_bounded(nodes: Seq<Node>, h: Option<usize>, key: Seq<u8>)
    requires
        nodes_wf(nodes),
        chain_lookup(nodes, h, key) is Some,
    ensures
        key.len() <= u32::MAX,
        chain_lookup(nodes, h, key)->Some_0.len() <= u32::MAX,
    decreases head_measure(h),
{
    match h {
        None => {},
        Some(i) => {
            let n = nodes[i as int];
            if n.changes.as_map().dom().contains(key) {
                lemma_bounded_map_lookup(n.changes.view_entries(), key);
            } else {
                lemma_chain_lookup_bounded(nodes, n.prev, key);
            }
        },
    }
}

/// Appending a node to the arena changes no lookup that starts below it.
pub proof fn lemma_chain_lookup_push(nodes: Seq<Node>, n: Node, h: Option<usize>, key: Seq<u8>)
    requires
        head_ok(nodes, h),
    ensures
        chain_lookup(nodes.push(n), h, key) == chain_lookup(nodes, h, key),
    decreases head_measure(h),
{
    match h {
        None => {},
        Some(i) => {
            let m = nodes[i as int];
            assert(nodes.push(n)[i as int] == m);
            if !m.changes.as_map().dom().contains(key) && head_measure(m.prev) <= i {
                lemma_chain_lookup_push(nodes, n, m.prev, key);
            }
        },
    }
}

/// Appending a node to the arena changes no reachability below it.
pub proof fn lemma_on_chain_push(nodes: Seq<Node>, n: Node, h: Option<usize>, t: Option<usize>)
    requires
        head_ok(nodes, h),
    ensures
        on_chain(nodes.push(n), h, t) == on_chain(nodes, h, t),
    decreases head_measure(h),
{
    if h != t {
        match h {
            None => {},
            Some(i) => {
                let m = nodes[i as int];
                assert(nodes.push(n)[i as int] == m);
                if head_measure(m.prev) <= i {
                    lemma_on_chain_push(nodes, n, m.prev, t);
                }
            },
        }
    }
}

/// Appending a node to the arena changes no serialization below it.
pub proof fn lemma_chain_log_push(nodes: Seq<Node>, n: Node, h: Option<usize>)
    requires
        head_ok(nodes, h),
    ensures
        chain_log(nodes.push(n), h) == chain_log(nodes, h),
        chain_records(nodes.push(n), h) == chain_records(nodes, h),
    decreases head_measure(h),
{
    match h {
        None => {},
        Some(i) => {
            let m = nodes[i as int];
            assert(nodes.push(n)[i as int] == m);
            if head_measure(m.prev) <= i {
                lemma_chain_log_push(nodes, n, m.prev);
            }
        },
    }
}

/// The database: an arena of chain nodes and the two head pointers.
pub struct Database {
    /// The arena; nodes are appended and never changed.
    pub nodes: Vec<Node>,
    /// Newest committed node.
    pub resolved_head: Option<usize>,
    /// Newest node already written to the log.
    pub serialized_head: Option<usize>,
    /// Whether this database is backed by a log at all.
    pub persistent: bool,
    /// The sync policy commits follow.
    pub sync: DatabaseWriteSyncMode,
}

impl Database {
    pub open spec fn wf(&self) -> bool {
        &&& nodes_wf(self.nodes@)
        &&& head_ok(self.nodes@, self.resolved_head)
        &&& head_ok(self.nodes@, self.serialized_head)
        &&& on_chain(self.nodes@, self.resolved_head, self.serialized_head)
        &&& !self.persistent ==> self.serialized_head == self.resolved_head
    }

    /// The head a reader sees: the durable chain for a persistent database,
    /// the resolved chain for a memory-only one.
    pub open spec fn spec_load_master(&self) -> Option<usize> {
        if self.persistent {
            self.serialized_head
        } else {
            self.resolved_head
        }
    }

    /// The effective value of `key` as a plain reader sees it.
    pub open spec fn spec_read(&self, key: Seq<u8>) -> Seq<u8> {
        chain_value(self.nodes@, self.spec_load_master(), key)
    }

    /// A fresh, empty, memory-only database.
    pub fn memory() -> (r: Database)
        ensures
            r.wf(),
            !r.persistent,
            r.nodes@.len() == 0,
            r.resolved_head is None,
            r.serialized_head is None,
            r.sync == DatabaseWriteSyncMode::Sync,
    {
        Database {
            nodes: Vec::new(),
            resolved_head: None,
            serialized_head: None,
            persistent: false,
            sync: DatabaseWriteSyncMode::Sync,
        }
    }

    /// Choose the sync policy; builder style, as on a fresh database.
    pub fn write_sync_mode(self, sync_mode: DatabaseWriteSyncMode) -> (r: Database)
        ensures
            r.nodes == self.nodes,
            r.resolved_head == self.resolved_head,
            r.serialized_head == self.serialized_head,
            r.persistent == self.persistent,
            r.sync == (if self.persistent {
                sync_mode
            } else {
                self.sync
            }),
            self.wf() ==> r.wf(),
    {
        if self.persistent {
            Database { sync: sync_mode, ..self }
        } else {
            self
        }
    }

    fn load_master(&self) -> (r: Option<usize>)
        ensures
            r == self.spec_load_master(),
    {
        if self.persistent {
            self.serialized_head
        } else {
            self.resolved_head
        }
    }

    /// A read-only view of the current state.
    pub fn snapshot<'a>(&'a self) -> (r: Snapshot<'a>)
        requires
            self.wf(),
        ensures
            r.valid(),
            r.node == self.spec_load_master(),
            r.db == self,
    {
        Snapshot { db: self, node: self.load_master() }
    }

    /// The newest node at or before `time`, walking newest to oldest from
    /// `resolved_head`; a null snapshot if no commit is that old.
    pub fn past_unix_time_snapshot_with<'a>(&'a self, time: Timestamp) -> (r: Snapshot<'a>)
        requires
            self.wf(),
        ensures
            r.valid(),
            r.db == self,
            r.node == past_snapshot_node(self.nodes@, self.resolved_head, time),
    {
        let mut cur = self.resolved_head;
        loop
            invariant
                self.wf(),
                head_ok(self.nodes@, cur),
                past_snapshot_node(self.nodes@, self.resolved_head, time)
                    == past_snapshot_node(self.nodes@, cur, time),
            decreases head_measure(cur),
        {
            match cur {
                None => {
                    return Snapshot { db: self, node: None };
                },
                Some(i) => {
                    let n = &self.nodes[i];
                    if n.time.le(&time) {
                        return Snapshot { db: self, node: Some(i) };
                    }
                    cur = n.prev;
                },
            }
        }
    }

    /// Read the effective value of `key`.  The empty key is reserved and
    /// always reads as empty.
    pub fn read(&self, key: &[u8]) -> (r: Vec<u8>)
        requires
            self.wf(),
        ensures
            r@ == (if key@.len() == 0 {
                Seq::<u8>::empty()
            } else {
                self.spec_read(key@)
            }),
    {
        if key.len() == 0 {
            return Vec::new();
        }
        self.snapshot().read(key)
    }

    /// The length of the effective value of `key`; zero for the empty key.
    pub fn len(&self, key: &[u8]) -> (r: u32)
        requires
            self.wf(),
        ensures
            r == (if key@.len() == 0 {
                0
            } else {
                self.spec_read(key@).len()
            }),
    {
        if key.len() == 0 {
            return 0;
        }
        self.snapshot().len(key)
    }

    /// Every matching key with a non-empty value in the current state.
    pub fn scan(&self, start: &[u8], end: &[u8]) -> (r: Vec<(Vec<u8>, Vec<u8>)>)
        requires
            self.wf(),
        ensures
            crate::query::scan_result_ok(
                self.nodes@,
                self.spec_load_master(),
                None,
                start@,
                end@,
                crate::changes::entry_views(r@),
            ),
    {
        self.snapshot().scan(start, end)
    }

    /// The keys of `scan`, in the same order.
    pub fn list(&self, start: &[u8], end: &[u8]) -> (r: Vec<Vec<u8>>)
        requires
            self.wf(),
        ensures
            crate::query::list_result_ok(
                self.nodes@,
                self.spec_load_master(),
                None,
                start@,
                end@,
                crate::query::key_views(r@),
            ),
    {
        self.snapshot().list(start, end)
    }

    /// How many keys `list` would return, saturating at the wire limit.
    pub fn count(&self, start: &[u8], end: &[u8]) -> (r: u32)
        requires
            self.wf(),
        ensures
            exists|ks: Seq<Seq<u8>>|
                crate::query::list_result_ok(
                    self.nodes@,
                    self.spec_load_master(),
                    None,
                    start@,
                    end@,
                    ks,
                ) && r as int == crate::query::count_clamp(ks.len() as int),
    {
        self.snapshot().count(start, end)
    }

    /// Begin a transaction against the current state.
    pub fn start_writes(&self) -> (tx: crate::txn::Transaction)
        requires
            self.wf(),
        ensures
            tx.valid_for(self),
            tx.base == self.spec_load_master(),
            tx.staged.as_map() == Map::<Seq<u8>, Seq<u8>>::empty(),
            tx.staged.view_entries().len() == 0,
            tx.read_witnesses() == Set::<Seq<u8>>::empty(),
            tx.scan_witnesses() == Set::<(Seq<u8>, Seq<u8>)>::empty(),
    {
        let tx = crate::txn::Transaction {
            base: self.load_master(),
            staged: crate::changes::ChangeSet::new(),
            reads: Vec::new(),
            scans: Vec::new(),
        };
        proof {
            assert(tx.read_witnesses() =~= Set::<Seq<u8>>::empty());
            assert(tx.scan_witnesses() =~= Set::<(Seq<u8>, Seq<u8>)>::empty());
        }
        tx
    }

    /// Write one key in a transaction of its own.  A write-only transaction
    /// has no witnesses, so it can never conflict.
    pub fn write(&mut self, key: &[u8], value: &[u8]) -> (r: Timestamp)
        requires
            old(self).wf(),
            key@.len() <= u32::MAX,
            value@.len() <= u32::MAX,
        ensures
            final(self).wf(),
            key@.len() == 0 ==> *final(self) == *old(self),
            key@.len() > 0 ==> {
                &&& r.wf()
                &&& final(self).nodes@.len() == old(self).nodes@.len() + 1
                &&& final(self).resolved_head == Some(old(self).nodes@.len() as usize)
                &&& final(self).serialized_head == (if old(self).persistent {
                    old(self).serialized_head
                } else {
                    final(self).resolved_head
                })
                &&& final(self).persistent == old(self).persistent
                &&& final(self).sync == old(self).sync
                &&& forall|k: Seq<u8>|
                    chain_lookup(final(self).nodes@, final(self).resolved_head, k) == (if k
                        == key@ {
                        Some(value@)
                    } else {
                        chain_lookup(old(self).nodes@, old(self).resolved_head, k)
                    })
            },
    {
        if key.len() == 0 {
            return Timestamp::new(0, 0);
        }
        let mut tx = self.start_writes();
        tx.write(key, value);
        let ghost staged = tx.staged;
        match tx.commit(self) {
            Ok(t) => {
                proof {
                    assert(forall|k: Seq<u8>|
                        layered_lookup(old(self).nodes@, old(self).resolved_head, Some(staged), k)
                            == (if k == key@ {
                            Some(value@)
                        } else {
                            chain_lookup(old(self).nodes@, old(self).resolved_head, k)
                        }));
                }
                t
            },
            Err(_) => {
                // A write-only transaction has no witnesses, so validation
                // cannot fail.
                proof {
                    crate::txn::lemma_no_witnesses_no_conflict(
                        old(self).nodes@,
                        old(self).resolved_head,
                        staged_base(old(self)),
                    );
                    assert(false);
                }
                Timestamp::new(0, 0)
            },
        }
    }
}

/// The base a fresh transaction captures.
pub open spec fn staged_base(db: &Database) -> Option<usize> {
    db.spec_load_master()
}

/// A read-only handle pinning one chain node (or none, for an empty view).
pub struct Snapshot<'a> {
    pub db: &'a Database,
    pub node: Option<usize>,
}

impl<'a> Snapshot<'a> {
    pub open spec fn valid(&self) -> bool {
        self.db.wf() && head_ok(self.db.nodes@, self.node)
    }

    /// The effective value of `key` in this snapshot.
    pub open spec fn spec_read(&self, key: Seq<u8>) -> Seq<u8> {
        chain_value(self.db.nodes@, self.node, key)
    }

    /// Read the effective value of `key`; empty when absent.
    pub fn read(&self, key: &[u8]) -> (r: Vec<u8>)
        requires
            self.valid(),
        ensures
            r@ == self.spec_read(key@),
    {
        match chain_get(&self.db.nodes, self.node, key) {
            Some(v) => v,
            None => Vec::new(),
        }
    }

    /// The length of the effective value of `key`.
    pub fn len(&self, key: &[u8]) -> (r: u32)
        requires
            self.valid(),
        ensures
            r == self.spec_read(key@).len(),
    {
        let v = self.read(key);
        proof {
            if chain_lookup(self.db.nodes@, self.node, key@) is Some {
                lemma_chain_lookup_bounded(self.db.nodes@, self.node, key@);
            }
        }
        v.len() as u32
    }

    /// Every matching key with a non-empty effective value, sorted, with
    /// that value.
    pub fn scan(&self, start: &[u8], end: &[u8]) -> (r: Vec<(Vec<u8>, Vec<u8>)>)
        requires
            self.valid(),
        ensures
            crate::query::scan_result_ok(
                self.db.nodes@,
                self.node,
                None,
                start@,
                end@,
                crate::changes::entry_views(r@),
            ),
    {
        crate::query::scan_core(&self.db.nodes, self.node, None, start, end)
    }

    /// The keys of `scan`, in the same order.
    pub fn list(&self, start: &[u8], end: &[u8]) -> (r: Vec<Vec<u8>>)
        requires
            self.valid(),
        ensures
            crate::query::list_result_ok(
                self.db.nodes@,
                self.node,
                None,
                start@,
                end@,
                crate::query::key_views(r@),
            ),
    {
        let pairs = self.scan(start, end);
        let keys = crate::query::keys_of_pairs(&pairs);
        proof {
            crate::query::lemma_list_from_scan(
                self.db.nodes@,
                self.node,
                None,
                start@,
                end@,
                crate::changes::entry_views(pairs@),
                crate::query::key_views(keys@),
            );
        }
        keys
    }

    /// How many keys `list` would return, saturating at the wire limit.
    pub fn count(&self, start: &[u8], end: &[u8]) -> (r: u32)
        requires
            self.valid(),
        ensures
            exists|ks: Seq<Seq<u8>>|
                crate::query::list_result_ok(self.db.nodes@, self.node, None, start@, end@, ks)
                    && r as int == crate::query::count_clamp(ks.len() as int),
    {
        let keys = self.list(start, end);
        let r = crate::query::clamp_len(keys.len());
        proof {
            assert(crate::query::list_result_ok(
                self.db.nodes@,
                self.node,
                None,
                start@,
                end@,
                crate::query::key_views(keys@),
            ) && r as int == crate::query::count_clamp(
                crate::query::key_views(keys@).len() as int,
            ));
        }
        r
    }
}

/// Walk the chain from `h` and return the first value recorded for `key`.
pub(crate) fn chain_get(nodes: &Vec<Node>, h: Option<usize>, key: &[u8]) -> (r: Option<Vec<u8>>)
    requires
        nodes_wf(nodes@),
        head_ok(nodes@, h),
    ensures
        match r {
            Some(v) => chain_lookup(nodes@, h, key@) == Some(v@),
            None => chain_lookup(nodes@, h, key@) is None,
        },
{
    let mut cur = h;
    loop
        invariant
            nodes_wf(nodes@),
            head_ok(nodes@, cur),
            chain_lookup(nodes@, h, key@) == chain_lookup(nodes@, cur, key@),
        decreases head_measure(cur),
    {
        match cur {
            None => {
                return None;
            },
            Some(i) => {
                let n = &nodes[i];
                match n.changes.get(key) {
                    Some(v) => {
                        return Some(vstd::slice::slice_to_vec(v.as_slice()));
                    },
                    None => {
                        cur = n.prev;
                    },
                }
            },
        }
    }
}

} // verus!
