//! Optimistic transactions and the commit protocol.
//!
//! A transaction captures the head of the chain when it begins (its base
//! snapshot), stages writes locally, and records witnesses: every key it
//! read past its staged writes and every `(start, end)` range it scanned.
//! Commit appends a node to the chain; if other commits were interposed
//! since the base was captured, each of them is validated against the
//! witnesses, and any overlap aborts the commit with a conflict.

use vstd::prelude::*;

use crate::bytes::bytes_eq;
use crate::changes::{ChangeSet, Timestamp};
use crate::error::TransactionError;
use crate::query::{key_matches, key_matches_exec, scan_core, scan_result_ok};
use crate::query::lemma_layered_bounded;
use crate::store::{
    chain_lookup, head_measure, head_ok, layered_lookup, lemma_chain_lookup_bounded,
    lemma_chain_lookup_push, lemma_on_chain_push, Database, Node,
};

verus! {

/// A read-write transaction against a base snapshot of the chain.
pub struct Transaction {
    /// The chain head captured when the transaction began.
    pub base: Option<usize>,
    /// Writes staged by this transaction, not yet visible to anyone else.
    pub staged: ChangeSet,
    /// Keys read from the base snapshot.
    pub reads: Vec<Vec<u8>>,
    /// `(start, end)` ranges scanned.
    pub scans: Vec<(Vec<u8>, Vec<u8>)>,
}

/// One interposed commit touches a read key or a scanned range.
pub open spec fn node_conflicts(n: Node, reads: Set<Seq<u8>>, scans: Set<(Seq<u8>, Seq<u8>)>) -> bool {
    exists|k: Seq<u8>|
        #[trigger] n.changes.as_map().dom().contains(k) && (reads.contains(k) || exists|
            w: (Seq<u8>, Seq<u8>),
        | #[trigger] scans.contains(w) && key_matches(k, w.0, w.1))
}

/// Some commit between `from` (inclusive) and `base` (exclusive) conflicts
/// with the witnesses.
pub open spec fn segment_conflicts(
    nodes: Seq<Node>,
    from: Option<usize>,
    base: Option<usize>,
    reads: Set<Seq<u8>>,
    scans: Set<(Seq<u8>, Seq<u8>)>,
) -> bool
    decreases head_measure(from),
{
    if from == base {
        false
    } else {
        match from {
            None => false,
            Some(i) => if i < nodes.len() && head_measure(nodes[i as int].prev) <= i {
                node_conflicts(nodes[i as int], reads, scans) || segment_conflicts(
                    nodes,
                    nodes[i as int].prev,
                    base,
                    reads,
                    scans,
                )
            } else {
                false
            },
        }
    }
}

/// With no witnesses at all nothing can conflict: a write-only transaction
/// always commits.
pub proof fn lemma_no_witnesses_no_conflict(
    nodes: Seq<Node>,
    from: Option<usize>,
    base: Option<usize>,
)
    ensures
        !segment_conflicts(nodes, from, base, Set::empty(), Set::empty()),
    decreases head_measure(from),
{
    if from != base {
        match from {
            None => {},
            Some(i) => {
                if i < nodes.len() && head_measure(nodes[i as int].prev) <= i {
                    lemma_no_witnesses_no_conflict(nodes, nodes[i as int].prev, base);
                    assert(!node_conflicts(nodes[i as int], Set::empty(), Set::empty())) by {
                        assert(forall|k: Seq<u8>| !Set::<Seq<u8>>::empty().contains(k));
                        assert(forall|w: (Seq<u8>, Seq<u8>)|
                            !Set::<(Seq<u8>, Seq<u8>)>::empty().contains(w));
                    }
                }
            },
        }
    }
}

/// Is `key` among `reads`?
fn reads_contains(reads: &Vec<Vec<u8>>, key: &[u8]) -> (r: bool)
    ensures
        r == exists|i: int| 0 <= i < reads@.len() && (#[trigger] reads@[i])@ == key@,
{
    let n = reads.len();
    let mut i: usize = 0;
    while i < n
        invariant
            n == reads@.len(),
            0 <= i <= n,
            forall|j: int| 0 <= j < i ==> (#[trigger] reads@[j])@ != key@,
        decreases n - i,
    {
        if bytes_eq(reads[i].as_slice(), key) {
            return true;
        }
        i = i + 1;
    }
    false
}

/// Does `key` fall in any scanned range?
fn scans_match(scans: &Vec<(Vec<u8>, Vec<u8>)>, key: &[u8]) -> (r: bool)
    ensures
        r == exists|i: int|
            0 <= i < scans@.len() && key_matches(
                key@,
                (#[trigger] scans@[i]).0@,
                scans@[i].1@,
            ),
{
    let n = scans.len();
    let mut i: usize = 0;
    while i < n
        invariant
            n == scans@.len(),
            0 <= i <= n,
            forall|j: int|
                0 <= j < i ==> !key_matches(key@, (#[trigger] scans@[j]).0@, scans@[j].1@),
        decreases n - i,
    {
        let w = &scans[i];
        if key_matches_exec(key, w.0.as_slice(), w.1.as_slice()) {
            return true;
        }
        i = i + 1;
    }
    false
}

/// Wall-clock time since the Unix epoch, taken at commit.
///
/// Relies on `std::time::SystemTime::now` and `duration_since`: the
/// nanosecond part of a `Duration` is always below one second.  A clock set
/// before the epoch reads as the epoch itself.
#[verifier::external_body]
fn now_since_epoch() -> (t: Timestamp)
    ensures
        t.wf(),
{
    match std::time::SystemTime::now().duration_since(std::time::UNIX_EPOCH) {
        Ok(d) => Timestamp { secs: d.as_secs(), nanos: d.subsec_nanos() },
        Err(_) => Timestamp { secs: 0, nanos: 0 },
    }
}

impl Transaction {
    /// The transaction can run against `db`: its base is a node of `db`'s
    /// resolved chain.
    pub open spec fn valid_for(&self, db: &Database) -> bool {
        &&& db.wf()
        &&& head_ok(db.nodes@, self.base)
        &&& crate::store::on_chain(db.nodes@, db.resolved_head, self.base)
        &&& self.staged.wf()
    }

    /// The keys whose reads must be revalidated at commit.
    pub open spec fn read_witnesses(&self) -> Set<Seq<u8>> {
        Set::new(
            |k: Seq<u8>| exists|i: int| 0 <= i < self.reads@.len() && (#[trigger] self.reads@[i])@ == k,
        )
    }

    /// The ranges whose scans must be revalidated at commit.
    pub open spec fn scan_witnesses(&self) -> Set<(Seq<u8>, Seq<u8>)> {
        Set::new(
            |w: (Seq<u8>, Seq<u8>)| exists|i: int|
                0 <= i < self.scans@.len() && ((#[trigger] self.scans@[i]).0@, self.scans@[i].1@)
                    == w,
        )
    }

    /// What this transaction reads for `key`: its own staged write if any,
    /// else the base snapshot's value.
    pub open spec fn spec_read(&self, db: &Database, key: Seq<u8>) -> Seq<u8> {
        match layered_lookup(db.nodes@, self.base, Some(self.staged), key) {
            Some(v) => v,
            None => Seq::empty(),
        }
    }

    /// Stage a write.  The empty key is reserved and ignored.
    pub fn write(&mut self, key: &[u8], value: &[u8])
        requires
            old(self).staged.wf(),
            key@.len() <= u32::MAX,
            value@.len() <= u32::MAX,
        ensures
            final(self).staged.wf(),
            final(self).base == old(self).base,
            final(self).reads == old(self).reads,
            final(self).scans == old(self).scans,
            final(self).staged.as_map() == (if key@.len() == 0 {
                old(self).staged.as_map()
            } else {
                old(self).staged.as_map().insert(key@, value@)
            }),
            final(self).staged.view_entries().len() <= old(self).staged.view_entries().len() + 1,
    {
        if key.len() == 0 {
            return ;
        }
        let k = vstd::slice::slice_to_vec(key);
        let v = vstd::slice::slice_to_vec(value);
        self.staged.insert(k, v);
    }

    /// Read a key: staged writes win; otherwise the base snapshot answers
    /// and the key is witnessed.  The empty key is reserved and reads empty.
    pub fn read(&mut self, db: &Database, key: &[u8]) -> (r: Vec<u8>)
        requires
            old(self).valid_for(db),
        ensures
            final(self).valid_for(db),
            r@ == (if key@.len() == 0 {
                Seq::<u8>::empty()
            } else {
                old(self).spec_read(db, key@)
            }),
            final(self).base == old(self).base,
            final(self).staged == old(self).staged,
            final(self).scans == old(self).scans,
            final(self).read_witnesses() == (if key@.len() == 0 || old(
                self,
            ).staged.as_map().dom().contains(key@) {
                old(self).read_witnesses()
            } else {
                old(self).read_witnesses().insert(key@)
            }),
    {
        if key.len() == 0 {
            return Vec::new();
        }
        match self.staged.get(key) {
            Some(v) => {
                proof {
                    assert(self.read_witnesses() =~= old(self).read_witnesses());
                }
                vstd::slice::slice_to_vec(v.as_slice())
            },
            None => {
                let ghost old_reads = self.reads@;
                if !reads_contains(&self.reads, key) {
                    self.reads.push(vstd::slice::slice_to_vec(key));
                    proof {
                        assert forall|k2: Seq<u8>| #[trigger] self.read_witnesses().contains(
                            k2,
                        ) implies old(self).read_witnesses().insert(key@).contains(k2) by {
                            let i = choose|i: int|
                                0 <= i < self.reads@.len() && (#[trigger] self.reads@[i])@ == k2;
                            if i < old_reads.len() {
                                assert(old_reads[i]@ == k2);
                            }
                        }
                        assert forall|k2: Seq<u8>| #[trigger] old(self).read_witnesses().insert(
                            key@,
                        ).contains(k2) implies self.read_witnesses().contains(k2) by {
                            if k2 == key@ {
                                assert(self.reads@[self.reads@.len() - 1]@ == key@);
                            } else {
                                let i = choose|i: int|
                                    0 <= i < old_reads.len() && (#[trigger] old_reads[i])@ == k2;
                                assert(self.reads@[i]@ == k2);
                            }
                        }
                        assert(self.read_witnesses() =~= old(self).read_witnesses().insert(key@));
                    }
                } else {
                    proof {
                        assert(self.read_witnesses() =~= old(self).read_witnesses().insert(key@));
                    }
                }
                match crate::store::chain_get(&db.nodes, self.base, key) {
                    Some(v) => v,
                    None => Vec::new(),
                }
            },
        }
    }

    /// The length of what `read` would return.
    pub fn len(&mut self, db: &Database, key: &[u8]) -> (r: u32)
        requires
            old(self).valid_for(db),
        ensures
            final(self).valid_for(db),
            r == (if key@.len() == 0 {
                0
            } else {
                old(self).spec_read(db, key@).len()
            }),
            final(self).base == old(self).base,
            final(self).staged == old(self).staged,
            final(self).scans == old(self).scans,
            final(self).read_witnesses() == (if key@.len() == 0 || old(
                self,
            ).staged.as_map().dom().contains(key@) {
                old(self).read_witnesses()
            } else {
                old(self).read_witnesses().insert(key@)
            }),
    {
        let v = self.read(db, key);
        proof {
            if key@.len() > 0 && layered_lookup(db.nodes@, self.base, Some(self.staged), key@)
                is Some {
                lemma_layered_bounded(db.nodes@, self.base, Some(self.staged), key@);
                if !self.staged.as_map().dom().contains(key@) {
                    lemma_chain_lookup_bounded(db.nodes@, self.base, key@);
                }
            }
        }
        v.len() as u32
    }

    /// Record a scan witness, as count/list/scan do before answering.
    fn register_scan(&mut self, start: &[u8], end: &[u8])
        ensures
            final(self).base == old(self).base,
            final(self).staged == old(self).staged,
            final(self).reads == old(self).reads,
            final(self).scan_witnesses() == (if start@.len() + end@.len() <= u32::MAX {
                old(self).scan_witnesses().insert((start@, end@))
            } else {
                old(self).scan_witnesses()
            }),
    {
        if start.len() > u32::MAX as usize || end.len() > (u32::MAX as usize) - start.len() {
            return ;
        }
        let ghost old_scans = self.scans@;
        let s = vstd::slice::slice_to_vec(start);
        let e = vstd::slice::slice_to_vec(end);
        self.scans.push((s, e));
        proof {
            assert forall|w: (Seq<u8>, Seq<u8>)| #[trigger] self.scan_witnesses().contains(
                w,
            ) implies old(self).scan_witnesses().insert((start@, end@)).contains(w) by {
                let i = choose|i: int|
                    0 <= i < self.scans@.len() && ((#[trigger] self.scans@[i]).0@,
                    self.scans@[i].1@) == w;
                if i < old_scans.len() {
                    assert((old_scans[i].0@, old_scans[i].1@) == w);
                }
            }
            assert forall|w: (Seq<u8>, Seq<u8>)| #[trigger] old(self).scan_witnesses().insert(
                (start@, end@),
            ).contains(w) implies self.scan_witnesses().contains(w) by {
                if w == (start@, end@) {
                    assert((self.scans@[self.scans@.len() - 1].0@,
                    self.scans@[self.scans@.len() - 1].1@) == w);
                } else {
                    let i = choose|i: int|
                        0 <= i < old_scans.len() && ((#[trigger] old_scans[i]).0@,
                        old_scans[i].1@) == w;
                    assert((self.scans@[i].0@, self.scans@[i].1@) == w);
                }
            }
            assert(self.scan_witnesses() =~= old(self).scan_witnesses().insert((start@, end@)));
        }
    }

    /// Scan with the staged writes layered over the base snapshot, and
    /// witness the range.
    pub fn scan(&mut self, db: &Database, start: &[u8], end: &[u8]) -> (r: Vec<(Vec<u8>, Vec<u8>)>)
        requires
            old(self).valid_for(db),
        ensures
            final(self).valid_for(db),
            scan_result_ok(
                db.nodes@,
                old(self).base,
                Some(old(self).staged),
                start@,
                end@,
                crate::changes::entry_views(r@),
            ),
            final(self).base == old(self).base,
            final(self).staged == old(self).staged,
            final(self).reads == old(self).reads,
            final(self).scan_witnesses() == (if start@.len() + end@.len() <= u32::MAX {
                old(self).scan_witnesses().insert((start@, end@))
            } else {
                old(self).scan_witnesses()
            }),
    {
        self.register_scan(start, end);
        scan_core(&db.nodes, self.base, Some(&self.staged), start, end)
    }

    /// As `scan`, returning the keys alone.
    pub fn list(&mut self, db: &Database, start: &[u8], end: &[u8]) -> (r: Vec<Vec<u8>>)
        requires
            old(self).valid_for(db),
        ensures
            final(self).valid_for(db),
            crate::query::list_result_ok(
                db.nodes@,
                old(self).base,
                Some(old(self).staged),
                start@,
                end@,
                crate::query::key_views(r@),
            ),
            final(self).base == old(self).base,
            final(self).staged == old(self).staged,
            final(self).reads == old(self).reads,
            final(self).scan_witnesses() == (if start@.len() + end@.len() <= u32::MAX {
                old(self).scan_witnesses().insert((start@, end@))
            } else {
                old(self).scan_witnesses()
            }),
    {
        let pairs = self.scan(db, start, end);
        let keys = crate::query::keys_of_pairs(&pairs);
        proof {
            crate::query::lemma_list_from_scan(
                db.nodes@,
                old(self).base,
                Some(old(self).staged),
                start@,
                end@,
                crate::changes::entry_views(pairs@),
                crate::query::key_views(keys@),
            );
        }
        keys
    }

    /// As `list`, returning only how many keys match.
    pub fn count(&mut self, db: &Database, start: &[u8], end: &[u8]) -> (r: u32)
        requires
            old(self).valid_for(db),
        ensures
            final(self).valid_for(db),
            exists|ks: Seq<Seq<u8>>|
                crate::query::list_result_ok(
                    db.nodes@,
                    old(self).base,
                    Some(old(self).staged),
                    start@,
                    end@,
                    ks,
                ) && r as int == crate::query::count_clamp(ks.len() as int),
            final(self).base == old(self).base,
            final(self).staged == old(self).staged,
            final(self).reads == old(self).reads,
            final(self).scan_witnesses() == (if start@.len() + end@.len() <= u32::MAX {
                old(self).scan_witnesses().insert((start@, end@))
            } else {
                old(self).scan_witnesses()
            }),
    {
        let keys = self.list(db, start, end);
        crate::query::clamp_len(keys.len())
    }

    /// Commit: link the staged change-set onto the chain head.  If commits
    /// were interposed since this transaction began, each is validated
    /// against the read and scan witnesses; an overlap aborts with
    /// `Conflict` and leaves the database unchanged.
    pub fn commit(self, db: &mut Database) -> (r: Result<Timestamp, TransactionError>)
        requires
            self.valid_for(old(db)),
            self.staged.view_entries().len() <= u32::MAX,
        ensures
            match r {
                Ok(t) => {
                    &&& t.wf()
                    &&& !segment_conflicts(
                        old(db).nodes@,
                        old(db).resolved_head,
                        self.base,
                        self.read_witnesses(),
                        self.scan_witnesses(),
                    )
                    &&& final(db).wf()
                    &&& final(db).nodes@ == old(db).nodes@.push(
                        Node { prev: old(db).resolved_head, time: t, changes: self.staged },
                    )
                    &&& final(db).resolved_head == Some(old(db).nodes@.len() as usize)
                    &&& final(db).persistent == old(db).persistent
                    &&& final(db).sync == old(db).sync
                    &&& final(db).serialized_head == (if old(db).persistent {
                        old(db).serialized_head
                    } else {
                        final(db).resolved_head
                    })
                    &&& forall|k: Seq<u8>|
                        chain_lookup(final(db).nodes@, final(db).resolved_head, k)
                            == layered_lookup(
                            old(db).nodes@,
                            old(db).resolved_head,
                            Some(self.staged),
                            k,
                        )
                },
                Err(e) => {
                    &&& e is Conflict
                    &&& *final(db) == *old(db)
                    &&& segment_conflicts(
                        old(db).nodes@,
                        old(db).resolved_head,
                        self.base,
                        self.read_witnesses(),
                        self.scan_witnesses(),
                    )
                },
            },
    {
        let ghost reads_set = self.read_witnesses();
        let ghost scans_set = self.scan_witnesses();
        let mut cur = db.resolved_head;
        loop
            invariant
                db == old(db),
                self.valid_for(db),
                head_ok(db.nodes@, cur),
                crate::store::on_chain(db.nodes@, cur, self.base),
                reads_set == self.read_witnesses(),
                scans_set == self.scan_witnesses(),
                segment_conflicts(db.nodes@, db.resolved_head, self.base, reads_set, scans_set)
                    == segment_conflicts(db.nodes@, cur, self.base, reads_set, scans_set),
            ensures
                !segment_conflicts(
                    db.nodes@,
                    db.resolved_head,
                    self.base,
                    reads_set,
                    scans_set,
                ),
            decreases head_measure(cur),
        {
            let done = match (cur, self.base) {
                (None, None) => true,
                (Some(a), Some(b)) => a == b,
                _ => false,
            };
            if done {
                proof {
                    assert(cur == self.base);
                }
                break ;
            }
            let i = match cur {
                Some(i) => i,
                None => {
                    // `on_chain` rules this out: the walk meets the base
                    // before the origin.
                    proof {
                        assert(false);
                    }
                    0
                },
            };
            let n = &db.nodes[i];
            if node_check(&n.changes, &self.reads, &self.scans) {
                proof {
                    assert(node_conflicts(db.nodes@[i as int], reads_set, scans_set));
                    assert(segment_conflicts(db.nodes@, cur, self.base, reads_set, scans_set));
                }
                return Err(TransactionError::Conflict);
            }
            proof {
                assert(!node_conflicts(db.nodes@[i as int], reads_set, scans_set));
            }
            cur = n.prev;
        }
        // Validation passed; linearize the commit.
        let time = now_since_epoch();
        let ghost old_nodes = db.nodes@;
        let ghost old_head = db.resolved_head;
        let new_index = db.nodes.len();
        let node = Node { prev: db.resolved_head, time, changes: self.staged };
        db.nodes.push(node);
        db.resolved_head = Some(new_index);
        if !db.persistent {
            db.serialized_head = Some(new_index);
        }
        proof {
            let nn = db.nodes@;
            assert(nn =~= old_nodes.push(
                Node { prev: old_head, time, changes: self.staged },
            ));
            assert forall|j: int| 0 <= j < nn.len() implies crate::store::node_wf(
                #[trigger] nn[j],
                j,
            ) by {
                if j < old_nodes.len() {
                    assert(crate::store::node_wf(old_nodes[j], j));
                }
            }
            lemma_on_chain_push(
                old_nodes,
                Node { prev: old_head, time, changes: self.staged },
                old_head,
                old(db).serialized_head,
            );
            assert forall|k: Seq<u8>|
                chain_lookup(nn, db.resolved_head, k) == layered_lookup(
                    old_nodes,
                    old_head,
                    Some(self.staged),
                    k,
                ) by {
                lemma_chain_lookup_push(
                    old_nodes,
                    Node { prev: old_head, time, changes: self.staged },
                    old_head,
                    k,
                );
            }
        }
        Ok(time)
    }

    /// Discard the transaction; nothing it staged becomes visible.
    pub fn rollback(self)
    {
    }
}

/// Does any key of this change-set collide with the witnesses?
fn node_check(changes: &ChangeSet, reads: &Vec<Vec<u8>>, scans: &Vec<(Vec<u8>, Vec<u8>)>) -> (r:
    bool)
    requires
        changes.wf(),
    ensures
        r == node_conflicts_sets(
            *changes,
            reads_set_of(reads@),
            scans_set_of(scans@),
        ),
{
    let n = changes.entries.len();
    let mut e: usize = 0;
    while e < n
        invariant
            changes.wf(),
            n == changes.entries@.len(),
            0 <= e <= n,
            forall|j: int|
                0 <= j < e ==> !reads_set_of(reads@).contains(
                    (#[trigger] changes.view_entries()[j]).0,
                ) && !(exists|w: (Seq<u8>, Seq<u8>)|
                    #[trigger] scans_set_of(scans@).contains(w) && key_matches(
                        changes.view_entries()[j].0,
                        w.0,
                        w.1,
                    )),
        decreases n - e,
    {
        let entry = &changes.entries[e];
        if reads_contains(reads, entry.0.as_slice()) {
            proof {
                assert(reads_set_of(reads@).contains(changes.view_entries()[e as int].0));
                witness_in_map(changes, e as int);
            }
            return true;
        }
        if scans_match(scans, entry.0.as_slice()) {
            proof {
                let i = choose|i: int|
                    0 <= i < scans@.len() && key_matches(
                        entry.0@,
                        (#[trigger] scans@[i]).0@,
                        scans@[i].1@,
                    );
                assert(scans_set_of(scans@).contains((scans@[i].0@, scans@[i].1@)));
                witness_in_map(changes, e as int);
            }
            return true;
        }
        e = e + 1;
    }
    proof {
        if node_conflicts_sets(*changes, reads_set_of(reads@), scans_set_of(scans@)) {
            let k = choose|k: Seq<u8>|
                #[trigger] changes.as_map().dom().contains(k) && (reads_set_of(reads@).contains(k)
                    || exists|w: (Seq<u8>, Seq<u8>)|
                    #[trigger] scans_set_of(scans@).contains(w) && key_matches(k, w.0, w.1));
            crate::changes::lemma_map_of_entries_domain(changes.view_entries(), k);
        }
    }
    false
}

/// The key set that a vector of read witnesses denotes.
pub open spec fn reads_set_of(reads: Seq<Vec<u8>>) -> Set<Seq<u8>> {
    Set::new(|k: Seq<u8>| exists|i: int| 0 <= i < reads.len() && (#[trigger] reads[i])@ == k)
}

/// The range set that a vector of scan witnesses denotes.
pub open spec fn scans_set_of(scans: Seq<(Vec<u8>, Vec<u8>)>) -> Set<(Seq<u8>, Seq<u8>)> {
    Set::new(
        |w: (Seq<u8>, Seq<u8>)| exists|i: int|
            0 <= i < scans.len() && ((#[trigger] scans[i]).0@, scans[i].1@) == w,
    )
}

/// `node_conflicts` restated over a change-set value.
pub open spec fn node_conflicts_sets(
    changes: ChangeSet,
    reads: Set<Seq<u8>>,
    scans: Set<(Seq<u8>, Seq<u8>)>,
) -> bool {
    exists|k: Seq<u8>|
        #[trigger] changes.as_map().dom().contains(k) && (reads.contains(k) || exists|
            w: (Seq<u8>, Seq<u8>),
        | #[trigger] scans.contains(w) && key_matches(k, w.0, w.1))
}

/// An entry key of a well-formed change-set is in its mapping.
proof fn witness_in_map(changes: &ChangeSet, e: int)
    requires
        changes.wf(),
        0 <= e < changes.view_entries().len(),
    ensures
        changes.as_map().dom().contains(changes.view_entries()[e].0),
{
    crate::changes::lemma_sorted_entry_value(changes.view_entries(), e);
}

} // verus!
