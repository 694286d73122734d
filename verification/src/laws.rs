//! The library's global guarantees, each proved once and for all.
//!
//! These theorems tie the contracts of the store, the scan engine, the
//! commit protocol and the persistence pipeline together: what a reader
//! sees after a commit, how count, list and scan agree, what the match set
//! of a range query is, and that recovery reproduces the in-memory chain.

use vstd::prelude::*;

use crate::bytes::{is_prefix_of, is_suffix_of, lemma_lex_lt_trichotomy, lex_lt};
use crate::changes::ChangeSet;
use crate::codec::parse_log;
use crate::persist::{lemma_parse_chain_log, rebuilt_from};
use crate::query::{key_matches, keys_sorted, list_result_ok, scan_result_ok};
use crate::store::{
    chain_log, chain_lookup, chain_records, head_measure, head_ok, layered_lookup, nodes_wf,
    Database, Node,
};
use crate::txn::segment_conflicts;

verus! {

/// Two sorted key sequences with the same members are equal.
pub proof fn lemma_sorted_keys_canonical(ks1: Seq<Seq<u8>>, ks2: Seq<Seq<u8>>)
    requires
        keys_sorted(ks1),
        keys_sorted(ks2),
        forall|k: Seq<u8>| #[trigger] ks1.contains(k) ==> ks2.contains(k),
        forall|k: Seq<u8>| #[trigger] ks2.contains(k) ==> ks1.contains(k),
    ensures
        ks1 == ks2,
    decreases ks1.len(),
{
    if ks1.len() == 0 {
        if ks2.len() > 0 {
            assert(ks2.contains(ks2[0]));
            assert(ks1.contains(ks2[0]));
        }
        assert(ks1 =~= ks2);
    } else if ks2.len() == 0 {
        assert(ks1.contains(ks1[0]));
        assert(ks2.contains(ks1[0]));
    } else {
        let x = ks1.last();
        let y = ks2.last();
        assert(ks1.contains(x)) by {
            assert(ks1[ks1.len() - 1] == x);
        }
        assert(ks2.contains(y)) by {
            assert(ks2[ks2.len() - 1] == y);
        }
        let i = choose|q: int| 0 <= q < ks2.len() && ks2[q] == x;
        let j = choose|p: int| 0 <= p < ks1.len() && ks1[p] == y;
        if i < ks2.len() - 1 {
            assert(lex_lt(x, y));
        }
        if j < ks1.len() - 1 {
            assert(lex_lt(y, x));
        }
        lemma_lex_lt_trichotomy(x, y);
        assert(x == y);
        let t1 = ks1.drop_last();
        let t2 = ks2.drop_last();
        assert forall|k: Seq<u8>| #[trigger] t1.contains(k) implies t2.contains(k) by {
            let p = choose|p: int| 0 <= p < t1.len() && t1[p] == k;
            assert(ks1[p] == k);
            assert(ks1.contains(k));
            assert(lex_lt(k, x));
            lemma_lex_lt_trichotomy(k, x);
            let q = choose|q: int| 0 <= q < ks2.len() && ks2[q] == k;
            if q == ks2.len() - 1 {
                assert(k == y);
            }
            assert(t2[q] == k);
        }
        assert forall|k: Seq<u8>| #[trigger] t2.contains(k) implies t1.contains(k) by {
            let q = choose|q: int| 0 <= q < t2.len() && t2[q] == k;
            assert(ks2[q] == k);
            assert(ks2.contains(k));
            assert(lex_lt(k, y));
            lemma_lex_lt_trichotomy(k, y);
            let p = choose|p: int| 0 <= p < ks1.len() && ks1[p] == k;
            if p == ks1.len() - 1 {
                assert(k == x);
            }
            assert(t1[p] == k);
        }
        lemma_sorted_keys_canonical(t1, t2);
        assert(forall|i: int| 0 <= i < ks1.len() - 1 ==> ks1[i] == t1[i] && ks2[i] == t2[i]);
        assert(ks1 =~= ks2);
    }
}

/// A listing of a given view is unique: any two sequences that satisfy the
/// listing contract are equal.  With `count` and `scan` specified through
/// the same listing, this is what makes `count(start, end)` the length of
/// `list(start, end)`.
pub proof fn law_list_unique(
    nodes: Seq<Node>,
    h: Option<usize>,
    extra: Option<ChangeSet>,
    start: Seq<u8>,
    end: Seq<u8>,
    ks1: Seq<Seq<u8>>,
    ks2: Seq<Seq<u8>>,
)
    requires
        list_result_ok(nodes, h, extra, start, end, ks1),
        list_result_ok(nodes, h, extra, start, end, ks2),
    ensures
        ks1 == ks2,
{
    assert forall|k: Seq<u8>| #[trigger] ks1.contains(k) implies ks2.contains(k) by {
        let p = choose|p: int| 0 <= p < ks1.len() && ks1[p] == k;
        assert(key_matches(ks1[p], start, end));
        let q = choose|q: int| 0 <= q < ks2.len() && ks2[q] == k;
    }
    assert forall|k: Seq<u8>| #[trigger] ks2.contains(k) implies ks1.contains(k) by {
        let q = choose|q: int| 0 <= q < ks2.len() && ks2[q] == k;
        assert(key_matches(ks2[q], start, end));
        let p = choose|p: int| 0 <= p < ks1.len() && ks1[p] == k;
    }
    lemma_sorted_keys_canonical(ks1, ks2);
}

/// A scan is the listing paired with each key's effective value: the keys
/// of any scan result are exactly any listing of the same view.
pub proof fn law_scan_is_list_with_values(
    nodes: Seq<Node>,
    h: Option<usize>,
    extra: Option<ChangeSet>,
    start: Seq<u8>,
    end: Seq<u8>,
    pairs: Seq<(Seq<u8>, Seq<u8>)>,
    ks: Seq<Seq<u8>>,
)
    requires
        scan_result_ok(nodes, h, extra, start, end, pairs),
        list_result_ok(nodes, h, extra, start, end, ks),
    ensures
        ks.len() == pairs.len(),
        forall|p: int|
            0 <= p < pairs.len() ==> ks[p] == (#[trigger] pairs[p]).0 && layered_lookup(
                nodes,
                h,
                extra,
                pairs[p].0,
            ) == Some(pairs[p].1),
{
    let pk = Seq::new(pairs.len(), |p: int| pairs[p].0);
    assert forall|p: int, q: int| 0 <= p < q < pk.len() implies lex_lt(pk[p], pk[q]) by {
        assert(lex_lt(pairs[p].0, pairs[q].0));
    }
    assert forall|k: Seq<u8>| #[trigger] pk.contains(k) implies ks.contains(k) by {
        let p = choose|p: int| 0 <= p < pk.len() && pk[p] == k;
        assert(key_matches(pairs[p].0, start, end));
        let q = choose|q: int| 0 <= q < ks.len() && ks[q] == k;
    }
    assert forall|k: Seq<u8>| #[trigger] ks.contains(k) implies pk.contains(k) by {
        let q = choose|q: int| 0 <= q < ks.len() && ks[q] == k;
        assert(key_matches(ks[q], start, end));
        let p = choose|p: int| 0 <= p < pairs.len() && pairs[p].0 == k;
        assert(pk[p] == k);
    }
    lemma_sorted_keys_canonical(pk, ks);
}

/// The match set of a range query: a key is listed exactly when it is long
/// enough to hold the prefix and the suffix without overlap, starts with
/// the one and ends with the other, and its effective value is non-empty.
pub proof fn law_listed_iff_matches(
    nodes: Seq<Node>,
    h: Option<usize>,
    extra: Option<ChangeSet>,
    start: Seq<u8>,
    end: Seq<u8>,
    ks: Seq<Seq<u8>>,
    k: Seq<u8>,
)
    requires
        list_result_ok(nodes, h, extra, start, end, ks),
    ensures
        (exists|p: int| 0 <= p < ks.len() && #[trigger] ks[p] == k) <==> {
            &&& k.len() >= start.len() + end.len()
            &&& is_prefix_of(start, k)
            &&& is_suffix_of(end, k)
            &&& layered_lookup(nodes, h, extra, k) matches Some(v) && v.len() > 0
        },
{
    if exists|p: int| 0 <= p < ks.len() && #[trigger] ks[p] == k {
        let p = choose|p: int| 0 <= p < ks.len() && ks[p] == k;
        assert(key_matches(ks[p], start, end));
    }
    let lk = layered_lookup(nodes, h, extra, k);
    if k.len() >= start.len() + end.len() && is_prefix_of(start, k) && is_suffix_of(end, k) && lk
        is Some && lk->Some_0.len() > 0 {
        assert(key_matches(k, start, end));
    }
}

/// What a commit makes visible: every subsequently taken snapshot reads the
/// staged value for each written key and the old value for every other key.
/// Together with the conflict clause of `Transaction::commit` — on `Err` the
/// database is unchanged — this is the atomicity of transactions.
pub proof fn law_commit_visibility(
    old_nodes: Seq<Node>,
    old_head: Option<usize>,
    staged: ChangeSet,
    new_nodes: Seq<Node>,
    new_head: Option<usize>,
    k: Seq<u8>,
)
    requires
        forall|k2: Seq<u8>|
            chain_lookup(new_nodes, new_head, k2) == layered_lookup(
                old_nodes,
                old_head,
                Some(staged),
                k2,
            ),
    ensures
        staged.as_map().dom().contains(k) ==> chain_lookup(new_nodes, new_head, k) == Some(
            staged.as_map()[k],
        ),
        !staged.as_map().dom().contains(k) ==> chain_lookup(new_nodes, new_head, k)
            == chain_lookup(old_nodes, old_head, k),
{
    assert(chain_lookup(new_nodes, new_head, k) == layered_lookup(
        old_nodes,
        old_head,
        Some(staged),
        k,
    ));
}

/// Writing the empty value hides a key: it appears in no listing of any
/// range, whatever `start` and `end` are.
pub proof fn law_empty_value_hidden(
    nodes: Seq<Node>,
    h: Option<usize>,
    extra: Option<ChangeSet>,
    start: Seq<u8>,
    end: Seq<u8>,
    ks: Seq<Seq<u8>>,
    k: Seq<u8>,
)
    requires
        list_result_ok(nodes, h, extra, start, end, ks),
        layered_lookup(nodes, h, extra, k) matches Some(v) ==> v.len() == 0,
    ensures
        forall|p: int| 0 <= p < ks.len() ==> (#[trigger] ks[p]) != k,
{
    assert forall|p: int| 0 <= p < ks.len() implies (#[trigger] ks[p]) != k by {
        assert(layered_lookup(nodes, h, extra, ks[p])->Some_0.len() > 0);
    }
}

/// Conflict detection is symmetric in the witnesses: whichever of two
/// overlapping transactions validates against the other's commit finds the
/// interposed node touching a witnessed key and reports a conflict, while a
/// commit that raced nobody (its base is still the head) validates nothing
/// and succeeds, as `Transaction::commit` ensures through
/// `segment_conflicts` being false for an empty segment.
pub proof fn law_witnessed_write_conflicts(
    nodes: Seq<Node>,
    from: Option<usize>,
    base: Option<usize>,
    reads: Set<Seq<u8>>,
    scans: Set<(Seq<u8>, Seq<u8>)>,
    k: Seq<u8>,
)
    requires
        from matches Some(i) && i < nodes.len() && head_measure(nodes[i as int].prev) <= i
            && nodes[i as int].changes.as_map().dom().contains(k),
        from != base,
        reads.contains(k) || exists|w: (Seq<u8>, Seq<u8>)|
            #[trigger] scans.contains(w) && key_matches(k, w.0, w.1),
    ensures
        segment_conflicts(nodes, from, base, reads, scans),
{
    let i = from->0;
    assert(crate::txn::node_conflicts(nodes[i as int], reads, scans));
}

/// A chain of nodes below index `i` has at most `i + 1` records.
proof fn lemma_chain_records_count(nodes: Seq<Node>, h: Option<usize>)
    ensures
        chain_records(nodes, h).len() <= head_measure(h),
    decreases head_measure(h),
{
    match h {
        None => {},
        Some(i) => {
            if i < nodes.len() && head_measure(nodes[i as int].prev) <= i {
                lemma_chain_records_count(nodes, nodes[i as int].prev);
            }
        },
    }
}

/// Looking a key up in a chain rebuilt from a prefix of records agrees with
/// the original chain that serialized those records.
proof fn lemma_rebuilt_lookup(
    nodes: Seq<Node>,
    h: Option<usize>,
    db2: Database,
    full: Seq<crate::codec::RecordView>,
    k: Seq<u8>,
)
    requires
        nodes_wf(nodes),
        head_ok(nodes, h),
        rebuilt_from(db2, full),
        chain_records(nodes, h) == full.take(chain_records(nodes, h).len() as int),
        chain_records(nodes, h).len() <= full.len(),
        full.len() <= usize::MAX,
    ensures
        chain_lookup(
            db2.nodes@,
            if chain_records(nodes, h).len() == 0 {
                None
            } else {
                Some((chain_records(nodes, h).len() - 1) as usize)
            },
            k,
        ) == chain_lookup(nodes, h, k),
    decreases head_measure(h),
{
    match h {
        None => {},
        Some(i) => {
            let n = nodes[i as int];
            let recs = chain_records(nodes, h);
            let cnt = recs.len() as int;
            let j = cnt - 1;
            assert(recs == chain_records(nodes, n.prev) + seq![
                crate::codec::RecordView { time: n.time, entries: n.changes.view_entries() },
            ]);
            assert(recs[j].entries == n.changes.view_entries());
            assert(full.take(cnt)[j] == full[j]);
            assert(db2.nodes@[j].changes.as_map() == crate::changes::map_of_entries(
                full[j].entries,
            ));
            assert(full[j] == recs[j]);
            assert(db2.nodes@[j].changes.as_map() == n.changes.as_map());
            assert(chain_records(nodes, n.prev) =~= recs.take(j));
            assert(recs.take(j) =~= full.take(cnt).take(j));
            assert(full.take(cnt).take(j) =~= full.take(j));
            assert(crate::store::node_wf(nodes[i as int], i as int));
            assert(chain_records(nodes, n.prev).len() == j);
            lemma_rebuilt_lookup(nodes, n.prev, db2, full, k);
            assert(j < full.len() && db2.nodes@.len() == full.len());
            let prev_head: Option<usize> = if j == 0 {
                None
            } else {
                Some((j - 1) as usize)
            };
            assert(db2.nodes@[j].prev == prev_head);
            assert(chain_lookup(db2.nodes@, prev_head, k) == chain_lookup(nodes, n.prev, k));
            assert(chain_lookup(db2.nodes@, Some(j as usize), k) == (
            if db2.nodes@[j].changes.as_map().dom().contains(k) {
                Some(db2.nodes@[j].changes.as_map()[k])
            } else {
                chain_lookup(db2.nodes@, db2.nodes@[j].prev, k)
            }));
        },
    }
}

/// For any sequence of committed and persisted changes, the chain built by
/// recovery from the log is equivalent to the in-memory chain as a mapping,
/// key by key; and recovery of such a log consumes it entirely.
pub proof fn law_recovery_round_trip(db: Database, db2: Database, consumed: int)
    requires
        db.wf(),
        db.nodes@.len() <= usize::MAX,
        db.serialized_head == db.resolved_head,
        rebuilt_from(db2, parse_log(chain_log(db.nodes@, db.resolved_head), 0).0),
        consumed == parse_log(chain_log(db.nodes@, db.resolved_head), 0).1,
    ensures
        consumed == chain_log(db.nodes@, db.resolved_head).len(),
        forall|k: Seq<u8>|
            chain_lookup(db2.nodes@, db2.resolved_head, k) == chain_lookup(
                db.nodes@,
                db.resolved_head,
                k,
            ),
{
    lemma_parse_chain_log(db.nodes@, db.resolved_head);
    let recs = chain_records(db.nodes@, db.resolved_head);
    lemma_chain_records_count(db.nodes@, db.resolved_head);
    assert(recs =~= recs.take(recs.len() as int));
    assert forall|k: Seq<u8>|
        chain_lookup(db2.nodes@, db2.resolved_head, k) == chain_lookup(
            db.nodes@,
            db.resolved_head,
            k,
        ) by {
        lemma_rebuilt_lookup(db.nodes@, db.resolved_head, db2, recs, k);
    }
}

/// Both databases are rebuilt from the same records, so they answer every
/// lookup alike.
proof fn lemma_rebuilt_pair_lookup(
    db1: Database,
    db2: Database,
    recs: Seq<crate::codec::RecordView>,
    j: int,
    k: Seq<u8>,
)
    requires
        rebuilt_from(db1, recs),
        rebuilt_from(db2, recs),
        -1 <= j < recs.len(),
        recs.len() <= usize::MAX,
    ensures
        chain_lookup(
            db1.nodes@,
            if j < 0 {
                None
            } else {
                Some(j as usize)
            },
            k,
        ) == chain_lookup(
            db2.nodes@,
            if j < 0 {
                None
            } else {
                Some(j as usize)
            },
            k,
        ),
    decreases j + 1,
{
    if j >= 0 {
        assert(db1.nodes@[j].changes.as_map() == db2.nodes@[j].changes.as_map());
        assert(db1.nodes@[j].prev == db2.nodes@[j].prev);
        let prev_head: Option<usize> = if j == 0 {
            None
        } else {
            Some((j - 1) as usize)
        };
        assert(db1.nodes@[j].prev == prev_head);
        lemma_rebuilt_pair_lookup(db1, db2, recs, j - 1, k);
        assert(chain_lookup(db1.nodes@, prev_head, k) == chain_lookup(db2.nodes@, prev_head, k));
        assert(chain_lookup(db1.nodes@, Some(j as usize), k) == (
        if db1.nodes@[j].changes.as_map().dom().contains(k) {
            Some(db1.nodes@[j].changes.as_map()[k])
        } else {
            chain_lookup(db1.nodes@, prev_head, k)
        }));
        assert(chain_lookup(db2.nodes@, Some(j as usize), k) == (
        if db2.nodes@[j].changes.as_map().dom().contains(k) {
            Some(db2.nodes@[j].changes.as_map()[k])
        } else {
            chain_lookup(db2.nodes@, prev_head, k)
        }));
    }
}

/// Opening a log twice without intervening writes yields the same chain —
/// node for node, as times and mappings — and, after the first open's
/// truncation, the identical file prefix.
pub proof fn law_recovery_idempotent(
    bytes: Seq<u8>,
    db1: Database,
    c1: int,
    db2: Database,
    c2: int,
)
    requires
        parse_log(bytes, 0).0.len() <= usize::MAX,
        rebuilt_from(db1, parse_log(bytes, 0).0),
        c1 == parse_log(bytes, 0).1,
        rebuilt_from(db2, parse_log(bytes.take(c1), 0).0),
        c2 == parse_log(bytes.take(c1), 0).1,
    ensures
        c2 == c1,
        bytes.take(c1).take(c2) == bytes.take(c1),
        db1.nodes@.len() == db2.nodes@.len(),
        db1.resolved_head == db2.resolved_head,
        db1.serialized_head == db2.serialized_head,
        forall|j: int|
            0 <= j < db1.nodes@.len() ==> (#[trigger] db1.nodes@[j]).time == db2.nodes@[j].time
                && db1.nodes@[j].changes.view_entries() == db2.nodes@[j].changes.view_entries()
                && db1.nodes@[j].prev == db2.nodes@[j].prev,
        forall|k: Seq<u8>|
            chain_lookup(db1.nodes@, db1.resolved_head, k) == chain_lookup(
                db2.nodes@,
                db2.resolved_head,
                k,
            ),
{
    crate::codec::lemma_parse_log_bounds(bytes, 0);
    crate::codec::lemma_parse_log_take(bytes, 0);
    assert(bytes.take(c1).take(c2) =~= bytes.take(c1));
    let recs = parse_log(bytes, 0).0;
    // The representation is canonical, so equal mappings mean equal entry
    // vectors, node for node.
    assert forall|j: int|
        0 <= j < db1.nodes@.len() implies (#[trigger] db1.nodes@[j]).changes.view_entries()
        == db2.nodes@[j].changes.view_entries() by {
        assert(crate::store::node_wf(db1.nodes@[j], j));
        assert(crate::store::node_wf(db2.nodes@[j], j));
        crate::changes::lemma_sorted_entries_canonical(
            db1.nodes@[j].changes.view_entries(),
            db2.nodes@[j].changes.view_entries(),
        );
    }
    assert forall|k: Seq<u8>|
        chain_lookup(db1.nodes@, db1.resolved_head, k) == chain_lookup(
            db2.nodes@,
            db2.resolved_head,
            k,
        ) by {
        lemma_rebuilt_pair_lookup(db1, db2, recs, recs.len() as int - 1, k);
    }
}

} // verus!
