//! The snapshot scan engine: count, list and scan over prefix+suffix ranges.
//!
//! A key matches a `(start, end)` range when it is long enough that the
//! prefix and suffix do not overlap, starts with `start`, and ends with
//! `end`.  A query walks the chain oldest to newest, layering each
//! change-set over the state so far, keeps the matching keys, and finally
//! drops the keys whose effective value is empty (deleted).

use vstd::prelude::*;

use crate::bytes::{ends_with, is_prefix_of, is_suffix_of, lex_lt, starts_with};
use crate::changes::{
    entries_sorted, entry_views, lemma_bounded_map_lookup, lemma_map_of_entries_domain,
    lemma_sorted_entry_value, map_of_entries, ChangeSet,
};
use crate::store::{
    chain_lookup, head_measure, head_ok, layered_lookup, lemma_chain_lookup_bounded, nodes_wf,
    Node,
};

verus! {

/// The match predicate of count/list/scan: the key holds `start` and `end`
/// without overlap.
pub open spec fn key_matches(k: Seq<u8>, start: Seq<u8>, end: Seq<u8>) -> bool {
    k.len() >= start.len() + end.len() && is_prefix_of(start, k) && is_suffix_of(end, k)
}

/// What a finished scan returns: a sorted sequence holding exactly the
/// matching keys whose effective value is non-empty, each with that value.
pub open spec fn scan_result_ok(
    nodes: Seq<Node>,
    h: Option<usize>,
    extra: Option<ChangeSet>,
    start: Seq<u8>,
    end: Seq<u8>,
    r: Seq<(Seq<u8>, Seq<u8>)>,
) -> bool {
    &&& entries_sorted(r)
    &&& forall|p: int|
        0 <= p < r.len() ==> key_matches((#[trigger] r[p]).0, start, end) && layered_lookup(
            nodes,
            h,
            extra,
            r[p].0,
        ) == Some(r[p].1) && r[p].1.len() > 0
    &&& forall|k: Seq<u8>|
        #[trigger] key_matches(k, start, end) && layered_lookup(nodes, h, extra, k) is Some
            && layered_lookup(nodes, h, extra, k)->Some_0.len() > 0 ==> exists|p: int|
            0 <= p < r.len() && (#[trigger] r[p]).0 == k
}

/// The intermediate state of a scan: the accumulator maps exactly the
/// matching keys that `base` knows, to `base`'s values.
pub open spec fn acc_matches_base(
    m: Map<Seq<u8>, Seq<u8>>,
    start: Seq<u8>,
    end: Seq<u8>,
    base: spec_fn(Seq<u8>) -> Option<Seq<u8>>,
) -> bool {
    &&& forall|k: Seq<u8>|
        #[trigger] m.dom().contains(k) ==> key_matches(k, start, end) && base(k) == Some(m[k])
    &&& forall|k: Seq<u8>|
        #[trigger] key_matches(k, start, end) && base(k) is Some ==> m.dom().contains(k)
}

/// Executable test of `key_matches`.
pub fn key_matches_exec(k: &[u8], start: &[u8], end: &[u8]) -> (r: bool)
    ensures
        r == key_matches(k@, start@, end@),
{
    if start.len() > k.len() || end.len() > k.len() - start.len() {
        return false;
    }
    starts_with(k, start) && ends_with(k, end)
}

/// Layer the matching entries of `cs` over an accumulator that reflects
/// `base`; afterwards the accumulator reflects `cs` over `base`.
fn apply_matching(
    acc: &mut ChangeSet,
    cs: &ChangeSet,
    start: &[u8],
    end: &[u8],
    Ghost(base): Ghost<spec_fn(Seq<u8>) -> Option<Seq<u8>>>,
)
    requires
        old(acc).wf(),
        cs.wf(),
        acc_matches_base(old(acc).as_map(), start@, end@, base),
    ensures
        final(acc).wf(),
        acc_matches_base(
            final(acc).as_map(),
            start@,
            end@,
            |k: Seq<u8>|
                if cs.as_map().dom().contains(k) {
                    Some(cs.as_map()[k])
                } else {
                    base(k)
                },
    ),
{
    let ghost ces = cs.view_entries();
    let n = cs.entries.len();
    let mut e: usize = 0;
    while e < n
        invariant
            acc.wf(),
            cs.wf(),
            n == cs.entries@.len(),
            ces == cs.view_entries(),
            0 <= e <= n,
            acc_matches_base(
                acc.as_map(),
                start@,
                end@,
                |k: Seq<u8>|
                    if map_of_entries(ces.take(e as int)).dom().contains(k) {
                        Some(map_of_entries(ces.take(e as int))[k])
                    } else {
                        base(k)
                    },
            ),
        decreases n - e,
    {
        let ghost pre = map_of_entries(ces.take(e as int));
        let ghost post = map_of_entries(ces.take(e as int + 1));
        proof {
            assert(ces.take(e as int + 1).drop_last() =~= ces.take(e as int));
            assert(ces.take(e as int + 1).last() == ces[e as int]);
            assert(post == pre.insert(ces[e as int].0, ces[e as int].1));
        }
        let entry = &cs.entries[e];
        if key_matches_exec(entry.0.as_slice(), start, end) {
            let key = vstd::slice::slice_to_vec(entry.0.as_slice());
            let value = vstd::slice::slice_to_vec(entry.1.as_slice());
            acc.insert(key, value);
        }
        proof {
            let k0 = ces[e as int].0;
            let prev_fn = |k: Seq<u8>|
                if pre.dom().contains(k) {
                    Some(pre[k])
                } else {
                    base(k)
                };
            let next_fn = |k: Seq<u8>|
                if post.dom().contains(k) {
                    Some(post[k])
                } else {
                    base(k)
                };
            assert forall|k: Seq<u8>| #[trigger] acc.as_map().dom().contains(k) implies key_matches(
                k,
                start@,
                end@,
            ) && next_fn(k) == Some(acc.as_map()[k]) by {
                if k != k0 {
                    assert(post.dom().contains(k) == pre.dom().contains(k));
                }
            }
            assert forall|k: Seq<u8>| #[trigger] key_matches(k, start@, end@) && next_fn(
                k,
            ) is Some implies acc.as_map().dom().contains(k) by {
                if k != k0 {
                    assert(post.dom().contains(k) == pre.dom().contains(k));
                    assert(prev_fn(k) == next_fn(k));
                }
            }
        }
        e = e + 1;
    }
    proof {
        assert(ces.take(n as int) =~= ces);
        let full_fn = |k: Seq<u8>|
            if cs.as_map().dom().contains(k) {
                Some(cs.as_map()[k])
            } else {
                base(k)
            };
        let take_fn = |k: Seq<u8>|
            if map_of_entries(ces.take(n as int)).dom().contains(k) {
                Some(map_of_entries(ces.take(n as int))[k])
            } else {
                base(k)
            };
        assert forall|k: Seq<u8>| #[trigger] acc.as_map().dom().contains(k) implies key_matches(
            k,
            start@,
            end@,
        ) && full_fn(k) == Some(acc.as_map()[k]) by {
            assert(take_fn(k) == full_fn(k));
        }
        assert forall|k: Seq<u8>| #[trigger] key_matches(k, start@, end@) && full_fn(
            k,
        ) is Some implies acc.as_map().dom().contains(k) by {
            assert(take_fn(k) == full_fn(k));
        }
    }
}

/// The chain from `h`, newest first: index 0 is `h`'s node, each entry links
/// to the next, and the last links to the origin.
fn collect_chain(nodes: &Vec<Node>, h: Option<usize>) -> (idx: Vec<usize>)
    requires
        nodes_wf(nodes@),
        head_ok(nodes@, h),
    ensures
        h == (if idx@.len() > 0 {
            Some(idx@[0])
        } else {
            None::<usize>
        }),
        forall|j: int| 0 <= j < idx@.len() ==> (#[trigger] idx@[j]) < nodes@.len(),
        forall|j: int|
            0 <= j < idx@.len() - 1 ==> nodes@[#[trigger] idx@[j] as int].prev == Some(idx@[j + 1]),
        idx@.len() > 0 ==> nodes@[idx@[idx@.len() - 1] as int].prev is None,
{
    let mut idx: Vec<usize> = Vec::new();
    let mut cur = h;
    loop
        invariant
            nodes_wf(nodes@),
            head_ok(nodes@, cur),
            h == (if idx@.len() > 0 {
                Some(idx@[0])
            } else {
                cur
            }),
            forall|j: int| 0 <= j < idx@.len() ==> (#[trigger] idx@[j]) < nodes@.len(),
            forall|j: int|
                0 <= j < idx@.len() - 1 ==> nodes@[#[trigger] idx@[j] as int].prev == Some(
                    idx@[j + 1],
                ),
            idx@.len() > 0 ==> nodes@[idx@[idx@.len() - 1] as int].prev == cur,
        decreases head_measure(cur),
    {
        match cur {
            None => {
                return idx;
            },
            Some(i) => {
                idx.push(i);
                cur = nodes[i].prev;
            },
        }
    }
}

/// Run a full scan: every matching key with a non-empty effective value,
/// sorted, paired with that value.
#[verifier::rlimit(100)]
pub fn scan_core(
    nodes: &Vec<Node>,
    h: Option<usize>,
    extra: Option<&ChangeSet>,
    start: &[u8],
    end: &[u8],
) -> (r: Vec<(Vec<u8>, Vec<u8>)>)
    requires
        nodes_wf(nodes@),
        head_ok(nodes@, h),
        match extra {
            Some(cs) => cs.wf(),
            None => true,
        },
    ensures
        scan_result_ok(
            nodes@,
            h,
            match extra {
                Some(cs) => Some(*cs),
                None => None,
            },
            start@,
            end@,
            entry_views(r@),
        ),
{
    let ghost extra_view = match extra {
        Some(cs) => Some(*cs),
        None => None::<ChangeSet>,
    };
    if start.len() > u32::MAX as usize || end.len() > (u32::MAX as usize) - start.len() {
        // No stored key is that long, so nothing can match.
        proof {
            assert forall|k: Seq<u8>|
                #[trigger] key_matches(k, start@, end@) && layered_lookup(
                    nodes@,
                    h,
                    extra_view,
                    k,
                ) is Some && layered_lookup(nodes@, h, extra_view, k)->Some_0.len()
                    > 0 implies exists|p: int|
                0 <= p < entry_views(Seq::<(Vec<u8>, Vec<u8>)>::empty()).len() && (#[trigger]
                entry_views(Seq::<(Vec<u8>, Vec<u8>)>::empty())[p]).0 == k by {
                lemma_layered_bounded(nodes@, h, extra_view, k);
            }
            assert(entry_views(Seq::<(Vec<u8>, Vec<u8>)>::empty()) =~= Seq::<(
                Seq<u8>,
                Seq<u8>,
            )>::empty());
        }
        return Vec::new();
    }
    let idx = collect_chain(nodes, h);
    let mut acc = ChangeSet::new();
    let ghost none_fn = |k: Seq<u8>| None::<Seq<u8>>;
    proof {
        assert(acc_matches_base(acc.as_map(), start@, end@, |k: Seq<u8>|
            chain_lookup(nodes@, None, k)));
    }
    let mut t = idx.len();
    while t > 0
        invariant
            nodes_wf(nodes@),
            head_ok(nodes@, h),
            0 <= t <= idx@.len(),
            forall|j: int| 0 <= j < idx@.len() ==> (#[trigger] idx@[j]) < nodes@.len(),
            forall|j: int|
                0 <= j < idx@.len() - 1 ==> nodes@[#[trigger] idx@[j] as int].prev == Some(
                    idx@[j + 1],
                ),
            idx@.len() > 0 ==> nodes@[idx@[idx@.len() - 1] as int].prev is None,
            h == (if idx@.len() > 0 {
                Some(idx@[0])
            } else {
                None::<usize>
            }),
            acc.wf(),
            acc_matches_base(acc.as_map(), start@, end@, |k: Seq<u8>|
                chain_lookup(
                    nodes@,
                    if t == idx@.len() {
                        None
                    } else {
                        Some(idx@[t as int])
                    },
                    k,
                )),
        decreases t,
    {
        let i = idx[t - 1];
        let ghost prevh = if t == idx@.len() {
            None
        } else {
            Some(idx@[t as int])
        };
        proof {
            assert(nodes@[i as int].prev == prevh);
        }
        apply_matching(
            &mut acc,
            &nodes[i].changes,
            start,
            end,
            Ghost(|k: Seq<u8>| chain_lookup(nodes@, prevh, k)),
        );
        proof {
            let up_fn = |k: Seq<u8>|
                if nodes@[i as int].changes.as_map().dom().contains(k) {
                    Some(nodes@[i as int].changes.as_map()[k])
                } else {
                    chain_lookup(nodes@, prevh, k)
                };
            let goal_fn = |k: Seq<u8>| chain_lookup(nodes@, Some(idx@[t - 1]), k);
            assert forall|k: Seq<u8>| #[trigger] acc.as_map().dom().contains(k) implies key_matches(
                k,
                start@,
                end@,
            ) && goal_fn(k) == Some(acc.as_map()[k]) by {
                assert(up_fn(k) == goal_fn(k));
            }
            assert forall|k: Seq<u8>| #[trigger] key_matches(k, start@, end@) && goal_fn(
                k,
            ) is Some implies acc.as_map().dom().contains(k) by {
                assert(up_fn(k) == goal_fn(k));
            }
        }
        t = t - 1;
    }
    if let Some(cs) = extra {
        apply_matching(&mut acc, cs, start, end, Ghost(|k: Seq<u8>| chain_lookup(nodes@, h, k)));
    }
    proof {
        assert forall|k: Seq<u8>| #[trigger] acc.as_map().dom().contains(k) implies key_matches(
            k,
            start@,
            end@,
        ) && layered_lookup(nodes@, h, extra_view, k) == Some(acc.as_map()[k]) by {}
        assert forall|k: Seq<u8>|
            #[trigger] key_matches(k, start@, end@) && layered_lookup(
                nodes@,
                h,
                extra_view,
                k,
            ) is Some implies acc.as_map().dom().contains(k) by {}
    }
    let res = filter_nonempty(&acc);
    proof {
        let rv = entry_views(res@);
        assert forall|p: int|
            0 <= p < rv.len() implies key_matches((#[trigger] rv[p]).0, start@, end@)
            && layered_lookup(nodes@, h, extra_view, rv[p].0) == Some(rv[p].1) && rv[p].1.len()
            > 0 by {
            assert(acc.as_map().dom().contains(rv[p].0));
        }
        assert forall|k: Seq<u8>|
            #[trigger] key_matches(k, start@, end@) && layered_lookup(
                nodes@,
                h,
                extra_view,
                k,
            ) is Some && layered_lookup(nodes@, h, extra_view, k)->Some_0.len() > 0 implies exists|
            p: int,
        |
            0 <= p < rv.len() && (#[trigger] rv[p]).0 == k by {
            assert(acc.as_map().dom().contains(k));
            assert(acc.as_map()[k].len() > 0);
            let p = choose|p: int| 0 <= p < rv.len() && rv[p].0 == k;
        }
    }
    res
}

/// The entries of a change-set whose value is non-empty, in order.
#[verifier::rlimit(100)]
fn filter_nonempty(acc: &ChangeSet) -> (res: Vec<(Vec<u8>, Vec<u8>)>)
    requires
        acc.wf(),
    ensures
        entries_sorted(entry_views(res@)),
        forall|p: int|
            0 <= p < res@.len() ==> acc.as_map().dom().contains(
                (#[trigger] entry_views(res@)[p]).0,
            ) && acc.as_map()[entry_views(res@)[p].0] == entry_views(res@)[p].1 && entry_views(
                res@,
            )[p].1.len() > 0,
        forall|k: Seq<u8>|
            #[trigger] acc.as_map().dom().contains(k) && acc.as_map()[k].len() > 0 ==> exists|
                p: int,
            | 0 <= p < res@.len() && (#[trigger] entry_views(res@)[p]).0 == k,
{
    let ghost avs = acc.view_entries();
    let n = acc.entries.len();
    let mut res: Vec<(Vec<u8>, Vec<u8>)> = Vec::new();
    // For each kept entry, the index it came from; the indices increase, so
    // the kept entries stay sorted.
    let ghost mut src: Seq<int> = Seq::empty();
    let mut e: usize = 0;
    while e < n
        invariant
            acc.wf(),
            avs == acc.view_entries(),
            n == acc.entries@.len(),
            0 <= e <= n,
            src.len() == res@.len(),
            forall|q: int|
                #![trigger src[q]]
                0 <= q < src.len() ==> 0 <= src[q] < e && entry_views(res@)[q] == avs[src[q]]
                    && avs[src[q]].1.len() > 0,
            forall|q1: int, q2: int| 0 <= q1 < q2 < src.len() ==> src[q1] < src[q2],
            forall|j: int|
                #![trigger avs[j]]
                0 <= j < e && avs[j].1.len() > 0 ==> exists|q: int|
                    0 <= q < src.len() && src[q] == j,
        decreases n - e,
    {
        let entry = &acc.entries[e];
        let ghost old_res = res@;
        if entry.1.len() > 0 {
            let key = vstd::slice::slice_to_vec(entry.0.as_slice());
            let value = vstd::slice::slice_to_vec(entry.1.as_slice());
            res.push((key, value));
            proof {
                assert(entry_views(res@) =~= entry_views(old_res).push(avs[e as int]));
                let old_src = src;
                src = src.push(e as int);
                assert forall|j: int|
                    #![trigger avs[j]]
                    0 <= j < e + 1 && avs[j].1.len() > 0 implies exists|q: int|
                    0 <= q < src.len() && src[q] == j by {
                    if j < e {
                        let q = choose|q: int| 0 <= q < old_src.len() && old_src[q] == j;
                        assert(src[q] == j);
                    } else {
                        assert(src[src.len() - 1] == j);
                    }
                }
            }
        }
        e = e + 1;
    }
    proof {
        let rv = entry_views(res@);
        assert forall|p1: int, p2: int| 0 <= p1 < p2 < rv.len() implies lex_lt(
            rv[p1].0,
            rv[p2].0,
        ) by {
            assert(lex_lt(avs[src[p1]].0, avs[src[p2]].0));
        }
        assert forall|p: int|
            0 <= p < rv.len() implies acc.as_map().dom().contains((#[trigger] rv[p]).0)
            && acc.as_map()[rv[p].0] == rv[p].1 && rv[p].1.len() > 0 by {
            lemma_sorted_entry_value(avs, src[p]);
        }
        assert forall|k: Seq<u8>|
            #[trigger] acc.as_map().dom().contains(k) && acc.as_map()[k].len() > 0 implies exists|
                p: int,
            | 0 <= p < rv.len() && (#[trigger] rv[p]).0 == k by {
            lemma_map_of_entries_domain(avs, k);
            let j = choose|j: int| 0 <= j < avs.len() && avs[j].0 == k;
            lemma_sorted_entry_value(avs, j);
            assert(avs[j].1.len() > 0);
            let q = choose|q: int| 0 <= q < src.len() && src[q] == j;
            assert(rv[q].0 == k);
        }
    }
    res
}


/// The keys of a listing as mathematical byte strings.
pub open spec fn key_views(r: Seq<Vec<u8>>) -> Seq<Seq<u8>> {
    r.map_values(|v: Vec<u8>| v@)
}

/// Strictly increasing byte-lexicographic order.
pub open spec fn keys_sorted(ks: Seq<Seq<u8>>) -> bool {
    forall|p: int, q: int| 0 <= p < q < ks.len() ==> lex_lt(ks[p], ks[q])
}

/// What a listing returns: the sorted matching keys with non-empty values.
pub open spec fn list_result_ok(
    nodes: Seq<Node>,
    h: Option<usize>,
    extra: Option<ChangeSet>,
    start: Seq<u8>,
    end: Seq<u8>,
    ks: Seq<Seq<u8>>,
) -> bool {
    &&& keys_sorted(ks)
    &&& forall|p: int|
        0 <= p < ks.len() ==> key_matches(#[trigger] ks[p], start, end) && layered_lookup(
            nodes,
            h,
            extra,
            ks[p],
        ) is Some && layered_lookup(nodes, h, extra, ks[p])->Some_0.len() > 0
    &&& forall|k: Seq<u8>|
        #[trigger] key_matches(k, start, end) && layered_lookup(nodes, h, extra, k) is Some
            && layered_lookup(nodes, h, extra, k)->Some_0.len() > 0 ==> exists|p: int|
            0 <= p < ks.len() && #[trigger] ks[p] == k
}

/// A listing is exactly the keys of the corresponding scan.
pub proof fn lemma_list_from_scan(
    nodes: Seq<Node>,
    h: Option<usize>,
    extra: Option<ChangeSet>,
    start: Seq<u8>,
    end: Seq<u8>,
    pairs: Seq<(Seq<u8>, Seq<u8>)>,
    ks: Seq<Seq<u8>>,
)
    requires
        scan_result_ok(nodes, h, extra, start, end, pairs),
        ks.len() == pairs.len(),
        forall|p: int| 0 <= p < ks.len() ==> #[trigger] ks[p] == pairs[p].0,
    ensures
        list_result_ok(nodes, h, extra, start, end, ks),
{
    assert forall|k: Seq<u8>|
        #[trigger] key_matches(k, start, end) && layered_lookup(nodes, h, extra, k) is Some
            && layered_lookup(nodes, h, extra, k)->Some_0.len() > 0 implies exists|p: int|
        0 <= p < ks.len() && #[trigger] ks[p] == k by {
        let p = choose|p: int| 0 <= p < pairs.len() && (#[trigger] pairs[p]).0 == k;
        assert(ks[p] == k);
    }
}

/// Project a scan result onto its keys.
pub fn keys_of_pairs(pairs: &Vec<(Vec<u8>, Vec<u8>)>) -> (r: Vec<Vec<u8>>)
    ensures
        r@.len() == pairs@.len(),
        forall|p: int| 0 <= p < r@.len() ==> key_views(r@)[p] == entry_views(pairs@)[p].0,
{
    let n = pairs.len();
    let mut r: Vec<Vec<u8>> = Vec::new();
    let mut i: usize = 0;
    while i < n
        invariant
            n == pairs@.len(),
            0 <= i <= n,
            r@.len() == i,
            forall|p: int| 0 <= p < i ==> key_views(r@)[p] == entry_views(pairs@)[p].0,
        decreases n - i,
    {
        let ghost old_r = r@;
        r.push(vstd::slice::slice_to_vec(pairs[i].0.as_slice()));
        proof {
            assert(key_views(r@) =~= key_views(old_r).push(entry_views(pairs@)[i as int].0));
            assert(forall|p: int| 0 <= p < i ==> key_views(r@)[p] == #[trigger] key_views(
                old_r,
            )[p]);
        }
        i = i + 1;
    }
    r
}

/// A listing count saturates at the u32 range of the wire protocol.
pub open spec fn count_clamp(n: int) -> int {
    if n > u32::MAX {
        u32::MAX as int
    } else {
        n
    }
}

pub fn clamp_len(n: usize) -> (r: u32)
    ensures
        r as int == count_clamp(n as int),
{
    if n > u32::MAX as usize {
        u32::MAX
    } else {
        n as u32
    }
}

/// A value that the layered view reports was written by some change-set, so
/// its key fits the on-disk length field.
pub proof fn lemma_layered_bounded(
    nodes: Seq<Node>,
    h: Option<usize>,
    extra: Option<ChangeSet>,
    k: Seq<u8>,
)
    requires
        nodes_wf(nodes),
        match extra {
            Some(cs) => cs.wf(),
            None => true,
        },
        layered_lookup(nodes, h, extra, k) is Some,
    ensures
        k.len() <= u32::MAX,
        layered_lookup(nodes, h, extra, k)->Some_0.len() <= u32::MAX,
{
    match extra {
        Some(cs) => {
            if cs.as_map().dom().contains(k) {
                lemma_bounded_map_lookup(cs.view_entries(), k);
            } else {
                lemma_chain_lookup_bounded(nodes, h, k);
            }
        },
        None => {
            lemma_chain_lookup_bounded(nodes, h, k);
        },
    }
}

} // verus!
