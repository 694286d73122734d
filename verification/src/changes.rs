//! Commit timestamps and change-sets.
//!
//! A change-set is the key-to-value mapping installed by one commit.  It is
//! stored as a vector of entries kept strictly sorted by byte-lexicographic
//! key order, so each key occurs at most once and the representation of a
//! given mapping is canonical.  An entry whose value is empty marks the key
//! as deleted.

use vstd::prelude::*;

use crate::bytes::{bytes_eq, bytes_lt, lemma_lex_lt_transitive, lemma_lex_lt_trichotomy, lex_lt};

verus! {

/// Seconds and nanoseconds since the Unix epoch, as recorded at commit time.
#[derive(Clone, Copy, Debug, PartialEq, Eq, Structural)]
pub struct Timestamp {
    pub secs: u64,
    pub nanos: u32,
}

impl Timestamp {
    /// The nanosecond field never reaches one second.
    pub open spec fn wf(&self) -> bool {
        self.nanos < 1_000_000_000
    }

    pub open spec fn spec_le(&self, other: Timestamp) -> bool {
        self.secs < other.secs || (self.secs == other.secs && self.nanos <= other.nanos)
    }

    pub fn new(secs: u64, nanos: u32) -> (r: Timestamp)
        requires
            nanos < 1_000_000_000,
        ensures
            r.secs == secs,
            r.nanos == nanos,
            r.wf(),
    {
        Timestamp { secs, nanos }
    }

    /// `self` is at or before `other`.
    pub fn le(&self, other: &Timestamp) -> (r: bool)
        ensures
            r == self.spec_le(*other),
    {
        self.secs < other.secs || (self.secs == other.secs && self.nanos <= other.nanos)
    }
}

/// The mathematical contents of a vector of owned entries.
pub open spec fn entry_views(s: Seq<(Vec<u8>, Vec<u8>)>) -> Seq<(Seq<u8>, Seq<u8>)> {
    s.map_values(|e: (Vec<u8>, Vec<u8>)| (e.0@, e.1@))
}

/// The mapping described by a sequence of entries; a later entry for the same
/// key wins.
pub open spec fn map_of_entries(s: Seq<(Seq<u8>, Seq<u8>)>) -> Map<Seq<u8>, Seq<u8>>
    decreases s.len(),
{
    if s.len() == 0 {
        Map::empty()
    } else {
        map_of_entries(s.drop_last()).insert(s.last().0, s.last().1)
    }
}

/// Entry keys are strictly increasing, so each key occurs at most once.
pub open spec fn entries_sorted(s: Seq<(Seq<u8>, Seq<u8>)>) -> bool {
    forall|i: int, j: int| 0 <= i < j < s.len() ==> lex_lt(s[i].0, s[j].0)
}

/// Every key and value fits the on-disk length fields.
pub open spec fn entries_bounded(s: Seq<(Seq<u8>, Seq<u8>)>) -> bool {
    forall|i: int|
        #![trigger s[i]]
        0 <= i < s.len() ==> s[i].0.len() <= u32::MAX && s[i].1.len() <= u32::MAX
}

/// A key is in the mapping exactly when some entry carries it.
pub proof fn lemma_map_of_entries_domain(s: Seq<(Seq<u8>, Seq<u8>)>, k: Seq<u8>)
    ensures
        map_of_entries(s).dom().contains(k) <==> exists|i: int| 0 <= i < s.len() && s[i].0 == k,
    decreases s.len(),
{
    if s.len() > 0 {
        lemma_map_of_entries_domain(s.drop_last(), k);
        if s.last().0 == k {
            assert(s[s.len() - 1].0 == k);
        } else if map_of_entries(s).dom().contains(k) {
            let i = choose|i: int| 0 <= i < s.drop_last().len() && s.drop_last()[i].0 == k;
            assert(s[i].0 == k);
        } else {
            assert(forall|i: int|
                0 <= i < s.len() - 1 && s.drop_last()[i].0 == k ==> s[i].0 == k);
        }
    }
}

/// Splitting out one entry whose key does not recur later: the mapping is the
/// mapping of the rest with that entry inserted.
pub proof fn lemma_map_of_entries_split(
    a: Seq<(Seq<u8>, Seq<u8>)>,
    e: (Seq<u8>, Seq<u8>),
    b: Seq<(Seq<u8>, Seq<u8>)>,
)
    requires
        forall|i: int| 0 <= i < b.len() ==> b[i].0 != e.0,
    ensures
        map_of_entries(a + seq![e] + b) == map_of_entries(a + b).insert(e.0, e.1),
    decreases b.len(),
{
    if b.len() == 0 {
        assert((a + seq![e] + b).drop_last() =~= a);
        assert((a + seq![e] + b).last() == e);
        assert(a + b =~= a);
    } else {
        let x = b.last();
        let b2 = b.drop_last();
        assert(forall|i: int| 0 <= i < b2.len() ==> b2[i].0 != e.0);
        lemma_map_of_entries_split(a, e, b2);
        assert((a + seq![e] + b).drop_last() =~= a + seq![e] + b2);
        assert((a + seq![e] + b).last() == x);
        assert((a + b).drop_last() =~= a + b2);
        assert((a + b).last() == x);
        assert(map_of_entries(a + b2).insert(e.0, e.1).insert(x.0, x.1) =~= map_of_entries(
            a + b2,
        ).insert(x.0, x.1).insert(e.0, e.1));
    }
}

/// In a sorted entry sequence the mapping sends each entry key to its value.
pub proof fn lemma_sorted_entry_value(s: Seq<(Seq<u8>, Seq<u8>)>, i: int)
    requires
        entries_sorted(s),
        0 <= i < s.len(),
    ensures
        map_of_entries(s).dom().contains(s[i].0),
        map_of_entries(s)[s[i].0] == s[i].1,
{
    let a = s.subrange(0, i);
    let b = s.subrange(i + 1, s.len() as int);
    assert forall|j: int| 0 <= j < b.len() implies b[j].0 != s[i].0 by {
        assert(lex_lt(s[i].0, s[i + 1 + j].0));
        lemma_lex_lt_trichotomy(s[i].0, s[i + 1 + j].0);
    }
    assert(s =~= a + seq![s[i]] + b);
    lemma_map_of_entries_split(a, s[i], b);
}

/// In a sorted, bounded entry sequence, every key of the mapping and its
/// value fit the on-disk length fields.
pub proof fn lemma_bounded_map_lookup(s: Seq<(Seq<u8>, Seq<u8>)>, k: Seq<u8>)
    requires
        entries_sorted(s),
        entries_bounded(s),
        map_of_entries(s).dom().contains(k),
    ensures
        k.len() <= u32::MAX,
        map_of_entries(s)[k].len() <= u32::MAX,
{
    lemma_map_of_entries_domain(s, k);
    let i = choose|i: int| 0 <= i < s.len() && s[i].0 == k;
    lemma_sorted_entry_value(s, i);
}

/// Two sorted entry sequences that describe the same mapping are equal.
pub proof fn lemma_sorted_entries_canonical(s1: Seq<(Seq<u8>, Seq<u8>)>, s2: Seq<(Seq<u8>, Seq<u8>)>)
    requires
        entries_sorted(s1),
        entries_sorted(s2),
        map_of_entries(s1) == map_of_entries(s2),
    ensures
        s1 == s2,
    decreases s1.len(),
{
    if s1.len() == 0 {
        if s2.len() > 0 {
            lemma_sorted_entry_value(s2, 0);
            lemma_map_of_entries_domain(s1, s2[0].0);
        }
        assert(s1 =~= s2);
    } else if s2.len() == 0 {
        lemma_sorted_entry_value(s1, 0);
        lemma_map_of_entries_domain(s2, s1[0].0);
    } else {
        let x = s1.last();
        let y = s2.last();
        // The largest key of a sorted sequence is the largest key of its
        // mapping, so the last entries agree.
        lemma_sorted_entry_value(s1, s1.len() - 1);
        lemma_sorted_entry_value(s2, s2.len() - 1);
        lemma_map_of_entries_domain(s2, x.0);
        lemma_map_of_entries_domain(s1, y.0);
        let i = choose|i: int| 0 <= i < s2.len() && s2[i].0 == x.0;
        let j = choose|j: int| 0 <= j < s1.len() && s1[j].0 == y.0;
        if i < s2.len() - 1 {
            assert(lex_lt(x.0, y.0));
        }
        if j < s1.len() - 1 {
            assert(lex_lt(y.0, x.0));
        }
        lemma_lex_lt_trichotomy(x.0, y.0);
        // So x.0 == y.0, and the values agree through the mapping.
        assert(x.0 == y.0);
        assert(x.1 == map_of_entries(s1)[x.0]);
        assert(y.1 == map_of_entries(s2)[y.0]);
        let t1 = s1.drop_last();
        let t2 = s2.drop_last();
        assert(map_of_entries(t1) == map_of_entries(t2)) by {
            assert forall|k: Seq<u8>| #[trigger] map_of_entries(t1).dom().contains(
                k,
            ) implies map_of_entries(t2).dom().contains(k) && map_of_entries(t2)[k]
                == map_of_entries(t1)[k] by {
                lemma_tail_of_canonical(s1, s2, k);
            }
            assert forall|k: Seq<u8>| #[trigger] map_of_entries(t2).dom().contains(
                k,
            ) implies map_of_entries(t1).dom().contains(k) by {
                lemma_tail_of_canonical(s2, s1, k);
            }
            assert(map_of_entries(t1) =~= map_of_entries(t2));
        }
        lemma_sorted_entries_canonical(t1, t2);
        assert(x == y);
        assert(forall|i: int| 0 <= i < s1.len() - 1 ==> s1[i] == t1[i] && s2[i] == t2[i]);
        assert(s1 =~= s2);
    }
}

/// Helper for `lemma_sorted_entries_canonical`: a key of the mapping of a
/// sorted sequence without its last entry is mapped the same way by the other
/// sequence without its last entry.
proof fn lemma_tail_of_canonical(s1: Seq<(Seq<u8>, Seq<u8>)>, s2: Seq<(Seq<u8>, Seq<u8>)>, k: Seq<u8>)
    requires
        entries_sorted(s1),
        entries_sorted(s2),
        map_of_entries(s1) == map_of_entries(s2),
        s1.len() > 0,
        s2.len() > 0,
        s1.last().0 == s2.last().0,
        map_of_entries(s1.drop_last()).dom().contains(k),
    ensures
        map_of_entries(s2.drop_last()).dom().contains(k),
        map_of_entries(s2.drop_last())[k] == map_of_entries(s1.drop_last())[k],
{
    let t1 = s1.drop_last();
    let t2 = s2.drop_last();
    lemma_map_of_entries_domain(t1, k);
    let i = choose|i: int| 0 <= i < t1.len() && t1[i].0 == k;
    assert(s1[i].0 == k);
    assert(lex_lt(k, s1.last().0));
    lemma_lex_lt_trichotomy(k, s1.last().0);
    // k is in the full mapping and differs from the shared last key.
    lemma_sorted_entry_value(s1, i);
    assert(map_of_entries(s1)[k] == t1[i].1);
    lemma_map_of_entries_domain(s2, k);
    let j = choose|j: int| 0 <= j < s2.len() && s2[j].0 == k;
    assert(j < s2.len() - 1);
    lemma_map_of_entries_domain(t2, k);
    assert(t2[j].0 == k);
    lemma_sorted_entry_value(s2, j);
    lemma_sorted_entry_value(t1, i);
    lemma_sorted_entry_value(t2, j);
    assert(map_of_entries(s2)[k] == s2[j].1);
}

/// An immutable mapping of keys to values produced by one commit.
#[derive(Debug)]
pub struct ChangeSet {
    pub entries: Vec<(Vec<u8>, Vec<u8>)>,
}

impl ChangeSet {
    /// The entries as mathematical byte strings.
    pub open spec fn view_entries(&self) -> Seq<(Seq<u8>, Seq<u8>)> {
        entry_views(self.entries@)
    }

    /// The mapping this change-set installs.
    pub open spec fn as_map(&self) -> Map<Seq<u8>, Seq<u8>> {
        map_of_entries(self.view_entries())
    }

    pub open spec fn wf(&self) -> bool {
        entries_sorted(self.view_entries()) && entries_bounded(self.view_entries())
    }

    pub fn new() -> (r: ChangeSet)
        ensures
            r.wf(),
            r.as_map() == Map::<Seq<u8>, Seq<u8>>::empty(),
            r.entries@.len() == 0,
    {
        ChangeSet { entries: Vec::new() }
    }

    pub fn num_entries(&self) -> (r: usize)
        ensures
            r == self.view_entries().len(),
    {
        self.entries.len()
    }

    /// Look a key up in this change-set alone.
    pub fn get<'a>(&'a self, key: &[u8]) -> (r: Option<&'a Vec<u8>>)
        requires
            self.wf(),
        ensures
            match r {
                Some(v) => self.as_map().dom().contains(key@) && v@ == self.as_map()[key@],
                None => !self.as_map().dom().contains(key@),
            },
    {
        let n = self.entries.len();
        let mut i: usize = 0;
        while i < n
            invariant
                self.wf(),
                n == self.entries@.len(),
                0 <= i <= n,
                forall|j: int| 0 <= j < i ==> self.view_entries()[j].0 != key@,
            decreases n - i,
        {
            let e = &self.entries[i];
            if bytes_eq(e.0.as_slice(), key) {
                proof {
                    lemma_sorted_entry_value(self.view_entries(), i as int);
                }
                return Some(&e.1);
            }
            i = i + 1;
        }
        proof {
            lemma_map_of_entries_domain(self.view_entries(), key@);
        }
        None
    }

    /// Insert or overwrite one entry, keeping the sorted order.
    pub fn insert(&mut self, key: Vec<u8>, value: Vec<u8>)
        requires
            old(self).wf(),
            key@.len() <= u32::MAX,
            value@.len() <= u32::MAX,
        ensures
            final(self).wf(),
            final(self).as_map() == old(self).as_map().insert(key@, value@),
            final(self).view_entries().len() <= old(self).view_entries().len() + 1,
            old(self).as_map().dom().contains(key@) ==> final(self).view_entries().len() == old(
                self,
            ).view_entries().len(),
    {
        let ghost olds = self.view_entries();
        let n = self.entries.len();
        let mut pos: usize = 0;
        while pos < n && bytes_lt(self.entries[pos].0.as_slice(), key.as_slice())
            invariant
                self.wf(),
                self.view_entries() == olds,
                key@.len() <= u32::MAX,
                value@.len() <= u32::MAX,
                n == self.entries@.len(),
                0 <= pos <= n,
                forall|j: int| 0 <= j < pos ==> lex_lt(#[trigger] olds[j].0, key@),
            decreases n - pos,
        {
            pos = pos + 1;
        }
        if pos < n && bytes_eq(self.entries[pos].0.as_slice(), key.as_slice()) {
            // Overwrite in place: the key is already present at `pos`.
            proof {
                lemma_sorted_entry_value(olds, pos as int);
                let a = olds.subrange(0, pos as int);
                let b = olds.subrange(pos as int + 1, olds.len() as int);
                assert forall|j: int| 0 <= j < b.len() implies b[j].0 != key@ by {
                    assert(lex_lt(olds[pos as int].0, olds[pos as int + 1 + j].0));
                    lemma_lex_lt_trichotomy(key@, b[j].0);
                }
                assert(olds =~= a + seq![olds[pos as int]] + b);
                lemma_map_of_entries_split(a, olds[pos as int], b);
                lemma_map_of_entries_split(a, (key@, value@), b);
                let news = olds.update(pos as int, (key@, value@));
                assert(news =~= a + seq![(key@, value@)] + b);
                assert(map_of_entries(news) =~= map_of_entries(olds).insert(key@, value@));
            }
            let ghost oldentries = self.entries@;
            self.entries[pos] = (key, value);
            proof {
                let news = self.view_entries();
                assert(self.entries@.len() == oldentries.len());
                assert(self.entries@[pos as int].0@ == key@);
                assert(self.entries@[pos as int].1@ == value@);
                assert(forall|i: int|
                    0 <= i < oldentries.len() && i != pos ==> self.entries@[i]
                        == oldentries[i]);
                assert(forall|i: int|
                    0 <= i < news.len() ==> news[i] == olds.update(pos as int, (key@, value@))[i]);
                assert(news =~= olds.update(pos as int, (key@, value@)));
                assert(forall|i: int| 0 <= i < news.len() ==> news[i].0 == olds[i].0);
                assert(entries_sorted(news));
                assert(entries_bounded(news));
            }
        } else {
            // The key is new; it belongs exactly at `pos`.
            proof {
                if pos < olds.len() {
                    lemma_lex_lt_trichotomy(olds[pos as int].0, key@);
                }
                let a = olds.subrange(0, pos as int);
                let b = olds.subrange(pos as int, olds.len() as int);
                assert forall|j: int| 0 <= j < b.len() implies b[j].0 != key@ && lex_lt(
                    key@,
                    b[j].0,
                ) by {
                    if pos as int + j > pos {
                        assert(lex_lt(olds[pos as int].0, olds[pos as int + j].0));
                        lemma_lex_lt_transitive(key@, olds[pos as int].0, olds[pos as int + j].0);
                    }
                    lemma_lex_lt_trichotomy(key@, b[j].0);
                }
                assert(olds =~= a + b);
                lemma_map_of_entries_split(a, (key@, value@), b);
            }
            proof {
                assert forall|j: int| 0 <= j < olds.len() implies olds[j].0 != key@ by {
                    lemma_lex_lt_trichotomy(olds[j].0, key@);
                }
                lemma_map_of_entries_domain(olds, key@);
            }
            self.entries.insert(pos, (key, value));
            proof {
                let news = self.view_entries();
                let a = olds.subrange(0, pos as int);
                let b = olds.subrange(pos as int, olds.len() as int);
                assert(news =~= a + seq![(key@, value@)] + b);
                assert forall|i: int, j: int| 0 <= i < j < news.len() implies lex_lt(
                    news[i].0,
                    news[j].0,
                ) by {
                    if i < pos && j == pos {
                    } else if i == pos && j > pos {
                    } else if i < pos && j > pos {
                        lemma_lex_lt_transitive(news[i].0, key@, news[j].0);
                    }
                }
                assert(entries_sorted(news));
                assert(entries_bounded(news));
                assert(map_of_entries(news) =~= map_of_entries(olds).insert(key@, value@));
            }
        }
    }
}

} // verus!
