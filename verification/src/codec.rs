//! The on-disk log format.
//!
//! A log is a sequence of records, one per chain node, oldest first.  All
//! integers are little-endian:
//!
//! ```text
//! record   := u64 seconds  u32 nanoseconds  u32 kv_count  kv_entry{kv_count}
//! kv_entry := u32 k_len  u8[k_len] key  u32 v_len  u8[v_len] value
//! ```
//!
//! A nanosecond field of a whole second or more, or a record cut short by the
//! end of the input, ends parsing; recovery treats the bytes from there on as
//! a torn tail.

use vstd::prelude::*;

use vstd::bytes::{
    lemma_auto_spec_u32_to_from_le_bytes, lemma_auto_spec_u64_to_from_le_bytes,
    spec_u32_from_le_bytes, spec_u32_to_le_bytes, spec_u64_from_le_bytes, spec_u64_to_le_bytes,
    u32_from_le_bytes, u32_to_le_bytes, u64_from_le_bytes, u64_to_le_bytes,
};

use crate::changes::{entries_bounded, ChangeSet, Timestamp};

verus! {

/// The parsed form of one log record.
pub struct RecordView {
    pub time: Timestamp,
    pub entries: Seq<(Seq<u8>, Seq<u8>)>,
}

/// The encoding of one key-value entry.
pub open spec fn entry_bytes(e: (Seq<u8>, Seq<u8>)) -> Seq<u8> {
    spec_u32_to_le_bytes(e.0.len() as u32) + e.0 + spec_u32_to_le_bytes(e.1.len() as u32) + e.1
}

/// The concatenated encoding of a sequence of entries.
pub open spec fn entries_bytes(es: Seq<(Seq<u8>, Seq<u8>)>) -> Seq<u8>
    decreases es.len(),
{
    if es.len() == 0 {
        Seq::empty()
    } else {
        entry_bytes(es[0]) + entries_bytes(es.skip(1))
    }
}

/// The encoding of one record.
pub open spec fn record_bytes(t: Timestamp, es: Seq<(Seq<u8>, Seq<u8>)>) -> Seq<u8> {
    spec_u64_to_le_bytes(t.secs) + spec_u32_to_le_bytes(t.nanos) + spec_u32_to_le_bytes(
        es.len() as u32,
    ) + entries_bytes(es)
}

pub open spec fn parse_u32_at(b: Seq<u8>, off: int) -> u32 {
    spec_u32_from_le_bytes(b.subrange(off, off + 4))
}

pub open spec fn parse_u64_at(b: Seq<u8>, off: int) -> u64 {
    spec_u64_from_le_bytes(b.subrange(off, off + 8))
}

/// Parse exactly `n` entries starting at `off`; `None` when the input ends
/// inside them.  On success the second component is the offset just past the
/// last entry.
pub open spec fn parse_entries(b: Seq<u8>, off: int, n: nat) -> Option<
    (Seq<(Seq<u8>, Seq<u8>)>, int),
>
    decreases n,
{
    if n == 0 {
        Some((Seq::empty(), off))
    } else if off + 4 > b.len() {
        None
    } else {
        let klen = parse_u32_at(b, off) as int;
        if off + 4 + klen + 4 > b.len() {
            None
        } else {
            let k = b.subrange(off + 4, off + 4 + klen);
            let vlen = parse_u32_at(b, off + 4 + klen) as int;
            if off + 8 + klen + vlen > b.len() {
                None
            } else {
                let v = b.subrange(off + 8 + klen, off + 8 + klen + vlen);
                match parse_entries(b, off + 8 + klen + vlen, (n - 1) as nat) {
                    None => None,
                    Some((rest, end)) => Some((seq![(k, v)] + rest, end)),
                }
            }
        }
    }
}

/// Parse one record starting at `off`; `None` on a torn or invalid tail.
pub open spec fn parse_record(b: Seq<u8>, off: int) -> Option<(RecordView, int)> {
    if off < 0 || off + 16 > b.len() {
        None
    } else {
        let secs = parse_u64_at(b, off);
        let nanos = parse_u32_at(b, off + 8);
        if nanos >= 1_000_000_000 {
            None
        } else {
            let n = parse_u32_at(b, off + 12);
            match parse_entries(b, off + 16, n as nat) {
                None => None,
                Some((es, end)) => Some(
                    (RecordView { time: Timestamp { secs, nanos }, entries: es }, end),
                ),
            }
        }
    }
}

/// Parse records greedily from `off`; the second component is the offset of
/// the first byte that does not begin a complete record.
pub open spec fn parse_log(b: Seq<u8>, off: int) -> (Seq<RecordView>, int)
    decreases b.len() - off,
{
    match parse_record(b, off) {
        None => (Seq::empty(), off),
        Some((r, end)) => if off < end <= b.len() {
            let (rest, fin) = parse_log(b, end);
            (seq![r] + rest, fin)
        } else {
            (Seq::empty(), off)
        },
    }
}


/// Accessors for parse results, for use in contracts.
pub open spec fn entries_of(r: Option<(Seq<(Seq<u8>, Seq<u8>)>, int)>) -> Seq<(Seq<u8>, Seq<u8>)> {
    match r {
        Some((es, end)) => es,
        None => Seq::empty(),
    }
}

pub open spec fn entries_end_of(r: Option<(Seq<(Seq<u8>, Seq<u8>)>, int)>) -> int {
    match r {
        Some((es, end)) => end,
        None => 0,
    }
}

pub open spec fn record_of(r: Option<(RecordView, int)>) -> RecordView {
    match r {
        Some((rv, end)) => rv,
        None => RecordView { time: Timestamp { secs: 0, nanos: 0 }, entries: Seq::empty() },
    }
}

pub open spec fn record_end_of(r: Option<(RecordView, int)>) -> int {
    match r {
        Some((rv, end)) => end,
        None => 0,
    }
}

/// A successful entry parse stays inside the input and moves forward.
pub proof fn lemma_parse_entries_bounds(b: Seq<u8>, off: int, n: nat)
    requires
        parse_entries(b, off, n) is Some,
    ensures
        entries_of(parse_entries(b, off, n)).len() == n,
        off <= entries_end_of(parse_entries(b, off, n)),
        n > 0 ==> entries_end_of(parse_entries(b, off, n)) <= b.len(),
    decreases n,
{
    if n > 0 {
        let klen = parse_u32_at(b, off) as int;
        let vlen = parse_u32_at(b, off + 4 + klen) as int;
        lemma_parse_entries_bounds(b, off + 8 + klen + vlen, (n - 1) as nat);
    }
}

/// A successful record parse stays inside the input and consumes at least its
/// 16-byte header.
pub proof fn lemma_parse_record_bounds(b: Seq<u8>, off: int)
    requires
        parse_record(b, off) is Some,
    ensures
        off + 16 <= record_end_of(parse_record(b, off)) <= b.len(),
        record_of(parse_record(b, off)).time.wf(),
{
    let n = parse_u32_at(b, off + 12);
    lemma_parse_entries_bounds(b, off + 16, n as nat);
}

/// The offset where log parsing stops lies between `off` and the end.
pub proof fn lemma_parse_log_bounds(b: Seq<u8>, off: int)
    requires
        0 <= off <= b.len(),
    ensures
        off <= parse_log(b, off).1 <= b.len(),
    decreases b.len() - off,
{
    match parse_record(b, off) {
        None => {},
        Some((r, end)) => {
            lemma_parse_record_bounds(b, off);
            if off < end <= b.len() {
                lemma_parse_log_bounds(b, end);
            }
        },
    }
}

/// Entry parsing looks only at the bytes between `off` and where it stops, so
/// any input that agrees there parses the same way.
pub proof fn lemma_parse_entries_agree(b1: Seq<u8>, b2: Seq<u8>, off: int, n: nat)
    requires
        parse_entries(b1, off, n) is Some,
        0 <= off,
        entries_end_of(parse_entries(b1, off, n)) <= b2.len(),
        b2.subrange(off, entries_end_of(parse_entries(b1, off, n))) == b1.subrange(
            off,
            entries_end_of(parse_entries(b1, off, n)),
        ),
    ensures
        parse_entries(b2, off, n) == parse_entries(b1, off, n),
    decreases n,
{
    lemma_parse_entries_bounds(b1, off, n);
    if n > 0 {
        let end = entries_end_of(parse_entries(b1, off, n));
        assert forall|i: int| off <= i < end implies b2[i] == b1[i] by {
            assert(b2.subrange(off, end)[i - off] == b1.subrange(off, end)[i - off]);
        }
        let klen = parse_u32_at(b1, off) as int;
        let vlen = parse_u32_at(b1, off + 4 + klen) as int;
        lemma_parse_entries_bounds(b1, off + 8 + klen + vlen, (n - 1) as nat);
        assert(off + 8 + klen + vlen <= end);
        assert(b2.subrange(off, off + 4) =~= b1.subrange(off, off + 4));
        assert(b2.subrange(off + 4, off + 4 + klen) =~= b1.subrange(off + 4, off + 4 + klen));
        assert(b2.subrange(off + 4 + klen, off + 8 + klen) =~= b1.subrange(
            off + 4 + klen,
            off + 8 + klen,
        ));
        assert(b2.subrange(off + 8 + klen, off + 8 + klen + vlen) =~= b1.subrange(
            off + 8 + klen,
            off + 8 + klen + vlen,
        ));
        assert(b2.subrange(off + 8 + klen + vlen, end) =~= b1.subrange(
            off + 8 + klen + vlen,
            end,
        ));
        lemma_parse_entries_agree(b1, b2, off + 8 + klen + vlen, (n - 1) as nat);
    }
}

/// Record parsing looks only at the bytes between `off` and where it stops.
pub proof fn lemma_parse_record_agree(b1: Seq<u8>, b2: Seq<u8>, off: int)
    requires
        parse_record(b1, off) is Some,
        record_end_of(parse_record(b1, off)) <= b2.len(),
        b2.subrange(off, record_end_of(parse_record(b1, off))) == b1.subrange(
            off,
            record_end_of(parse_record(b1, off)),
        ),
    ensures
        parse_record(b2, off) == parse_record(b1, off),
{
    lemma_parse_record_bounds(b1, off);
    let end = record_end_of(parse_record(b1, off));
    assert forall|i: int| off <= i < end implies b2[i] == b1[i] by {
        assert(b2.subrange(off, end)[i - off] == b1.subrange(off, end)[i - off]);
    }
    assert(b2.subrange(off, off + 8) =~= b1.subrange(off, off + 8));
    assert(b2.subrange(off + 8, off + 12) =~= b1.subrange(off + 8, off + 12));
    assert(b2.subrange(off + 12, off + 16) =~= b1.subrange(off + 12, off + 16));
    let n = parse_u32_at(b1, off + 12);
    lemma_parse_entries_bounds(b1, off + 16, n as nat);
    if n as nat > 0 {
        assert(b2.subrange(off + 16, end) =~= b1.subrange(off + 16, end));
    }
    lemma_parse_entries_agree(b1, b2, off + 16, n as nat);
}

/// Appending one entry appends its encoding.
pub proof fn lemma_entries_bytes_snoc(es: Seq<(Seq<u8>, Seq<u8>)>, e: (Seq<u8>, Seq<u8>))
    ensures
        entries_bytes(es.push(e)) == entries_bytes(es) + entry_bytes(e),
    decreases es.len(),
{
    if es.len() == 0 {
        assert(es.push(e)[0] == e);
        assert(es.push(e).skip(1) =~= Seq::<(Seq<u8>, Seq<u8>)>::empty());
        assert(entries_bytes(es.push(e).skip(1)) == Seq::<u8>::empty());
        assert(entries_bytes(es.push(e)) == entry_bytes(e) + Seq::<u8>::empty());
        assert(entries_bytes(es.push(e)) =~= entries_bytes(es) + entry_bytes(e));
    } else {
        assert(es.push(e).skip(1) =~= es.skip(1).push(e));
        lemma_entries_bytes_snoc(es.skip(1), e);
        assert(es.push(e)[0] == es[0]);
        assert(entry_bytes(es[0]) + (entries_bytes(es.skip(1)) + entry_bytes(e)) =~= (entry_bytes(
            es[0],
        ) + entries_bytes(es.skip(1))) + entry_bytes(e));
    }
}

/// Parsing the encoding of `n` bounded entries yields them back.
pub proof fn lemma_parse_entries_of_encoding(b: Seq<u8>, off: int, es: Seq<(Seq<u8>, Seq<u8>)>)
    requires
        entries_bounded(es),
        0 <= off,
        off + entries_bytes(es).len() <= b.len(),
        b.subrange(off, off + entries_bytes(es).len()) == entries_bytes(es),
    ensures
        parse_entries(b, off, es.len()) == Some((es, off + entries_bytes(es).len())),
    decreases es.len(),
{
    lemma_auto_spec_u32_to_from_le_bytes();
    if es.len() > 0 {
        let e = es[0];
        let eb = entry_bytes(e);
        let rest = es.skip(1);
        let rb = entries_bytes(rest);
        let total = entries_bytes(es);
        assert(total == eb + rb);
        let klen = e.0.len() as int;
        let vlen = e.1.len() as int;
        assert(e.0.len() as u32 as int == klen);
        assert(e.1.len() as u32 as int == vlen);
        assert(eb.len() == 8 + klen + vlen);
        assert forall|i: int| off <= i < off + total.len() implies b[i] == total[i - off] by {
            assert(b.subrange(off, off + total.len() as int)[i - off] == b[i]);
        }
        assert(b.subrange(off, off + 4) =~= spec_u32_to_le_bytes(e.0.len() as u32));
        assert(parse_u32_at(b, off) == e.0.len() as u32);
        assert(b.subrange(off + 4, off + 4 + klen) =~= e.0);
        assert(b.subrange(off + 4 + klen, off + 8 + klen) =~= spec_u32_to_le_bytes(
            e.1.len() as u32,
        ));
        assert(parse_u32_at(b, off + 4 + klen) == e.1.len() as u32);
        assert(b.subrange(off + 8 + klen, off + 8 + klen + vlen) =~= e.1);
        let off2 = off + 8 + klen + vlen;
        assert(b.subrange(off2, off2 + rb.len()) =~= rb);
        lemma_parse_entries_of_encoding(b, off2, rest);
        assert(seq![(e.0, e.1)] + rest =~= es);
        assert((e.0, e.1) == e);
    }
}

/// Parsing the encoding of a well-formed record yields it back.
pub proof fn lemma_parse_record_of_encoding(
    b: Seq<u8>,
    off: int,
    t: Timestamp,
    es: Seq<(Seq<u8>, Seq<u8>)>,
)
    requires
        t.wf(),
        entries_bounded(es),
        es.len() <= u32::MAX,
        0 <= off,
        off + record_bytes(t, es).len() <= b.len(),
        b.subrange(off, off + record_bytes(t, es).len()) == record_bytes(t, es),
    ensures
        parse_record(b, off) == Some(
            (RecordView { time: t, entries: es }, off + record_bytes(t, es).len()),
        ),
{
    lemma_auto_spec_u32_to_from_le_bytes();
    lemma_auto_spec_u64_to_from_le_bytes();
    let rb = record_bytes(t, es);
    let ebs = entries_bytes(es);
    assert(rb.len() == 16 + ebs.len());
    assert forall|i: int| off <= i < off + rb.len() implies b[i] == rb[i - off] by {
        assert(b.subrange(off, off + rb.len() as int)[i - off] == b[i]);
    }
    assert(b.subrange(off, off + 8) =~= spec_u64_to_le_bytes(t.secs));
    assert(parse_u64_at(b, off) == t.secs);
    assert(b.subrange(off + 8, off + 12) =~= spec_u32_to_le_bytes(t.nanos));
    assert(parse_u32_at(b, off + 8) == t.nanos);
    assert(b.subrange(off + 12, off + 16) =~= spec_u32_to_le_bytes(es.len() as u32));
    assert(parse_u32_at(b, off + 12) == es.len() as u32);
    assert(es.len() as u32 as nat == es.len());
    assert(b.subrange(off + 16, off + 16 + ebs.len()) =~= ebs);
    lemma_parse_entries_of_encoding(b, off + 16, es);
    assert(Timestamp { secs: t.secs, nanos: t.nanos } == t);
}

/// A log that parses to its very end, extended with one well-formed record,
/// parses to its new end with that record appended.
pub proof fn lemma_parse_log_append(b: Seq<u8>, off: int, t: Timestamp, es: Seq<(Seq<u8>, Seq<u8>)>)
    requires
        0 <= off <= b.len(),
        parse_log(b, off).1 == b.len(),
        t.wf(),
        entries_bounded(es),
        es.len() <= u32::MAX,
    ensures
        parse_log(b + record_bytes(t, es), off) == (
            parse_log(b, off).0 + seq![RecordView { time: t, entries: es }],
            b.len() + record_bytes(t, es).len() as int,
        ),
    decreases b.len() - off,
{
    let rb = record_bytes(t, es);
    let b2 = b + rb;
    match parse_record(b, off) {
        Some((r0, end)) => {
            lemma_parse_record_bounds(b, off);
            lemma_parse_log_bounds(b, end);
            assert(b2.subrange(off, end) =~= b.subrange(off, end));
            lemma_parse_record_agree(b, b2, off);
            lemma_parse_log_append(b, end, t, es);
            assert(seq![r0] + (parse_log(b, end).0 + seq![RecordView { time: t, entries: es }])
                =~= (seq![r0] + parse_log(b, end).0) + seq![
                RecordView { time: t, entries: es },
            ]);
        },
        None => {
            // The old log was fully parsed, so parsing stopped exactly at its
            // end and the appended record is next.
            assert(parse_log(b, off).1 == off);
            assert(off == b.len());
            assert(b2.subrange(off, off + rb.len()) =~= rb);
            lemma_parse_record_of_encoding(b2, off, t, es);
            let end2 = off + rb.len();
            assert(end2 == b2.len());
            lemma_auto_spec_u64_to_from_le_bytes();
            assert(rb.len() >= 16);
            assert(parse_record(b2, end2) is None);
            assert(parse_log(b2, end2) == (Seq::<RecordView>::empty(), end2));
            assert(seq![RecordView { time: t, entries: es }] + Seq::<RecordView>::empty()
                =~= parse_log(b, off).0 + seq![RecordView { time: t, entries: es }]);
        },
    }
}

/// Truncating a log at the offset where parsing stopped does not change what
/// parses.
pub proof fn lemma_parse_log_take(b: Seq<u8>, off: int)
    requires
        0 <= off <= b.len(),
    ensures
        parse_log(b.take(parse_log(b, off).1), off) == parse_log(b, off),
    decreases b.len() - off,
{
    let (recs, fin) = parse_log(b, off);
    lemma_parse_log_bounds(b, off);
    lemma_parse_log_take_to(b, off, fin);
}

/// Helper generalized over the point of truncation: truncating anywhere at or
/// past where parsing stopped preserves the parse, as long as parsing from the
/// stop point also fails in the truncated log.
proof fn lemma_parse_log_take_to(b: Seq<u8>, off: int, m: int)
    requires
        0 <= off <= b.len(),
        parse_log(b, off).1 <= m <= b.len(),
    ensures
        parse_log(b.take(m), off) == parse_log(b, off),
    decreases b.len() - off,
{
    let bt = b.take(m);
    match parse_record(b, off) {
        Some((r0, end)) => {
            lemma_parse_record_bounds(b, off);
            lemma_parse_log_bounds(b, end);
            if off < end <= b.len() {
                // The stop offset of the whole parse is the stop offset of the
                // tail parse, so `end <= m`.
                assert(parse_log(b, off).1 == parse_log(b, end).1);
                assert(end <= parse_log(b, end).1);
                assert(bt.subrange(off, end) =~= b.subrange(off, end));
                lemma_parse_record_agree(b, bt, off);
                lemma_parse_log_take_to(b, end, m);
            }
        },
        None => {
            assert(parse_log(b, off).1 == off);
            // No record begins at `off` in `b`; in the shorter `bt` the same
            // parse can only fail sooner.
            lemma_parse_record_take_none(b, off, m);
            assert(parse_log(bt, off) == (Seq::<RecordView>::empty(), off));
        },
    }
}

/// Append the encoding of one record to `out`.
pub fn encode_record(out: &mut Vec<u8>, time: &Timestamp, changes: &ChangeSet)
    requires
        time.wf(),
        changes.wf(),
        changes.view_entries().len() <= u32::MAX,
    ensures
        final(out)@ == old(out)@ + record_bytes(*time, changes.view_entries()),
{
    let ghost base = out@;
    let ghost es = changes.view_entries();
    let mut secs_bytes = u64_to_le_bytes(time.secs);
    out.append(&mut secs_bytes);
    let mut nanos_bytes = u32_to_le_bytes(time.nanos);
    out.append(&mut nanos_bytes);
    let n = changes.num_entries();
    let mut count_bytes = u32_to_le_bytes(n as u32);
    out.append(&mut count_bytes);
    let ghost header = spec_u64_to_le_bytes(time.secs) + spec_u32_to_le_bytes(time.nanos)
        + spec_u32_to_le_bytes(es.len() as u32);
    proof {
        assert(out@ =~= base + header);
        assert(es.take(0) =~= Seq::<(Seq<u8>, Seq<u8>)>::empty());
        assert(base + header + entries_bytes(es.take(0)) =~= base + header);
    }
    let mut i: usize = 0;
    while i < n
        invariant
            n == changes.entries@.len(),
            es == changes.view_entries(),
            changes.wf(),
            0 <= i <= n,
            out@ == base + header + entries_bytes(es.take(i as int)),
        decreases n - i,
    {
        let e = &changes.entries[i];
        let mut klen_bytes = u32_to_le_bytes(e.0.len() as u32);
        out.append(&mut klen_bytes);
        out.extend_from_slice(e.0.as_slice());
        let mut vlen_bytes = u32_to_le_bytes(e.1.len() as u32);
        out.append(&mut vlen_bytes);
        out.extend_from_slice(e.1.as_slice());
        proof {
            lemma_entries_bytes_snoc(es.take(i as int), es[i as int]);
            assert(es.take(i as int).push(es[i as int]) =~= es.take(i as int + 1));
            assert(out@ =~= base + header + (entries_bytes(es.take(i as int)) + entry_bytes(
                es[i as int],
            )));
        }
        i = i + 1;
    }
    proof {
        assert(es.take(n as int) =~= es);
        assert(base + header + entries_bytes(es) =~= base + record_bytes(*time, es));
    }
}

/// Decode the record that begins at `pos`, or report that none does.
///
/// On success the change-set holds the record's entries with a later
/// duplicate key winning, and the returned offset is just past the record.
pub fn decode_record(b: &[u8], pos: usize) -> (r: Option<(Timestamp, ChangeSet, usize)>)
    requires
        pos <= b@.len(),
    ensures
        match r {
            None => parse_record(b@, pos as int) is None,
            Some((t, cs, end)) => {
                &&& parse_record(b@, pos as int) is Some
                &&& t == record_of(parse_record(b@, pos as int)).time
                &&& end as int == record_end_of(parse_record(b@, pos as int))
                &&& t.wf()
                &&& cs.wf()
                &&& cs.as_map() == crate::changes::map_of_entries(
                    record_of(parse_record(b@, pos as int)).entries,
                )
                &&& cs.view_entries().len() <= u32::MAX
                &&& pos < end <= b@.len()
            },
        },
{
    proof {
        lemma_auto_spec_u32_to_from_le_bytes();
        lemma_auto_spec_u64_to_from_le_bytes();
    }
    if b.len() - pos < 16 {
        return None;
    }
    let secs = u64_from_le_bytes(slice_range(b, pos, pos + 8));
    let nanos = u32_from_le_bytes(slice_range(b, pos + 8, pos + 12));
    if nanos >= 1_000_000_000 {
        return None;
    }
    let count = u32_from_le_bytes(slice_range(b, pos + 12, pos + 16));
    let time = Timestamp { secs, nanos };
    let mut cs = ChangeSet::new();
    let mut cur: usize = pos + 16;
    let ghost start = pos as int + 16;
    let ghost mut acc: Seq<(Seq<u8>, Seq<u8>)> = Seq::empty();
    let mut i: u32 = 0;
    while i < count
        invariant
            start == pos + 16 <= b@.len(),
            0 <= i <= count,
            start <= cur as int <= b@.len(),
            cs.wf(),
            cs.view_entries().len() <= i,
            cs.as_map() == crate::changes::map_of_entries(acc),
            acc.len() == i,
            crate::changes::entries_bounded(acc),
            parse_entries(b@, start, count as nat) == (match parse_entries(
                b@,
                cur as int,
                (count - i) as nat,
            ) {
                None => None::<(Seq<(Seq<u8>, Seq<u8>)>, int)>,
                Some((rest, end)) => Some((acc + rest, end)),
            }),
            parse_record(b@, pos as int) == (match parse_entries(b@, start, count as nat) {
                None => None::<(RecordView, int)>,
                Some((es, end)) => Some((RecordView { time, entries: es }, end)),
            }),
        decreases count - i,
    {
        if b.len() - cur < 4 {
            return None;
        }
        let klen = u32_from_le_bytes(slice_range(b, cur, cur + 4));
        if b.len() - (cur + 4) < 4 || (b.len() - (cur + 4) - 4) < klen as usize {
            proof {
                assert(parse_entries(b@, cur as int, (count - i) as nat) is None);
            }
            return None;
        }
        let key = vstd::slice::slice_to_vec(slice_range(b, cur + 4, cur + 4 + klen as usize));
        let vlen = u32_from_le_bytes(
            slice_range(b, cur + 4 + klen as usize, cur + 8 + klen as usize),
        );
        if b.len() - (cur + 8 + klen as usize) < vlen as usize {
            proof {
                assert(parse_entries(b@, cur as int, (count - i) as nat) is None);
            }
            return None;
        }
        let value = vstd::slice::slice_to_vec(
            slice_range(b, cur + 8 + klen as usize, cur + 8 + klen as usize + vlen as usize),
        );
        let next = cur + 8 + klen as usize + vlen as usize;
        proof {
            assert(acc.push((key@, value@)).drop_last() =~= acc);
            assert(crate::changes::entries_bounded(acc.push((key@, value@))));
        }
        cs.insert(key, value);
        proof {
            let ghost e: (Seq<u8>, Seq<u8>) = (b@.subrange(cur as int + 4, cur as int + 4 + klen as int),
                b@.subrange(cur as int + 8 + klen as int, cur as int + 8 + klen as int + vlen as int));
            assert(acc.push(e).drop_last() =~= acc);
            assert(acc.push(e).last() == e);
            match parse_entries(b@, next as int, (count - i - 1) as nat) {
                None => {},
                Some((rest, end)) => {
                    assert(acc + (seq![e] + rest) =~= acc.push(e) + rest);
                },
            }
            acc = acc.push(e);
        }
        cur = next;
        i = i + 1;
    }
    proof {
        assert(parse_entries(b@, cur as int, 0) == Some((Seq::<(Seq<u8>, Seq<u8>)>::empty(),
            cur as int)));
        assert(acc + Seq::<(Seq<u8>, Seq<u8>)>::empty() =~= acc);
        assert(parse_entries(b@, start, count as nat) == Some((acc, cur as int)));
    }
    Some((time, cs, cur))
}

/// The bytes of `s` from `from` (inclusive) to `to` (exclusive).
pub fn slice_range(s: &[u8], from: usize, to: usize) -> (r: &[u8])
    requires
        from <= to <= s@.len(),
    ensures
        r@ == s@.subrange(from as int, to as int),
{
    &s[from..to]
}

/// If no record parses at `off` in `b`, none parses there in a prefix of `b`.
proof fn lemma_parse_record_take_none(b: Seq<u8>, off: int, m: int)
    requires
        parse_record(b, off) is None,
        0 <= m <= b.len(),
    ensures
        parse_record(b.take(m), off) is None,
{
    let bt = b.take(m);
    if parse_record(bt, off) is Some {
        lemma_parse_record_bounds(bt, off);
        let end = record_end_of(parse_record(bt, off));
        assert(b.subrange(off, end) =~= bt.subrange(off, end));
        lemma_parse_record_agree(bt, b, off);
    }
}

} // verus!
