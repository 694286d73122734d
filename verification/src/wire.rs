//! The wire protocol: opcodes, frame shapes, and the transport they travel
//! over.
//!
//! Requests and responses share a leading opcode byte; lengths are u32
//! little-endian and byte strings are length-prefixed.  A transport is any
//! byte pipe; its contract tracks the bytes sent and the bytes taken so the
//! client's and server's framing can be verified against it.

use vstd::prelude::*;

use vstd::bytes::spec_u32_to_le_bytes;

use crate::error::{IoError, IoErrorKind};

verus! {

pub const OP_LEN: u8 = 1;

pub const OP_READ: u8 = 2;

pub const OP_WRITE: u8 = 3;

pub const OP_START_TRANSACTION: u8 = 4;

pub const OP_COMMIT: u8 = 5;

pub const OP_ROLLBACK: u8 = 6;

pub const OP_COUNT: u8 = 7;

pub const OP_LIST: u8 = 8;

pub const OP_SCAN: u8 = 9;

pub const OP_LIMIT_EXCEEDED: u8 = 254;

pub const OP_CONFLICT: u8 = 255;

/// A length-prefixed byte string as it appears inside a frame.
pub open spec fn lengthed(chunk: Seq<u8>) -> Seq<u8> {
    spec_u32_to_le_bytes(chunk.len() as u32) + chunk
}

/// A run of length-prefixed byte strings.
pub open spec fn lengthed_all(chunks: Seq<Seq<u8>>) -> Seq<u8>
    decreases chunks.len(),
{
    if chunks.len() == 0 {
        Seq::empty()
    } else {
        lengthed(chunks[0]) + lengthed_all(chunks.skip(1))
    }
}

/// A run of length-prefixed key-value pairs.
pub open spec fn lengthed_pairs(rows: Seq<(Seq<u8>, Seq<u8>)>) -> Seq<u8>
    decreases rows.len(),
{
    if rows.len() == 0 {
        Seq::empty()
    } else {
        lengthed(rows[0].0) + lengthed(rows[0].1) + lengthed_pairs(rows.skip(1))
    }
}

/// A byte pipe.  `sent` is everything this side has handed to the pipe;
/// `taken` is everything it has consumed from the peer.  The contracts bind
/// only the successful outcomes; an error leaves the pipe in an unspecified
/// state, as a real socket would.
pub trait Transport {
    open spec fn sent(&self) -> Seq<u8> {
        Seq::empty()
    }

    open spec fn taken(&self) -> Seq<u8> {
        Seq::empty()
    }

    /// How many bytes the peer will still provide; reading consumes it, so
    /// request loops terminate when the peer's input does.
    open spec fn remaining(&self) -> nat {
        0
    }

    /// Hand all of `bytes` to the pipe.
    fn send(&mut self, bytes: &[u8]) -> (r: Result<(), IoError>)
        ensures
            r is Ok ==> final(self).sent() == old(self).sent() + bytes@ && final(self).taken()
                == old(self).taken() && final(self).remaining() == old(self).remaining(),
            r matches Err(e) ==> e.kind != crate::error::IoErrorKind::LimitExceeded,
    ;

    /// Push buffered bytes toward the peer.
    fn flush(&mut self) -> (r: Result<(), IoError>)
        ensures
            r is Ok ==> final(self).sent() == old(self).sent() && final(self).taken()
                == old(self).taken() && final(self).remaining() == old(self).remaining(),
            r matches Err(e) ==> e.kind != crate::error::IoErrorKind::LimitExceeded,
    ;

    /// Take exactly `n` bytes from the peer.  A failing transport reports a
    /// transport failure; the cap kind belongs to the protocol layer above.
    fn recv(&mut self, n: usize) -> (r: Result<Vec<u8>, IoError>)
        ensures
            r matches Ok(v) ==> v@.len() == n && final(self).sent() == old(self).sent()
                && final(self).taken() == old(self).taken() + v@ && final(self).remaining() + n
                == old(self).remaining(),
            r matches Err(e) ==> e.kind != crate::error::IoErrorKind::LimitExceeded,
    ;
}

/// An in-memory transport: bytes sent pile up in `outgoing`, and reads
/// consume the prepared `incoming` bytes.  Tests drive the client and the
/// server with it.
pub struct MemTransport {
    pub outgoing: Vec<u8>,
    pub incoming: Vec<u8>,
    pub read_pos: usize,
}

impl MemTransport {
    /// A transport that will answer with exactly `incoming`.
    pub fn new(incoming: Vec<u8>) -> (r: MemTransport)
        ensures
            r.outgoing@.len() == 0,
            r.incoming == incoming,
            r.read_pos == 0,
    {
        MemTransport { outgoing: Vec::new(), incoming, read_pos: 0 }
    }
}

impl Transport for MemTransport {
    open spec fn sent(&self) -> Seq<u8> {
        self.outgoing@
    }

    open spec fn taken(&self) -> Seq<u8> {
        if self.read_pos <= self.incoming@.len() {
            self.incoming@.take(self.read_pos as int)
        } else {
            self.incoming@
        }
    }

    open spec fn remaining(&self) -> nat {
        if self.read_pos <= self.incoming@.len() {
            (self.incoming@.len() - self.read_pos) as nat
        } else {
            0
        }
    }

    fn send(&mut self, bytes: &[u8]) -> (r: Result<(), IoError>) {
        self.outgoing.extend_from_slice(bytes);
        Ok(())
    }

    fn flush(&mut self) -> (r: Result<(), IoError>) {
        Ok(())
    }

    fn recv(&mut self, n: usize) -> (r: Result<Vec<u8>, IoError>) {
        if self.read_pos > self.incoming.len() || self.incoming.len() - self.read_pos < n {
            return Err(IoError::new(IoErrorKind::UnexpectedEof));
        }
        let v = vstd::slice::slice_to_vec(
            crate::codec::slice_range(self.incoming.as_slice(), self.read_pos, self.read_pos + n),
        );
        let ghost oldpos = self.read_pos as int;
        self.read_pos = self.read_pos + n;
        proof {
            assert(self.incoming@.take(self.read_pos as int) =~= self.incoming@.take(oldpos)
                + v@);
        }
        Ok(v)
    }
}

/// The value of a run of ASCII digits, most significant first.
pub open spec fn ascii_num(s: Seq<u8>) -> int
    decreases s.len(),
{
    if s.len() == 0 {
        0
    } else {
        ascii_num(s.drop_last()) * 10 + (s.last() - 48)
    }
}

/// One or more ASCII digits and nothing else.
pub open spec fn is_ascii_digits(s: Seq<u8>) -> bool {
    s.len() > 0 && forall|i: int| 0 <= i < s.len() ==> 48 <= #[trigger] s[i] <= 57
}

/// What `str::parse` accepts for an unsigned integer: an optional leading
/// plus sign, then digits; the value they denote.
pub open spec fn ascii_parsed(s: Seq<u8>) -> Option<int> {
    let digits = if s.len() > 0 && s[0] == 43 {
        s.skip(1)
    } else {
        s
    };
    if is_ascii_digits(digits) {
        Some(ascii_num(digits))
    } else {
        None
    }
}

/// What `str::parse` accepts for a signed integer: an optional sign, then
/// digits; the signed value they denote.
pub open spec fn ascii_parsed_signed(s: Seq<u8>) -> Option<int> {
    if s.len() > 0 && s[0] == 45 {
        if is_ascii_digits(s.skip(1)) {
            Some(-ascii_num(s.skip(1)))
        } else {
            None
        }
    } else {
        ascii_parsed(s)
    }
}

/// The value of a digit string is never negative.
pub proof fn lemma_ascii_num_nonneg(s: Seq<u8>)
    requires
        forall|i: int| 0 <= i < s.len() ==> 48 <= #[trigger] s[i] <= 57,
    ensures
        ascii_num(s) >= 0,
    decreases s.len(),
{
    if s.len() > 0 {
        lemma_ascii_num_nonneg(s.drop_last());
    }
}

/// Extending a digit string never shrinks its value.
pub proof fn lemma_ascii_num_prefix(s: Seq<u8>, i: int)
    requires
        forall|j: int| 0 <= j < s.len() ==> 48 <= #[trigger] s[j] <= 57,
        0 <= i <= s.len(),
    ensures
        ascii_num(s.take(i)) <= ascii_num(s),
    decreases s.len() - i,
{
    if i < s.len() {
        lemma_ascii_num_prefix(s, i + 1);
        assert(s.take(i + 1).drop_last() =~= s.take(i));
        assert(s.take(i + 1).last() == s[i]);
        lemma_ascii_num_nonneg(s.take(i));
    } else {
        assert(s.take(i) =~= s);
    }
}

/// Parse an unsigned decimal as `str::parse` would, rejecting values beyond
/// u128.
pub fn parse_ascii_u128(bytes: &[u8]) -> (r: Option<u128>)
    ensures
        match r {
            Some(v) => ascii_parsed(bytes@) == Some(v as int),
            None => ascii_parsed(bytes@) matches Some(n) ==> n > u128::MAX,
        },
{
    let digits_start: usize = if bytes.len() > 0 && bytes[0] == 43 {
        1
    } else {
        0
    };
    let ghost digits = bytes@.skip(digits_start as int);
    proof {
        if digits_start == 0 {
            assert(bytes@.skip(0) =~= bytes@);
        }
    }
    if bytes.len() == digits_start {
        return None;
    }
    proof {
        assert(digits.take(0) =~= Seq::<u8>::empty());
    }
    let mut acc: u128 = 0;
    let mut i: usize = digits_start;
    while i < bytes.len()
        invariant
            digits == bytes@.skip(digits_start as int),
            digits == (if bytes@.len() > 0 && bytes@[0] == 43 {
                bytes@.skip(1)
            } else {
                bytes@
            }),
            digits.len() > 0,
            digits_start <= i <= bytes@.len(),
            digits_start <= bytes@.len(),
            digits_start == bytes@.len() - digits.len(),
            forall|j: int|
                0 <= j < i - digits_start ==> 48 <= #[trigger] digits[j] <= 57,
            acc as int == ascii_num(digits.take(i - digits_start)),
        decreases bytes@.len() - i,
    {
        let c = bytes[i];
        if c < 48 || c > 57 {
            proof {
                assert(digits[i - digits_start] == c);
                assert(!is_ascii_digits(digits));
            }
            return None;
        }
        let d = (c - 48) as u128;
        let shifted = match acc.checked_mul(10) {
            Some(x) => x,
            None => {
                proof {
                    overflow_means_too_big(digits, i - digits_start, acc as int, c as int);
                }
                return None;
            },
        };
        let next = match shifted.checked_add(d) {
            Some(x) => x,
            None => {
                proof {
                    overflow_means_too_big(digits, i - digits_start, acc as int, c as int);
                }
                return None;
            },
        };
        proof {
            assert(digits.take(i - digits_start + 1).drop_last() =~= digits.take(
                i - digits_start,
            ));
            assert(digits.take(i - digits_start + 1).last() == digits[i - digits_start]);
        }
        acc = next;
        i = i + 1;
    }
    proof {
        assert(digits.take(bytes@.len() - digits_start) =~= digits);
        assert(is_ascii_digits(digits));
    }
    Some(acc)
}

/// If one more digit pushes the accumulator past u128, the whole string's
/// value is past u128.
proof fn overflow_means_too_big(digits: Seq<u8>, at: int, acc: int, c: int)
    requires
        0 <= at < digits.len(),
        forall|j: int| 0 <= j < at ==> 48 <= #[trigger] digits[j] <= 57,
        48 <= c <= 57,
        digits[at] == c,
        acc == ascii_num(digits.take(at)),
        acc * 10 + (c - 48) > u128::MAX,
    ensures
        is_ascii_digits(digits) ==> ascii_num(digits) > u128::MAX,
{
    if is_ascii_digits(digits) {
        assert(digits.take(at + 1).drop_last() =~= digits.take(at));
        assert(digits.take(at + 1).last() == digits[at]);
        assert(ascii_num(digits.take(at + 1)) == acc * 10 + (c - 48));
        lemma_ascii_num_prefix(digits, at + 1);
    }
}

/// The canonical decimal digits of `n`.
pub open spec fn dec_digits(n: int) -> Seq<u8>
    decreases n,
{
    if n < 0 {
        Seq::empty()
    } else if n < 10 {
        seq![(48 + n) as u8]
    } else {
        dec_digits(n / 10) + seq![(48 + n % 10) as u8]
    }
}

/// Append the decimal digits of `n` to `out`.
pub fn format_u128(n: u128, out: &mut Vec<u8>)
    ensures
        final(out)@ == old(out)@ + dec_digits(n as int),
    decreases n,
{
    if n < 10 {
        out.push(48 + n as u8);
        proof {
            assert(out@ =~= old(out)@ + seq![(48 + n as int) as u8]);
        }
    } else {
        format_u128(n / 10, out);
        out.push(48 + (n % 10) as u8);
        proof {
            assert((n / 10) as int == n as int / 10);
            assert((n % 10) as int == n as int % 10);
            assert(out@ =~= old(out)@ + (dec_digits(n as int / 10) + seq![
                (48 + n as int % 10) as u8,
            ]));
        }
    }
}

/// The canonical digits denote their number.
pub proof fn lemma_dec_digits_value(n: int)
    requires
        n >= 0,
    ensures
        is_ascii_digits(dec_digits(n)),
        ascii_num(dec_digits(n)) == n,
        dec_digits(n).len() > 1 ==> dec_digits(n)[0] != 48,
        n > 0 ==> dec_digits(n)[0] != 48,
    decreases n,
{
    if n < 10 {
        let d = dec_digits(n);
        assert(d.drop_last() =~= Seq::<u8>::empty());
        assert(d.last() == (48 + n) as u8);
        assert(ascii_num(d) == ascii_num(Seq::<u8>::empty()) * 10 + (48 + n - 48));
    } else {
        lemma_dec_digits_value(n / 10);
        let d = dec_digits(n);
        assert(d.drop_last() =~= dec_digits(n / 10));
        assert(d.last() == (48 + n % 10) as u8);
        assert(forall|i: int|
            0 <= i < d.len() - 1 ==> d[i] == #[trigger] dec_digits(n / 10)[i]);
        assert(is_ascii_digits(d));
    }
}

/// The bytes of the keys alone, before length prefixes.
pub open spec fn total_key_len(ks: Seq<Seq<u8>>) -> int
    decreases ks.len(),
{
    if ks.len() == 0 {
        0
    } else {
        ks[0].len() + total_key_len(ks.skip(1))
    }
}

/// The bytes of the keys and values alone, before length prefixes.
pub open spec fn total_pair_len(ps: Seq<(Seq<u8>, Seq<u8>)>) -> int
    decreases ps.len(),
{
    if ps.len() == 0 {
        0
    } else {
        ps[0].0.len() + ps[0].1.len() + total_pair_len(ps.skip(1))
    }
}

/// Appending one chunk adds its length to the total.
pub proof fn lemma_total_key_len_snoc(ks: Seq<Seq<u8>>, c: Seq<u8>)
    ensures
        total_key_len(ks.push(c)) == total_key_len(ks) + c.len(),
    decreases ks.len(),
{
    if ks.len() == 0 {
        assert(ks.push(c)[0] == c);
        assert(ks.push(c).skip(1) =~= Seq::<Seq<u8>>::empty());
        assert(total_key_len(ks.push(c).skip(1)) == 0);
        assert(total_key_len(ks.push(c)) == c.len() + 0);
    } else {
        assert(ks.push(c).skip(1) =~= ks.skip(1).push(c));
        lemma_total_key_len_snoc(ks.skip(1), c);
        assert(ks.push(c)[0] == ks[0]);
        assert(total_key_len(ks.push(c)) == ks[0].len() + total_key_len(ks.skip(1).push(c)));
    }
}

/// Appending one pair adds its lengths to the total.
pub proof fn lemma_total_pair_len_snoc(ps: Seq<(Seq<u8>, Seq<u8>)>, e: (Seq<u8>, Seq<u8>))
    ensures
        total_pair_len(ps.push(e)) == total_pair_len(ps) + e.0.len() + e.1.len(),
    decreases ps.len(),
{
    if ps.len() == 0 {
        assert(ps.push(e)[0] == e);
        assert(ps.push(e).skip(1) =~= Seq::<(Seq<u8>, Seq<u8>)>::empty());
        assert(total_pair_len(ps.push(e).skip(1)) == 0);
        assert(total_pair_len(ps.push(e)) == e.0.len() + e.1.len() + 0);
    } else {
        assert(ps.push(e).skip(1) =~= ps.skip(1).push(e));
        lemma_total_pair_len_snoc(ps.skip(1), e);
        assert(ps.push(e)[0] == ps[0]);
        assert(total_pair_len(ps.push(e)) == ps[0].0.len() + ps[0].1.len() + total_pair_len(
            ps.skip(1).push(e),
        ));
    }
}

/// A prefix never exceeds the whole total.
pub proof fn lemma_total_key_len_take(ks: Seq<Seq<u8>>, i: int)
    requires
        0 <= i <= ks.len(),
    ensures
        total_key_len(ks.take(i)) <= total_key_len(ks),
    decreases ks.len() - i,
{
    if i < ks.len() {
        lemma_total_key_len_take(ks, i + 1);
        assert(ks.take(i + 1).drop_last() =~= ks.take(i));
        assert(ks.take(i + 1) =~= ks.take(i).push(ks[i]));
        lemma_total_key_len_snoc(ks.take(i), ks[i]);
    } else {
        assert(ks.take(i) =~= ks);
    }
}

/// A prefix never exceeds the whole total.
pub proof fn lemma_total_pair_len_take(ps: Seq<(Seq<u8>, Seq<u8>)>, i: int)
    requires
        0 <= i <= ps.len(),
    ensures
        total_pair_len(ps.take(i)) <= total_pair_len(ps),
    decreases ps.len() - i,
{
    if i < ps.len() {
        lemma_total_pair_len_take(ps, i + 1);
        assert(ps.take(i + 1) =~= ps.take(i).push(ps[i]));
        lemma_total_pair_len_snoc(ps.take(i), ps[i]);
    } else {
        assert(ps.take(i) =~= ps);
    }
}

/// Appending one chunk appends its length-prefixed bytes.
pub proof fn lemma_lengthed_all_snoc(chunks: Seq<Seq<u8>>, c: Seq<u8>)
    ensures
        lengthed_all(chunks.push(c)) == lengthed_all(chunks) + lengthed(c),
    decreases chunks.len(),
{
    if chunks.len() == 0 {
        assert(chunks.push(c)[0] == c);
        assert(chunks.push(c).skip(1) =~= Seq::<Seq<u8>>::empty());
        assert(lengthed_all(chunks.push(c).skip(1)) == Seq::<u8>::empty());
        assert(lengthed_all(chunks.push(c)) =~= lengthed_all(chunks) + lengthed(c));
    } else {
        assert(chunks.push(c).skip(1) =~= chunks.skip(1).push(c));
        lemma_lengthed_all_snoc(chunks.skip(1), c);
        assert(chunks.push(c)[0] == chunks[0]);
        assert(lengthed(chunks[0]) + (lengthed_all(chunks.skip(1)) + lengthed(c)) =~= (lengthed(
            chunks[0],
        ) + lengthed_all(chunks.skip(1))) + lengthed(c));
    }
}

/// Appending one pair appends its length-prefixed bytes.
pub proof fn lemma_lengthed_pairs_snoc(rows: Seq<(Seq<u8>, Seq<u8>)>, e: (Seq<u8>, Seq<u8>))
    ensures
        lengthed_pairs(rows.push(e)) == lengthed_pairs(rows) + lengthed(e.0) + lengthed(e.1),
    decreases rows.len(),
{
    if rows.len() == 0 {
        assert(rows.push(e)[0] == e);
        assert(rows.push(e).skip(1) =~= Seq::<(Seq<u8>, Seq<u8>)>::empty());
        assert(lengthed_pairs(rows.push(e).skip(1)) == Seq::<u8>::empty());
        assert(lengthed_pairs(rows.push(e)) =~= lengthed_pairs(rows) + lengthed(e.0) + lengthed(
            e.1,
        ));
    } else {
        assert(rows.push(e).skip(1) =~= rows.skip(1).push(e));
        lemma_lengthed_pairs_snoc(rows.skip(1), e);
        assert(rows.push(e)[0] == rows[0]);
        assert(lengthed(rows[0].0) + lengthed(rows[0].1) + ((lengthed_pairs(rows.skip(1))
            + lengthed(e.0)) + lengthed(e.1)) =~= ((lengthed(rows[0].0) + lengthed(rows[0].1)
            + lengthed_pairs(rows.skip(1))) + lengthed(e.0)) + lengthed(e.1));
    }
}

} // verus!
