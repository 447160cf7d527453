//! Sortable binary link-tag codec for index-tree edges.
//!
//! A tag is the index namespace's raw bytes, one zero-byte separator, and
//! the timestamp as 8 bytes in big-endian order. Big-endian encoding
//! preserves numeric ordering under lexicographic byte comparison, so the
//! store's sorted-link enumeration doubles as a time-range query. No
//! escaping of zero bytes within the namespace is performed: decoding
//! splits at the first zero byte, so namespace identifiers must not
//! themselves contain one.

use vstd::prelude::*;
use vstd::arithmetic::div_mod::lemma_fundamental_div_mod;

use crate::index_tree::IndexSegment;

verus! {

/// A link tag could not be decoded into a timestamp; carries the
/// offending bytes for diagnostics.
#[derive(Clone, Debug, PartialEq, Eq)]
pub enum TimeIndexingError {
    Malformed(Vec<u8>),
}

/// `256 ^ n`.
pub open spec fn pow256(n: nat) -> nat
    decreases n,
{
    if n == 0 {
        1
    } else {
        256 * pow256((n - 1) as nat)
    }
}

/// The big-endian bytes of `v`, `n` bytes long (least significant last).
pub open spec fn be_bytes_n(v: nat, n: nat) -> Seq<u8>
    decreases n,
{
    if n == 0 {
        Seq::empty()
    } else {
        be_bytes_n(v / 256, (n - 1) as nat) + seq![(v % 256) as u8]
    }
}

/// The value of a big-endian byte string.
pub open spec fn be_val(s: Seq<u8>) -> nat
    decreases s.len(),
{
    if s.len() == 0 {
        0
    } else {
        be_val(s.drop_last()) * 256 + s.last() as nat
    }
}

/// The position of the first zero byte, if any.
pub open spec fn first_zero(s: Seq<u8>) -> Option<int>
    decreases s.len(),
{
    if s.len() == 0 {
        None
    } else if s[0] == 0 {
        Some(0int)
    } else {
        match first_zero(s.drop_first()) {
            None => None,
            Some(i) => Some(i + 1),
        }
    }
}

/// The encoded link tag for namespace `ns` and timestamp `ts`.
pub open spec fn tag_spec(ns: Seq<u8>, ts: u64) -> Seq<u8> {
    ns + seq![0u8] + be_bytes_n(ts as nat, 8)
}

/// The timestamp a byte string decodes to: the 8 bytes after the first
/// zero byte, read in big-endian order; `None` when there is no zero
/// byte or the bytes after the first one are not exactly 8.
pub open spec fn decode_spec(s: Seq<u8>) -> Option<u64> {
    match first_zero(s) {
        None => None,
        Some(p) => if s.len() == p + 9 {
            Some(be_val(s.subrange(p + 1, s.len() as int)) as u64)
        } else {
            None
        },
    }
}

/// `be_bytes_n` yields `n` bytes.
pub proof fn lemma_be_bytes_n_len(v: nat, n: nat)
    ensures
        be_bytes_n(v, n).len() == n,
    decreases n,
{
    if n > 0 {
        lemma_be_bytes_n_len(v / 256, (n - 1) as nat);
    }
}

/// Reading back the big-endian bytes of `v` yields `v`.
pub proof fn lemma_be_val_of_be_bytes(v: nat, n: nat)
    requires
        v < pow256(n),
    ensures
        be_val(be_bytes_n(v, n)) == v,
    decreases n,
{
    if n == 0 {
    } else {
        let m = (n - 1) as nat;
        lemma_be_bytes_n_len(v / 256, m);
        lemma_fundamental_div_mod(v as int, 256);
        assert(256 * (v as int / 256) <= v as int);
        assert((v as int / 256) < pow256(m) as int);
        lemma_be_val_of_be_bytes(v / 256, m);
        let s = be_bytes_n(v, n);
        assert(s.drop_last() =~= be_bytes_n(v / 256, m));
        assert(s.last() == (v % 256) as u8);
    }
}

/// A big-endian byte string's value is below `256` to the power of its
/// length.
pub proof fn lemma_be_val_bound(s: Seq<u8>)
    ensures
        be_val(s) < pow256(s.len()),
    decreases s.len(),
{
    if s.len() > 0 {
        lemma_be_val_bound(s.drop_last());
    }
}

/// Where `first_zero` points: at a zero byte that no zero byte precedes;
/// or nowhere, exactly when the string holds no zero byte.
pub proof fn lemma_first_zero(s: Seq<u8>)
    ensures
        match first_zero(s) {
            Some(p) => 0 <= p < s.len() && s[p] == 0 && (forall|j: int| 0 <= j < p ==> s[j] != 0),
            None => forall|j: int| 0 <= j < s.len() ==> s[j] != 0,
        },
    decreases s.len(),
{
    if s.len() > 0 && s[0] != 0 {
        let t = s.drop_first();
        lemma_first_zero(t);
        match first_zero(t) {
            Some(i) => {
                assert(s[i + 1] == t[i]);
                assert forall|j: int| 0 <= j < i + 1 implies s[j] != 0 by {
                    if j >= 1 {
                        assert(s[j] == t[j - 1]);
                    }
                }
            },
            None => {
                assert forall|j: int| 0 <= j < s.len() implies s[j] != 0 by {
                    if j >= 1 {
                        assert(s[j] == t[j - 1]);
                    }
                }
            },
        }
    }
}

/// Decoding the encoding gives the timestamp back: for any namespace
/// free of zero bytes and any 64-bit timestamp,
/// `decode_spec(tag_spec(ns, ts)) == Some(ts)`.
pub proof fn lemma_link_tag_round_trip(ns: Seq<u8>, ts: u64)
    requires
        forall|j: int| 0 <= j < ns.len() ==> ns[j] != 0,
    ensures
        decode_spec(tag_spec(ns, ts)) == Some(ts),
{
    let s = tag_spec(ns, ts);
    lemma_be_bytes_n_len(ts as nat, 8);
    assert(s.len() == ns.len() + 9);
    assert(s[ns.len() as int] == 0);
    lemma_first_zero(s);
    let p = first_zero(s).unwrap();
    assert(p == ns.len());
    assert(s.subrange(p + 1, s.len() as int) =~= be_bytes_n(ts as nat, 8));
    lemma_pow256_64();
    lemma_be_val_of_be_bytes(ts as nat, 8);
}

/// Strict lexicographic order on byte strings.
pub open spec fn lex_lt(a: Seq<u8>, b: Seq<u8>) -> bool
    decreases a.len(),
{
    if b.len() == 0 {
        false
    } else if a.len() == 0 {
        true
    } else if a[0] < b[0] {
        true
    } else if a[0] > b[0] {
        false
    } else {
        lex_lt(a.drop_first(), b.drop_first())
    }
}

/// A big-endian byte string's value, split at its first byte.
proof fn lemma_be_val_first(s: Seq<u8>)
    requires
        s.len() > 0,
    ensures
        be_val(s) == s[0] * pow256((s.len() - 1) as nat) + be_val(s.drop_first()),
    decreases s.len(),
{
    if s.len() == 1 {
        reveal_with_fuel(be_val, 2);
        assert(s.drop_last() =~= Seq::<u8>::empty());
        assert(s.drop_first() =~= Seq::<u8>::empty());
        assert(be_val(s.drop_last()) == 0);
        assert(be_val(s.drop_first()) == 0);
        assert(be_val(s) == be_val(s.drop_last()) * 256 + s.last());
        assert(pow256(0) == 1);
        assert(be_val(s) == s[0] * pow256((s.len() - 1) as nat) + be_val(s.drop_first()));
    } else {
        let n = s.len() as int;
        let dl = s.drop_last();
        lemma_be_val_first(dl);
        assert(dl.drop_first() =~= s.drop_first().drop_last());
        assert(s.drop_first().last() == s.last());
        let a = s[0] as int;
        let p = pow256((n - 2) as nat) as int;
        let rest = be_val(dl.drop_first()) as int;
        assert(pow256((n - 1) as nat) == 256 * pow256((n - 2) as nat));
        assert((a * p + rest) * 256 == a * (256 * p) + rest * 256) by (nonlinear_arith);
        assert(be_val(dl) == a * p + rest);
        assert(be_val(s) == be_val(dl) * 256 + s.last());
        assert(be_val(s.drop_first()) == rest * 256 + s.last());
        assert(be_val(s) == a * (256 * p) + (rest * 256 + s.last()));
        assert(s[0] * pow256((s.len() - 1) as nat) == a * (256 * p));
    }
}

/// Of two equally long big-endian byte strings, the one with the smaller
/// value is the lexicographically smaller one.
pub proof fn lemma_be_val_lex(a: Seq<u8>, b: Seq<u8>)
    requires
        a.len() == b.len(),
        be_val(a) < be_val(b),
    ensures
        lex_lt(a, b),
    decreases a.len(),
{
    if a.len() == 0 {
    } else if a[0] == b[0] {
        lemma_be_val_first(a);
        lemma_be_val_first(b);
        lemma_be_val_lex(a.drop_first(), b.drop_first());
    } else if a[0] > b[0] {
        lemma_be_val_first(a);
        lemma_be_val_first(b);
        let p = pow256((a.len() - 1) as nat) as int;
        lemma_be_val_bound(b.drop_first());
        lemma_pow256_pos((a.len() - 1) as nat);
        let x = a[0] as int;
        let y = b[0] as int;
        assert(x * p >= y * p + p) by (nonlinear_arith)
            requires
                x >= y + 1,
                p >= 1,
        ;
        assert(be_val(b.drop_first()) < p);
        assert(false);
    }
}

/// A shared prefix keeps lexicographic order.
proof fn lemma_lex_prefix(p: Seq<u8>, a: Seq<u8>, b: Seq<u8>)
    requires
        lex_lt(a, b),
    ensures
        lex_lt(p + a, p + b),
    decreases p.len(),
{
    if p.len() == 0 {
        assert(p + a =~= a);
        assert(p + b =~= b);
    } else {
        lemma_lex_prefix(p.drop_first(), a, b);
        assert((p + a).drop_first() =~= p.drop_first() + a);
        assert((p + b).drop_first() =~= p.drop_first() + b);
        assert((p + a)[0] == p[0] && (p + b)[0] == p[0]);
        assert((p + b).len() > 0);
    }
}

/// Under one namespace, link tags sort exactly like the timestamps they
/// encode: the store's sorted-link enumeration therefore doubles as a
/// time-range query.
pub proof fn lemma_tag_order(ns: Seq<u8>, ts1: u64, ts2: u64)
    requires
        ts1 < ts2,
    ensures
        lex_lt(tag_spec(ns, ts1), tag_spec(ns, ts2)),
{
    let b1 = be_bytes_n(ts1 as nat, 8);
    let b2 = be_bytes_n(ts2 as nat, 8);
    lemma_be_bytes_n_len(ts1 as nat, 8);
    lemma_be_bytes_n_len(ts2 as nat, 8);
    lemma_pow256_64();
    lemma_be_val_of_be_bytes(ts1 as nat, 8);
    lemma_be_val_of_be_bytes(ts2 as nat, 8);
    lemma_be_val_lex(b1, b2);
    lemma_lex_prefix(ns + seq![0u8], b1, b2);
    assert(tag_spec(ns, ts1) =~= (ns + seq![0u8]) + b1);
    assert(tag_spec(ns, ts2) =~= (ns + seq![0u8]) + b2);
}

/// The big-endian bytes of `v`, most significant first.
pub fn u64_to_be_bytes(v: u64) -> (r: Vec<u8>)
    ensures
        r@ == be_bytes_n(v as nat, 8),
{
    let mut out: Vec<u8> = Vec::new();
    let mut k: usize = 0;
    while k < 8
        invariant
            k <= 8,
            out@.len() == k,
        decreases 8 - k,
    {
        out.push(0u8);
        k = k + 1;
    }
    let mut x: u64 = v;
    let mut i: usize = 8;
    while i > 0
        invariant
            i <= 8,
            out@.len() == 8,
            be_bytes_n(v as nat, 8) == be_bytes_n(x as nat, i as nat) + out@.subrange(
                i as int,
                8,
            ),
        decreases i,
    {
        let ghost prev_out = out@;
        let ghost prev_x = x;
        let ghost prev_i = i as int;
        i = i - 1;
        out.set(i, (x % 256) as u8);
        x = x / 256;
        proof {
            assert(be_bytes_n(prev_x as nat, prev_i as nat) == be_bytes_n(x as nat, i as nat)
                + seq![(prev_x % 256) as u8]);
            assert(out@.subrange(i as int, 8) =~= seq![(prev_x % 256) as u8] + prev_out.subrange(
                prev_i,
                8,
            ));
        }
    }
    proof {
        assert(be_bytes_n(v as nat, 8) =~= out@);
    }
    out
}

/// Decode a timestamp from a time index link tag.
///
/// Splits the tag at the first zero byte and reads the 8 bytes after it
/// as a big-endian millisecond timestamp; returns `Malformed` carrying
/// the original bytes when there is no zero byte or the trailing segment
/// is not exactly 8 bytes.
pub fn decode_link_tag_timestamp(tag: &Vec<u8>) -> (r: Result<u64, TimeIndexingError>)
    ensures
        match decode_spec(tag@) {
            Some(ts) => r == Ok::<u64, TimeIndexingError>(ts),
            None => r matches Err(TimeIndexingError::Malformed(b)) && b@ == tag@,
        },
{
    proof {
        lemma_first_zero(tag@);
    }
    let n = tag.len();
    let mut p: usize = 0;
    let mut found = false;
    while p < n && !found
        invariant
            n == tag@.len(),
            p <= n,
            found ==> p < n && tag@[p as int] == 0,
            forall|j: int| 0 <= j < p ==> tag@[j] != 0,
        decreases n - p, (if found { 0int } else { 1int }),
    {
        if tag[p] == 0 {
            found = true;
        } else {
            p = p + 1;
        }
    }
    if !found {
        assert(first_zero(tag@) is None);
        return Err(TimeIndexingError::Malformed(tag.clone()));
    }
    assert(first_zero(tag@) == Some(p as int));
    if n - p - 1 != 8 {
        return Err(TimeIndexingError::Malformed(tag.clone()));
    }
    let mut acc: u64 = 0;
    let mut k: usize = 0;
    proof {
        lemma_pow256_64();
    }
    while k < 8
        invariant
            n == tag@.len(),
            p + 9 == n,
            k <= 8,
            acc as nat == be_val(tag@.subrange(p + 1, p + 1 + k)),
            pow256(8) == 0x1_0000_0000_0000_0000,
        decreases 8 - k,
    {
        let ghost prev_sub = tag@.subrange(p as int + 1, p as int + 1 + k as int);
        proof {
            lemma_be_val_bound(prev_sub);
            lemma_pow256_le(k as nat, 7);
            assert(pow256(8) == 256 * pow256(7));
        }
        let b = tag[p + 1 + k];
        acc = acc * 256 + (b as u64);
        k = k + 1;
        proof {
            let sub = tag@.subrange(p as int + 1, p as int + 1 + k as int);
            assert(sub.drop_last() =~= prev_sub);
            assert(sub.last() == b);
        }
    }
    assert(tag@.subrange(p + 1, p + 1 + 8) =~= tag@.subrange(p + 1, n as int));
    Ok(acc)
}

/// The value of `pow256` at 8: one past the largest 64-bit value.
pub proof fn lemma_pow256_64()
    ensures
        pow256(8) == 0x1_0000_0000_0000_0000,
{
    reveal_with_fuel(pow256, 9);
}

/// `pow256` is monotone.
pub proof fn lemma_pow256_le(a: nat, b: nat)
    requires
        a <= b,
    ensures
        pow256(a) <= pow256(b),
    decreases b,
{
    if a < b {
        lemma_pow256_le(a, (b - 1) as nat);
        lemma_pow256_pos((b - 1) as nat);
    }
}

/// `pow256` is positive.
pub proof fn lemma_pow256_pos(n: nat)
    ensures
        pow256(n) >= 1,
    decreases n,
{
    if n > 0 {
        lemma_pow256_pos((n - 1) as nat);
    }
}

impl IndexSegment {
    /// Generate a link tag with the encoded time of this index segment,
    /// suitable for linking from other entries in the index tree rooted
    /// at the namespace `index_name`.
    pub fn tag_for_index(&self, index_name: &Vec<u8>) -> (r: Vec<u8>)
        ensures
            r@ == tag_spec(index_name@, self.spec_timestamp()),
    {
        let mut out: Vec<u8> = Vec::new();
        let mut i: usize = 0;
        while i < index_name.len()
            invariant
                i <= index_name@.len(),
                out@ == index_name@.subrange(0, i as int),
            decreases index_name@.len() - i,
        {
            out.push(index_name[i]);
            i = i + 1;
        }
        out.push(0u8);
        let time_bytes = u64_to_be_bytes(self.timestamp());
        let mut j: usize = 0;
        while j < time_bytes.len()
            invariant
                j <= time_bytes@.len(),
                time_bytes@ == be_bytes_n(self.spec_timestamp() as nat, 8),
                out@ == index_name@ + seq![0u8] + time_bytes@.subrange(0, j as int),
            decreases time_bytes@.len() - j,
        {
            out.push(time_bytes[j]);
            j = j + 1;
            proof {
                assert(out@ =~= index_name@ + seq![0u8] + time_bytes@.subrange(0, j as int));
            }
        }
        proof {
            lemma_be_bytes_n_len(self.spec_timestamp() as nat, 8);
            assert(out@ =~= tag_spec(index_name@, self.spec_timestamp()));
        }
        out
    }

    /// Decode a link tag into an index segment holding the exact encoded
    /// timestamp.
    pub fn try_from_tag(tag: &Vec<u8>) -> (r: Result<IndexSegment, TimeIndexingError>)
        ensures
            match decode_spec(tag@) {
                Some(ts) => r matches Ok(seg) && seg.spec_timestamp() == ts,
                None => r matches Err(TimeIndexingError::Malformed(b)) && b@ == tag@,
            },
    {
        match decode_link_tag_timestamp(tag) {
            Ok(ts) => Ok(IndexSegment::from_millis(ts)),
            Err(e) => Err(e),
        }
    }
}

} // verus!
