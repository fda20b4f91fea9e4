//! Streaming k-mer counting over byte sequences.
//!
//! A sequence is scanned left to right; every window of `k` contiguous valid
//! bases is counted once under its hash. A byte outside the alphabet breaks
//! the window, and scanning re-seeds just past it. The hash of each window
//! after the first is computed incrementally from its predecessor.

use vstd::prelude::*;
use vstd::arithmetic::power2::lemma2_to64;
use vstd::arithmetic::power2::lemma2_to64_rest;
use vstd::arithmetic::mul::lemma_mul_is_associative;
use vstd::arithmetic::mul::lemma_mul_is_commutative;
use vstd::arithmetic::div_mod::lemma_mod_multiples_vanish;
use vstd::arithmetic::div_mod::lemma_small_mod;
use vstd::bits::lemma_u64_shl_is_mul;
use vstd::pervasive::unreached;
use crate::kmer::KmerHash;
use crate::kmer::KmerError;
use crate::kmer::is_base;
use crate::kmer::base_code;
use crate::kmer::valid_kmer;
use crate::kmer::pow4;
use crate::kmer::hash_of;
use crate::kmer::revcom_hash_of;
use crate::kmer::revcom_hash;
use crate::kmer::kmer2hash;
use crate::kmer::lemma_hash_of_bounds;
use crate::kmer::lemma_hash_of_front;
use crate::kmer::lemma_pow4_increases;
use crate::kmer::lemma_pow4_unfold;
use crate::kmer::lemma_pow4_pos;
use crate::kmer::lemma_pow4_31;
use crate::kmer::lemma_revcom_hash_of_bounds;
use crate::kmer::lemma_revcom_hash_involution;
use crate::kmer::BASE_A;
use crate::kmer::BASE_C;
use crate::kmer::BASE_G;
use crate::kmer::BASE_T;
use crate::table::KmerCountTable;
use crate::table::table_count;
use crate::table::distinct_keys;

verus! {

/// Whether every byte of a sequence is an upper-case ASCII letter.
pub open spec fn seq_uppercase(s: Seq<u8>) -> bool {
    forall|i: int| 0 <= i < s.len() ==> 65 <= #[trigger] s[i] <= 90
}

/// Whether the window of length `k` starting at `i` holds only bytes drawn
/// from `vb`.
pub open spec fn window_in(s: Seq<u8>, vb: Seq<u8>, i: int, k: int) -> bool {
    forall|j: int| i <= j < i + k ==> vb.contains(#[trigger] s[j])
}

/// Whether the window of length `k` starting at `i` lies in the sequence
/// and holds only valid bases.
pub open spec fn window_valid(s: Seq<u8>, i: int, k: int) -> bool {
    0 <= i && i + k <= s.len() && valid_kmer(s.subrange(i, i + k))
}

/// The number of valid windows with hash `h` whose start index is below
/// `n`.
pub open spec fn hits_upto(s: Seq<u8>, k: int, h: u64, n: int) -> int
    decreases n,
{
    if n <= 0 {
        0
    } else {
        hits_upto(s, k, h, n - 1) + if window_valid(s, n - 1, k) && hash_of(
            s.subrange(n - 1, n - 1 + k),
        ) == h {
            1int
        } else {
            0int
        }
    }
}

/// How often the k-mer with hash `h` occurs as a valid window of `s`.
pub open spec fn kmer_count_one(s: Seq<u8>, k: int, h: u64) -> int {
    hits_upto(s, k, h, s.len() - k + 1)
}

/// The reverse-complement hash as a 64-bit value.
pub open spec fn rc_u64(h: u64, k: nat) -> u64 {
    revcom_hash_of(h as int, k) as u64
}

/// The count of `h` over one sequence: the forward count, plus — when
/// reverse complements are merged in — the forward count of the
/// reverse-complement hash.
pub open spec fn kmer_count_one_mode(s: Seq<u8>, k: int, revcom: bool, h: u64) -> int {
    kmer_count_one(s, k, h) + if revcom && (h as int) < pow4(k as nat) {
        kmer_count_one(s, k, rc_u64(h, k as nat))
    } else {
        0int
    }
}

/// Window counts are bounded by the number of window positions.
proof fn lemma_hits_upto_bounds(s: Seq<u8>, k: int, h: u64, n: int)
    ensures
        0 <= hits_upto(s, k, h, n),
        hits_upto(s, k, h, n) <= (if n > 0 {
            n
        } else {
            0int
        }),
    decreases n,
{
    if n > 0 {
        lemma_hits_upto_bounds(s, k, h, n - 1);
    }
}

/// Over a span with no valid window start, the count does not change.
proof fn lemma_hits_upto_constant(s: Seq<u8>, k: int, h: u64, n1: int, n2: int)
    requires
        n1 <= n2,
        forall|j: int| n1 <= j < n2 ==> !window_valid(s, j, k),
    ensures
        hits_upto(s, k, h, n2) == hits_upto(s, k, h, if n1 >= 0 {
            n1
        } else {
            0int
        }),
    decreases n2 - n1,
{
    if n2 > n1 {
        lemma_hits_upto_constant(s, k, h, n1, n2 - 1);
        if n2 - 1 >= 0 {
            assert(!window_valid(s, n2 - 1, k));
        }
    } else {
        if n2 < 0 {
            lemma_hits_upto_constant_nonpos(s, k, h, n2);
        }
    }
}

/// For non-positive bounds the count is zero either way.
proof fn lemma_hits_upto_constant_nonpos(s: Seq<u8>, k: int, h: u64, n: int)
    requires
        n <= 0,
    ensures
        hits_upto(s, k, h, n) == hits_upto(s, k, h, 0),
{
}

/// A hash at or above `4^k` is never the hash of a valid window.
proof fn lemma_hits_upto_high_zero(s: Seq<u8>, k: int, h: u64, n: int)
    requires
        k >= 1,
        h as int >= pow4(k as nat),
    ensures
        hits_upto(s, k, h, n) == 0,
    decreases n,
{
    if n > 0 {
        lemma_hits_upto_high_zero(s, k, h, n - 1);
        if window_valid(s, n - 1, k) {
            lemma_hash_of_bounds(s.subrange(n - 1, n - 1 + k));
        }
    }
}

/// Whether a byte occurs in a byte slice.
fn slice_contains(vb: &[u8], b: u8) -> (r: bool)
    ensures
        r == vb@.contains(b),
{
    let n = vb.len();
    let mut i: usize = 0;
    while i < n
        invariant
            0 <= i <= n,
            n == vb@.len(),
            forall|j: int| 0 <= j < i ==> vb@[j] != b,
        decreases n - i,
    {
        if vb[i] == b {
            return true;
        }
        i = i + 1;
    }
    false
}

/// Whether the window of length `k` at `i` holds only bytes from `vb`.
fn window_all_in(sequence: &[u8], valid_bases: &[u8], i: usize, k: usize) -> (r: bool)
    requires
        i + k <= sequence@.len(),
    ensures
        r == window_in(sequence@, valid_bases@, i as int, k as int),
{
    let n = sequence.len();
    let mut j: usize = 0;
    while j < k
        invariant
            0 <= j <= k,
            n == sequence@.len(),
            i + k <= sequence@.len(),
            forall|l: int| i <= l < i + j ==> valid_bases@.contains(#[trigger] sequence@[l]),
        decreases k - j,
    {
        if !slice_contains(valid_bases, sequence[i + j]) {
            return false;
        }
        j = j + 1;
    }
    true
}

/// Finds the first window of `kmer_length` contiguous bytes from
/// `valid_bases`, at or after `start_pos`.
///
/// Returns the window's hash and the index just past the window, or nothing
/// when no such window exists before the sequence ends.
pub fn find_first_valid_kmer(
    sequence: &[u8],
    kmer_length: usize,
    start_pos: usize,
    valid_bases: &[u8],
) -> (r: Option<(KmerHash, usize)>)
    requires
        1 <= kmer_length <= 31,
        forall|i: int| 0 <= i < valid_bases@.len() ==> is_base(#[trigger] valid_bases@[i]),
    ensures
        match r {
            Some(p) => {
                let i = p.1 - kmer_length;
                &&& start_pos <= i
                &&& i + kmer_length <= sequence@.len()
                &&& window_in(sequence@, valid_bases@, i, kmer_length as int)
                &&& p.0 == hash_of(sequence@.subrange(i, i + kmer_length))
                &&& forall|j: int|
                    start_pos <= j < i ==> !window_in(sequence@, valid_bases@, j, kmer_length as int)
            },
            None => forall|j: int|
                start_pos <= j && j + kmer_length <= sequence@.len() ==> !window_in(
                    sequence@,
                    valid_bases@,
                    j,
                    kmer_length as int,
                ),
        },
{
    let sequence_length = sequence.len();
    if kmer_length > sequence_length {
        return None;
    }
    let last = sequence_length - kmer_length;
    if start_pos > last {
        return None;
    }
    let mut i = start_pos;
    while i <= last
        invariant
            1 <= kmer_length <= 31,
            forall|l: int| 0 <= l < valid_bases@.len() ==> is_base(#[trigger] valid_bases@[l]),
            start_pos <= i <= last + 1,
            last + kmer_length == sequence@.len(),
            sequence@.len() <= usize::MAX,
            forall|j: int|
                start_pos <= j < i ==> !window_in(sequence@, valid_bases@, j, kmer_length as int),
        decreases last + 1 - i,
    {
        if window_all_in(sequence, valid_bases, i, kmer_length) {
            let window = &sequence[i..i + kmer_length];
            proof {
                assert(window@ =~= sequence@.subrange(i as int, i + kmer_length));
                assert forall|l: int| 0 <= l < window@.len() implies is_base(
                    #[trigger] window@[l],
                ) by {
                    assert(valid_bases@.contains(sequence@[i + l]));
                    let m = choose|m: int|
                        0 <= m < valid_bases@.len() && valid_bases@[m] == sequence@[i + l];
                    assert(is_base(valid_bases@[m]));
                }
            }
            match kmer2hash(window) {
                Ok(kmer_hash) => {
                    return Some((kmer_hash, i + kmer_length));
                },
                Err(_) => {
                    proof {
                        assert(false);
                    }
                    return unreached();
                },
            }
        }
        i = i + 1;
    }
    None
}

} // verus!

verus! {

/// Sliding a valid window one base to the right: drop the first base,
/// append the new one; the new hash is the old hash shifted in modulo the
/// hash-space size.
proof fn lemma_hash_of_slide(w: Seq<u8>, b: u8)
    requires
        valid_kmer(w),
        w.len() >= 1,
        is_base(b),
    ensures
        hash_of(w.subrange(1, w.len() as int).push(b)) == (hash_of(w) * 4 + base_code(b)) % (pow4(
            w.len(),
        ) as int),
{
    let k = w.len() as int;
    let rest = w.subrange(1, k);
    assert(w =~= seq![w[0]] + rest);
    lemma_hash_of_front(w[0], rest);
    assert(valid_kmer(rest));
    lemma_hash_of_bounds(rest);
    let c0 = base_code(w[0]);
    let hr = hash_of(rest);
    let cb = base_code(b);
    let p = pow4((k - 1) as nat) as int;
    let m = pow4(w.len()) as int;
    lemma_pow4_unfold(w.len());
    assert(m == 4 * p);
    assert(rest.push(b).drop_last() =~= rest);
    assert(hash_of(rest.push(b)) == hr * 4 + cb);
    assert((c0 * p) * 4 == c0 * m) by {
        lemma_mul_is_associative(c0, p, 4);
        lemma_mul_is_commutative(p, 4);
        lemma_mul_is_associative(c0, 4, p);
        lemma_mul_is_commutative(c0, 4);
        lemma_mul_is_associative(4, c0, p);
    }
    assert(hash_of(w) == c0 * p + hr);
    assert(hash_of(w) * 4 + cb == c0 * m + (hr * 4 + cb));
    let x = hr * 4 + cb;
    assert(0 <= x < m);
    assert(c0 * m == m * c0) by {
        lemma_mul_is_commutative(c0, m);
    }
    lemma_mod_multiples_vanish(c0, x, m);
    lemma_small_mod(x as nat, m as nat);
}

/// The streaming update: shifting the hash left by one base, masking to the
/// hash width, and ORing in the new code is addition modulo the hash-space
/// size.
proof fn lemma_stream_mask_step(h: u64, c: u64, s: u64)
    by (bit_vector)
    requires
        2 <= s <= 62,
        c < 4,
        h < (1u64 << s),
    ensures
        ((((h << 2) & (((1u64 << s) - 1) as u64)) | c) as int) == (h * 4 + c) % ((1u64 << s) as int),
{
}

/// The 2-bit code of a valid base, as an executable value.
fn base_to_num(b: u8) -> (r: u64)
    requires
        is_base(b),
    ensures
        r == base_code(b),
{
    match b {
        BASE_A => 0,
        BASE_C => 1,
        BASE_G => 2,
        BASE_T => 3,
        _ => unreached(),
    }
}

/// In-range windows over the exact alphabet are valid exactly when every
/// byte is drawn from it.
proof fn lemma_window_equiv(s: Seq<u8>, vb: Seq<u8>, j: int, k: int)
    requires
        0 <= j,
        1 <= k,
        j + k <= s.len(),
        forall|b: u8| vb.contains(b) ==> is_base(b),
        forall|b: u8| is_base(b) ==> vb.contains(b),
    ensures
        window_in(s, vb, j, k) == window_valid(s, j, k),
{
    if window_in(s, vb, j, k) {
        assert forall|x: int| 0 <= x < k implies is_base(#[trigger] s.subrange(j, j + k)[x]) by {
            assert(s.subrange(j, j + k)[x] == s[j + x]);
            assert(vb.contains(s[j + x]));
        }
        assert(window_valid(s, j, k));
    }
    if window_valid(s, j, k) {
        assert forall|l: int| j <= l < j + k implies vb.contains(#[trigger] s[l]) by {
            assert(s.subrange(j, j + k)[l - j] == s[l]);
            assert(is_base(s.subrange(j, j + k)[l - j]));
        }
    }
}

/// Adds every count of `other` into `acc`.
fn add_table(acc: &mut KmerCountTable, other: &KmerCountTable)
    requires
        old(acc).wf(),
        other.wf(),
        forall|h: u64| table_count(old(acc)@, h) + table_count(other@, h) <= u32::MAX,
    ensures
        final(acc).wf(),
        forall|h: u64|
            table_count(final(acc)@, h) == table_count(old(acc)@, h) + table_count(other@, h),
{
    let ps = other.pairs();
    let n = ps.len();
    let mut idx: usize = 0;
    while idx < n
        invariant
            0 <= idx <= n,
            n == ps@.len(),
            acc.wf(),
            other.wf(),
            distinct_keys(ps@),
            forall|j: int|
                0 <= j < n ==> other@.dom().contains(#[trigger] ps@[j].0) && other@[ps@[j].0]
                    == ps@[j].1 && ps@[j].1 >= 1,
            forall|h: u64| table_count(old(acc)@, h) + table_count(other@, h) <= u32::MAX,
            forall|j: int|
                0 <= j < idx ==> table_count(acc@, #[trigger] ps@[j].0) == table_count(
                    old(acc)@,
                    ps@[j].0,
                ) + ps@[j].1,
            forall|h: u64|
                (forall|j: int| 0 <= j < idx ==> (#[trigger] ps@[j].0) != h) ==> table_count(
                    acc@,
                    h,
                ) == table_count(old(acc)@, h),
        decreases n - idx,
    {
        let pair = ps[idx];
        proof {
            assert(forall|j: int| 0 <= j < idx ==> (#[trigger] ps@[j].0) != pair.0);
            assert(table_count(acc@, pair.0) == table_count(old(acc)@, pair.0));
            assert(table_count(other@, pair.0) == pair.1);
        }
        acc.increment(pair.0, pair.1);
        idx = idx + 1;
    }
    proof {
        assert forall|h: u64| table_count(acc@, h) == table_count(old(acc)@, h) + table_count(
            other@,
            h,
        ) by {
            if other@.dom().contains(h) {
                let j = choose|j: int| 0 <= j < ps@.len() && ps@[j].0 == h;
                assert(table_count(acc@, ps@[j].0) == table_count(old(acc)@, ps@[j].0)
                    + ps@[j].1);
            } else {
                assert(forall|j: int| 0 <= j < n ==> (#[trigger] ps@[j].0) != h);
            }
        }
    }
}

/// Builds the table that counts, under each in-range hash, the count the
/// given table holds under its reverse-complement hash.
fn revcom_table(t: &KmerCountTable, kmer_length: usize) -> (r: KmerCountTable)
    requires
        t.wf(),
        1 <= kmer_length <= 31,
        forall|h: u64| table_count(t@, h) >= 1 ==> (h as int) < pow4(kmer_length as nat),
    ensures
        r.wf(),
        forall|h: u64|
            table_count(r@, h) == if (h as int) < pow4(kmer_length as nat) {
                table_count(t@, rc_u64(h, kmer_length as nat))
            } else {
                0int
            },
{
    let ghost k = kmer_length as nat;
    let ps = t.pairs();
    let n = ps.len();
    let mut rc_t = KmerCountTable::new();
    let mut idx: usize = 0;
    while idx < n
        invariant
            0 <= idx <= n,
            n == ps@.len(),
            1 <= kmer_length <= 31,
            k == kmer_length as nat,
            t.wf(),
            rc_t.wf(),
            distinct_keys(ps@),
            forall|j: int|
                0 <= j < n ==> t@.dom().contains(#[trigger] ps@[j].0) && t@[ps@[j].0] == ps@[j].1
                    && ps@[j].1 >= 1,
            forall|h: u64| table_count(t@, h) >= 1 ==> (h as int) < pow4(k),
            forall|j: int|
                0 <= j < idx ==> table_count(rc_t@, rc_u64(#[trigger] ps@[j].0, k)) == ps@[j].1,
            forall|h: u64|
                (forall|j: int| 0 <= j < idx ==> rc_u64(#[trigger] ps@[j].0, k) != h)
                    ==> table_count(rc_t@, h) == 0,
        decreases n - idx,
    {
        let pair = ps[idx];
        let rh = revcom_hash(pair.0, kmer_length);
        proof {
            lemma_pow4_increases(k, 31);
            lemma_pow4_31();
            assert(table_count(t@, pair.0) == pair.1 as int >= 1);
            assert((pair.0 as int) < pow4(k));
            lemma_revcom_hash_of_bounds(pair.0 as int, k);
            assert(rh == rc_u64(pair.0, k));
            assert forall|j: int| 0 <= j < idx implies rc_u64(#[trigger] ps@[j].0, k) != rh by {
                assert(table_count(t@, ps@[j].0) == ps@[j].1 as int >= 1);
                assert((ps@[j].0 as int) < pow4(k));
                lemma_revcom_hash_of_bounds(ps@[j].0 as int, k);
                if rc_u64(ps@[j].0, k) == rh {
                    assert(revcom_hash_of(ps@[j].0 as int, k) == revcom_hash_of(
                        pair.0 as int,
                        k,
                    ));
                    lemma_revcom_hash_involution(ps@[j].0 as int, k);
                    lemma_revcom_hash_involution(pair.0 as int, k);
                    assert(false);
                }
            }
            assert(table_count(rc_t@, rh) == 0);
        }
        let ghost pre = rc_t@;
        rc_t.increment(rh, pair.1);
        proof {
            assert(rc_t@ == pre.insert(rh, (table_count(pre, rh) + pair.1) as u32));
            assert(table_count(rc_t@, rh) == pair.1);
            assert forall|j: int| 0 <= j < idx + 1 implies table_count(
                rc_t@,
                rc_u64(#[trigger] ps@[j].0, k),
            ) == ps@[j].1 by {
                if j < idx {
                    assert(rc_u64(ps@[j].0, k) != rh);
                    assert(table_count(pre, rc_u64(ps@[j].0, k)) == ps@[j].1);
                }
            }
            assert forall|h: u64|
                (forall|j: int| 0 <= j < idx + 1 ==> rc_u64(#[trigger] ps@[j].0, k) != h) implies
                table_count(rc_t@, h) == 0 by {
                assert(rc_u64(ps@[idx as int].0, k) != h);
                assert(h != rh);
                assert(table_count(pre, h) == 0);
            }
        }
        idx = idx + 1;
    }
    proof {
        assert forall|h: u64| table_count(rc_t@, h) == (if (h as int) < pow4(k) {
            table_count(t@, rc_u64(h, k))
        } else {
            0int
        }) by {
            if (h as int) < pow4(k) {
                let g = rc_u64(h, k);
                lemma_pow4_increases(k, 31);
                lemma_pow4_31();
                lemma_revcom_hash_of_bounds(h as int, k);
                lemma_revcom_hash_involution(h as int, k);
                assert(rc_u64(g, k) == h);
                if table_count(t@, g) >= 1 {
                    assert(t@.dom().contains(g));
                    let j = choose|j: int| 0 <= j < ps@.len() && ps@[j].0 == g;
                    assert(table_count(rc_t@, rc_u64(ps@[j].0, k)) == ps@[j].1);
                    assert(table_count(t@, g) == ps@[j].1);
                } else {
                    assert(table_count(t@, g) == 0);
                    assert forall|j: int| 0 <= j < n implies rc_u64(
                        #[trigger] ps@[j].0,
                        k,
                    ) != h by {
                        if rc_u64(ps@[j].0, k) == h {
                            assert(table_count(t@, ps@[j].0) == ps@[j].1 as int >= 1);
                            assert((ps@[j].0 as int) < pow4(k));
                            lemma_revcom_hash_of_bounds(ps@[j].0 as int, k);
                            assert(revcom_hash_of(ps@[j].0 as int, k) == h as int);
                            lemma_revcom_hash_involution(ps@[j].0 as int, k);
                            assert(revcom_hash_of(h as int, k) == ps@[j].0 as int);
                            assert(ps@[j].0 == g);
                            assert(false);
                        }
                    }
                }
            } else {
                assert forall|j: int| 0 <= j < n implies rc_u64(#[trigger] ps@[j].0, k) != h by {
                    assert(table_count(t@, ps@[j].0) == ps@[j].1 as int >= 1);
                    assert((ps@[j].0 as int) < pow4(k));
                    lemma_revcom_hash_of_bounds(ps@[j].0 as int, k);
                }
            }
        }
    }
    rc_t
}

} // verus!

verus! {

/// Counts the k-mers in one sequence.
///
/// Every window of `kmer_length` contiguous valid bases is counted once
/// under its hash. The first window is found by a forward scan; each later
/// hash is derived from its predecessor in constant time as
/// `((hash << 2) & mask) | code`. A byte outside the alphabet abandons the
/// current window and scanning re-seeds just past it. With `revcom_mode`
/// set, the reverse-complement hash of every observed hash has its count
/// merged additively into the same table, so a palindromic k-mer counts
/// double.
pub fn count_kmers_in_one_sequence(sequence: &[u8], kmer_length: usize, revcom_mode: bool) -> (r:
    KmerCountTable)
    requires
        1 <= kmer_length <= 31,
        seq_uppercase(sequence@),
        2 * sequence@.len() <= u32::MAX,
    ensures
        r.wf(),
        forall|h: u64|
            table_count(r@, h) == kmer_count_one_mode(
                sequence@,
                kmer_length as int,
                revcom_mode,
                h,
            ),
{
    let ghost gs = sequence@;
    let ghost gk = kmer_length as int;
    let sequence_length = sequence.len();
    let mut kmer_table = KmerCountTable::new();
    let mut valid_bases: Vec<u8> = Vec::new();
    valid_bases.push(BASE_A);
    valid_bases.push(BASE_T);
    valid_bases.push(BASE_C);
    valid_bases.push(BASE_G);
    proof {
        assert(valid_bases@.len() == 4);
        assert(valid_bases@[0] == BASE_A);
        assert(valid_bases@[1] == BASE_T);
        assert(valid_bases@[2] == BASE_C);
        assert(valid_bases@[3] == BASE_G);
        assert forall|b: u8| valid_bases@.contains(b) implies is_base(b) by {
            let m = choose|m: int| 0 <= m < valid_bases@.len() && valid_bases@[m] == b;
        }
        assert forall|b: u8| is_base(b) implies valid_bases@.contains(b) by {
            if b == BASE_A {
                assert(valid_bases@[0] == b);
            } else if b == BASE_T {
                assert(valid_bases@[1] == b);
            } else if b == BASE_C {
                assert(valid_bases@[2] == b);
            } else {
                assert(valid_bases@[3] == b);
            }
        }
    }
    let ghost vbs = valid_bases@;
    let first = find_first_valid_kmer(sequence, kmer_length, 0, valid_bases.as_slice());
    if first.is_none() {
        proof {
            assert forall|j: int| 0 <= j && j + gk <= gs.len() implies !window_valid(
                gs,
                j,
                gk,
            ) by {
                lemma_window_equiv(gs, vbs, j, gk);
            }
            assert forall|h: u64| table_count(kmer_table@, h) == kmer_count_one_mode(
                gs,
                gk,
                revcom_mode,
                h,
            ) by {
                if gs.len() - gk + 1 > 0 {
                    lemma_hits_upto_constant(gs, gk, h, 0, gs.len() - gk + 1);
                    if revcom_mode && (h as int) < pow4(gk as nat) {
                        lemma_hits_upto_constant(
                            gs,
                            gk,
                            rc_u64(h, gk as nat),
                            0,
                            gs.len() - gk + 1,
                        );
                    }
                }
            }
        }
        return kmer_table;
    }
    let (first_hash, first_end) = first.unwrap();
    kmer_table.increment(first_hash, 1);
    proof {
        let st = first_end - gk;
        lemma_window_equiv(gs, vbs, st, gk);
        assert(window_valid(gs, st, gk));
        assert forall|j: int| 0 <= j < st implies !window_valid(gs, j, gk) by {
            lemma_window_equiv(gs, vbs, j, gk);
        }
        assert forall|h: u64| table_count(kmer_table@, h) == hits_upto(gs, gk, h, st + 1) by {
            lemma_hits_upto_constant(gs, gk, h, 0, st);
            assert(gs.subrange(st, st + gk) == gs.subrange(st, first_end as int));
        }
    }
    let mut kmer_hash = first_hash;
    let mut i = first_end;
    let shift: u64 = 2 * (kmer_length as u64);
    proof {
        lemma2_to64();
        lemma2_to64_rest();
        lemma_u64_shl_is_mul(1u64, shift);
        assert((1u64 << shift) as int == pow4(kmer_length as nat));
        lemma_pow4_pos(kmer_length as nat);
    }
    let hash_mask: u64 = (1u64 << shift) - 1;
    while i < sequence_length
        invariant_except_break
            1 <= kmer_length <= 31,
            gk == kmer_length as int,
            gs == sequence@,
            vbs == valid_bases@,
            sequence_length == gs.len(),
            2 * gs.len() <= u32::MAX,
            forall|b: u8| vbs.contains(b) ==> is_base(b),
            forall|b: u8| is_base(b) ==> vbs.contains(b),
            kmer_length <= i <= sequence_length,
            shift == 2 * (kmer_length as u64),
            (1u64 << shift) as int == pow4(kmer_length as nat),
            hash_mask == (1u64 << shift) - 1,
            kmer_table.wf(),
            window_valid(gs, i - gk, gk),
            kmer_hash == hash_of(gs.subrange(i - gk, i as int)),
            forall|h: u64| table_count(kmer_table@, h) == hits_upto(gs, gk, h, i - gk + 1),
        ensures
            kmer_table.wf(),
            forall|h: u64| table_count(kmer_table@, h) == kmer_count_one(gs, gk, h),
        decreases sequence_length - i,
    {
        let base = sequence[i];
        if slice_contains(valid_bases.as_slice(), base) {
            let code = base_to_num(base);
            proof {
                let w = gs.subrange(i - gk, i as int);
                assert(w == gs.subrange(i - gk, i - gk + gk));
                assert(valid_kmer(w));
                assert(w.len() == gk);
                lemma_hash_of_bounds(w);
                assert(kmer_hash < (1u64 << shift));
                lemma_stream_mask_step(kmer_hash, code, shift);
                lemma_hash_of_slide(w, base);
                assert(w.subrange(1, gk) =~= gs.subrange(i - gk + 1, i as int));
                assert(w.subrange(1, gk).push(base) =~= gs.subrange(i - gk + 1, i + 1));
            }
            let new_hash = ((kmer_hash << 2) & hash_mask) | code;
            proof {
                assert(new_hash as int == (kmer_hash * 4 + code) % ((1u64 << shift) as int));
                assert(new_hash as int == hash_of(gs.subrange(i - gk + 1, i + 1)));
                assert forall|x: int|
                    0 <= x < gk implies is_base(
                    #[trigger] gs.subrange(i - gk + 1, i + 1)[x],
                ) by {
                    let w = gs.subrange(i - gk, i as int);
                    if x < gk - 1 {
                        assert(gs.subrange(i - gk + 1, i + 1)[x] == w[x + 1]);
                        assert(is_base(w[x + 1]));
                    } else {
                        assert(gs.subrange(i - gk + 1, i + 1)[x] == gs[i as int]);
                        assert(vbs.contains(gs[i as int]));
                    }
                }
                assert(window_valid(gs, i - gk + 1, gk));
                lemma_hits_upto_bounds(gs, gk, new_hash, i - gk + 1);
                assert(table_count(kmer_table@, new_hash) + 1 <= u32::MAX);
            }
            let ghost pre = kmer_table@;
            kmer_table.increment(new_hash, 1);
            proof {
                assert forall|h: u64| table_count(kmer_table@, h) == hits_upto(
                    gs,
                    gk,
                    h,
                    i - gk + 2,
                ) by {
                    assert(gs.subrange(i - gk + 1, i - gk + 1 + gk) == gs.subrange(
                        i - gk + 1,
                        i + 1,
                    ));
                    assert(hits_upto(gs, gk, h, i - gk + 2) == hits_upto(gs, gk, h, i - gk + 1)
                        + if window_valid(gs, i - gk + 1, gk) && hash_of(
                        gs.subrange(i - gk + 1, i - gk + 1 + gk),
                    ) == h {
                        1int
                    } else {
                        0int
                    });
                    if h != new_hash {
                        assert(table_count(kmer_table@, h) == table_count(pre, h));
                    }
                }
            }
            kmer_hash = new_hash;
            i = i + 1;
        } else {
            proof {
                assert(!is_base(gs[i as int]));
                assert forall|j: int| i - gk + 1 <= j < i + 1 implies !window_valid(
                    gs,
                    j,
                    gk,
                ) by {
                    if window_valid(gs, j, gk) {
                        assert(gs.subrange(j, j + gk)[i - j] == gs[i as int]);
                        assert(is_base(gs.subrange(j, j + gk)[i - j]));
                        assert(false);
                    }
                }
            }
            let next = find_first_valid_kmer(sequence, kmer_length, i + 1, valid_bases.as_slice());
            if next.is_none() {
                proof {
                    assert forall|j: int| i + 1 <= j && j + gk <= gs.len() implies !window_valid(
                        gs,
                        j,
                        gk,
                    ) by {
                        lemma_window_equiv(gs, vbs, j, gk);
                    }
                    assert forall|h: u64| table_count(kmer_table@, h) == kmer_count_one(
                        gs,
                        gk,
                        h,
                    ) by {
                        lemma_hits_upto_constant(gs, gk, h, i - gk + 1, gs.len() - gk + 1);
                    }
                }
                break ;
            }
            let (next_hash, next_end) = next.unwrap();
            proof {
                let st = next_end - gk;
                lemma_window_equiv(gs, vbs, st, gk);
                assert(window_valid(gs, st, gk));
                assert forall|j: int| i + 1 <= j < st implies !window_valid(gs, j, gk) by {
                    lemma_window_equiv(gs, vbs, j, gk);
                }
                lemma_hits_upto_bounds(gs, gk, next_hash, i - gk + 1);
                assert(table_count(kmer_table@, next_hash) + 1 <= u32::MAX);
            }
            let ghost pre = kmer_table@;
            kmer_table.increment(next_hash, 1);
            proof {
                let st = next_end - gk;
                assert forall|h: u64| table_count(kmer_table@, h) == hits_upto(
                    gs,
                    gk,
                    h,
                    st + 1,
                ) by {
                    lemma_hits_upto_constant(gs, gk, h, i - gk + 1, st);
                    assert(hits_upto(gs, gk, h, st + 1) == hits_upto(gs, gk, h, st) + if
                        window_valid(gs, st, gk) && hash_of(gs.subrange(st, st + gk)) == h {
                        1int
                    } else {
                        0int
                    });
                    assert(gs.subrange(st, st + gk) == gs.subrange(st, next_end as int));
                    if h != next_hash {
                        assert(table_count(kmer_table@, h) == table_count(pre, h));
                    }
                }
            }
            kmer_hash = next_hash;
            i = next_end;
        }
    }
    if revcom_mode {
        proof {
            assert forall|h: u64| table_count(kmer_table@, h) >= 1 implies (h as int) < pow4(
                kmer_length as nat,
            ) by {
                if (h as int) >= pow4(kmer_length as nat) {
                    lemma_hits_upto_high_zero(gs, gk, h, gs.len() - gk + 1);
                }
            }
        }
        let rc_t = revcom_table(&kmer_table, kmer_length);
        proof {
            assert forall|h: u64| table_count(kmer_table@, h) + table_count(rc_t@, h)
                <= u32::MAX by {
                lemma_hits_upto_bounds(gs, gk, h, gs.len() - gk + 1);
                if (h as int) < pow4(kmer_length as nat) {
                    lemma_hits_upto_bounds(gs, gk, rc_u64(h, kmer_length as nat), gs.len() - gk + 1);
                }
            }
        }
        add_table(&mut kmer_table, &rc_t);
    }
    kmer_table
}

} // verus!

verus! {

/// The summed length of a collection of sequences.
pub open spec fn total_len(seqs: Seq<Seq<u8>>) -> int
    decreases seqs.len(),
{
    if seqs.len() == 0 {
        0
    } else {
        total_len(seqs.drop_last()) + seqs.last().len()
    }
}

/// The count of `h` summed over a collection of sequences.
pub open spec fn kmer_count_multi(seqs: Seq<Seq<u8>>, k: int, revcom: bool, h: u64) -> int
    decreases seqs.len(),
{
    if seqs.len() == 0 {
        0
    } else {
        kmer_count_multi(seqs.drop_last(), k, revcom, h) + kmer_count_one_mode(
            seqs.last(),
            k,
            revcom,
            h,
        )
    }
}

/// Per-sequence counts are bounded by twice the sequence length.
proof fn lemma_count_one_mode_bound(s: Seq<u8>, k: int, revcom: bool, h: u64)
    requires
        k >= 1,
    ensures
        0 <= kmer_count_one_mode(s, k, revcom, h) <= 2 * s.len(),
{
    lemma_hits_upto_bounds(s, k, h, s.len() - k + 1);
    if revcom && (h as int) < pow4(k as nat) {
        lemma_hits_upto_bounds(s, k, rc_u64(h, k as nat), s.len() - k + 1);
    }
}

/// Summed counts are bounded by twice the summed length.
proof fn lemma_count_multi_bound(seqs: Seq<Seq<u8>>, k: int, revcom: bool, h: u64)
    requires
        k >= 1,
    ensures
        0 <= kmer_count_multi(seqs, k, revcom, h) <= 2 * total_len(seqs),
    decreases seqs.len(),
{
    if seqs.len() == 0 {
    } else {
        lemma_count_multi_bound(seqs.drop_last(), k, revcom, h);
        lemma_count_one_mode_bound(seqs.last(), k, revcom, h);
    }
}

/// A hash at or above `4^k` is never counted in any sequence.
pub proof fn lemma_kmer_count_one_high_zero(s: Seq<u8>, k: int, h: u64)
    requires
        k >= 1,
        h as int >= pow4(k as nat),
    ensures
        kmer_count_one_mode(s, k, true, h) == 0,
        kmer_count_one_mode(s, k, false, h) == 0,
{
    lemma_hits_upto_high_zero(s, k, h, s.len() - k + 1);
}

/// The summed length of a prefix is at most the whole summed length.
proof fn lemma_total_len_prefix(seqs: Seq<Seq<u8>>, n: int)
    requires
        0 <= n <= seqs.len(),
    ensures
        0 <= total_len(seqs.subrange(0, n)) <= total_len(seqs),
    decreases seqs.len(),
{
    if n == seqs.len() {
        assert(seqs.subrange(0, n) =~= seqs);
        if seqs.len() > 0 {
            lemma_total_len_prefix(seqs.drop_last(), (seqs.len() - 1) as int);
            assert(seqs.drop_last().subrange(0, seqs.len() - 1) =~= seqs.drop_last());
        }
    } else {
        lemma_total_len_prefix(seqs.drop_last(), n);
        assert(seqs.drop_last().subrange(0, n) =~= seqs.subrange(0, n));
    }
}

/// Counts the k-mers in a collection of sequences: per-sequence counts are
/// summed additively across the collection.
///
/// Fails when `kmer_length` exceeds 31, since the 64-bit hash domain cannot
/// hold such k-mers.
pub fn count_kmers_in_sequences(
    sequences: &[Vec<u8>],
    kmer_length: usize,
    revcom_mode: bool,
) -> (r: Result<KmerCountTable, KmerError>)
    requires
        kmer_length >= 1,
        forall|i: int| 0 <= i < sequences@.len() ==> seq_uppercase(#[trigger] sequences@[i]@),
        2 * total_len(sequences.deep_view()) <= u32::MAX,
    ensures
        match r {
            Ok(t) => kmer_length <= 31 && t.wf() && forall|h: u64|
                table_count(t@, h) == kmer_count_multi(
                    sequences.deep_view(),
                    kmer_length as int,
                    revcom_mode,
                    h,
                ),
            Err(e) => kmer_length > 31 && e == KmerError::LengthDomain(kmer_length),
        },
{
    if kmer_length > 31 {
        return Err(KmerError::LengthDomain(kmer_length));
    }
    let ghost deep = sequences.deep_view();
    proof {
        assert forall|i: int| 0 <= i < sequences@.len() implies #[trigger] sequences@[i]@
            =~= deep[i] by {}
        assert(deep.len() == sequences@.len());
    }
    let n = sequences.len();
    let mut kmer_table = KmerCountTable::new();
    let mut idx: usize = 0;
    while idx < n
        invariant
            0 <= idx <= n,
            1 <= kmer_length <= 31,
            n == sequences@.len(),
            deep == sequences.deep_view(),
            deep.len() == n,
            forall|i: int| 0 <= i < n ==> #[trigger] sequences@[i]@ =~= deep[i],
            forall|i: int| 0 <= i < n ==> seq_uppercase(#[trigger] sequences@[i]@),
            2 * total_len(deep) <= u32::MAX,
            kmer_table.wf(),
            forall|h: u64|
                table_count(kmer_table@, h) == kmer_count_multi(
                    deep.subrange(0, idx as int),
                    kmer_length as int,
                    revcom_mode,
                    h,
                ),
        decreases n - idx,
    {
        proof {
            lemma_total_len_prefix(deep, idx + 1);
            assert(deep.subrange(0, idx + 1).drop_last() =~= deep.subrange(0, idx as int));
            assert(deep.subrange(0, idx + 1).last() == deep[idx as int]);
            assert(total_len(deep.subrange(0, idx + 1)) == total_len(deep.subrange(0, idx as int))
                + deep[idx as int].len());
            lemma_total_len_prefix(deep, idx as int);
            assert(2 * deep[idx as int].len() <= u32::MAX);
        }
        let st = count_kmers_in_one_sequence(
            sequences[idx].as_slice(),
            kmer_length,
            revcom_mode,
        );
        proof {
            assert forall|h: u64| table_count(kmer_table@, h) + table_count(st@, h)
                <= u32::MAX by {
                lemma_count_multi_bound(
                    deep.subrange(0, idx as int),
                    kmer_length as int,
                    revcom_mode,
                    h,
                );
                lemma_count_one_mode_bound(deep[idx as int], kmer_length as int, revcom_mode, h);
            }
        }
        add_table(&mut kmer_table, &st);
        proof {
            assert forall|h: u64| table_count(kmer_table@, h) == kmer_count_multi(
                deep.subrange(0, idx + 1),
                kmer_length as int,
                revcom_mode,
                h,
            ) by {}
        }
        idx = idx + 1;
    }
    proof {
        assert(deep.subrange(0, n as int) =~= deep);
    }
    Ok(kmer_table)
}

} // verus!
