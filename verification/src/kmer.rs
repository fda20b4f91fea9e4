//! The k-mer engine: 2-bit hashing of DNA subsequences and its inverse.
//!
//! A k-mer of length `L` over the alphabet `{A, C, G, T}` is encoded as an
//! unsigned integer with 2 bits per base (`A = 00`, `C = 01`, `G = 10`,
//! `T = 11`), most significant base first, so the hash space has size exactly
//! `4^L` and `L <= 31` fits comfortably in 64 bits.

use vstd::prelude::*;
use vstd::arithmetic::div_mod::*;
use vstd::arithmetic::mul::*;
use vstd::arithmetic::power2::*;
use vstd::bits::*;

verus! {

/// A 2-bit-per-base encoding of a DNA subsequence of length at most 31.
pub type KmerHash = u64;

/// ASCII `A`.
pub const BASE_A: u8 = 65;

/// ASCII `C`.
pub const BASE_C: u8 = 67;

/// ASCII `G`.
pub const BASE_G: u8 = 71;

/// ASCII `T`.
pub const BASE_T: u8 = 84;

/// Errors of the k-mer engine.
#[derive(Debug, Clone, PartialEq, Eq)]
pub enum KmerError {
    /// The input holds the given byte, which is not one of `A`, `C`, `G`, `T`.
    InvalidBase(u8),
    /// The requested k-mer length exceeds 31, so hashes would not fit 64 bits.
    LengthDomain(usize),
}

/// Whether a byte is one of the four valid bases.
pub open spec fn is_base(b: u8) -> bool {
    b == BASE_A || b == BASE_C || b == BASE_G || b == BASE_T
}

/// The 2-bit code of a valid base.
pub open spec fn base_code(b: u8) -> int {
    if b == BASE_A {
        0
    } else if b == BASE_C {
        1
    } else if b == BASE_G {
        2
    } else {
        3
    }
}

/// The base denoted by a 2-bit code.
pub open spec fn code_base(c: int) -> u8 {
    if c == 0 {
        BASE_A
    } else if c == 1 {
        BASE_C
    } else if c == 2 {
        BASE_G
    } else {
        BASE_T
    }
}

/// Whether every byte of a sequence is a valid base.
pub open spec fn valid_kmer(s: Seq<u8>) -> bool {
    forall|i: int| 0 <= i < s.len() ==> is_base(s[i])
}

/// `4^k`, the size of the hash space for k-mers of length `k`.
pub open spec fn pow4(k: nat) -> nat {
    pow2(2 * k)
}

/// The hash of a k-mer: 2 bits per base, most significant base first.
pub open spec fn hash_of(s: Seq<u8>) -> int
    decreases s.len(),
{
    if s.len() == 0 {
        0
    } else {
        hash_of(s.drop_last()) * 4 + base_code(s.last())
    }
}

/// The k-mer of length `len` denoted by a hash: 2-bit groups read from the
/// least significant end give the bases from last to first.
pub open spec fn kmer_of(h: int, len: nat) -> Seq<u8>
    decreases len,
{
    if len == 0 {
        Seq::empty()
    } else {
        kmer_of(h / 4, (len - 1) as nat).push(code_base(h % 4))
    }
}

/// A decoded k-mer has the requested length.
pub broadcast proof fn lemma_kmer_of_len(h: int, len: nat)
    ensures
        (#[trigger] kmer_of(h, len)).len() == len,
    decreases len,
{
    if len > 0 {
        lemma_kmer_of_len(h / 4, (len - 1) as nat);
    }
}

pub broadcast proof fn lemma_pow4_unfold(k: nat)
    requires
        k >= 1,
    ensures
        #[trigger] pow4(k) == 4 * pow4((k - 1) as nat),
{
    lemma_pow2_adds(2, 2 * (k - 1) as nat);
    lemma2_to64();
}

pub proof fn lemma_pow4_pos(k: nat)
    ensures
        pow4(k) >= 1,
{
    lemma_pow2_pos(2 * k);
}

/// `4^31` is the largest hash-space size the engine uses; it fits in 64 bits.
pub proof fn lemma_pow4_31()
    ensures
        pow4(31) == 0x4000000000000000,
{
    lemma2_to64_rest();
}

pub proof fn lemma_pow4_increases(j: nat, k: nat)
    requires
        j <= k,
    ensures
        pow4(j) <= pow4(k),
{
    if j < k {
        lemma_pow2_strictly_increases(2 * j, 2 * k);
    }
}

/// The hash of a valid k-mer lies in `[0, 4^len)`.
pub proof fn lemma_hash_of_bounds(s: Seq<u8>)
    requires
        valid_kmer(s),
    ensures
        0 <= hash_of(s) < pow4(s.len()),
    decreases s.len(),
{
    if s.len() == 0 {
        lemma_pow4_pos(0);
    } else {
        assert(valid_kmer(s.drop_last()));
        lemma_hash_of_bounds(s.drop_last());
        lemma_pow4_unfold(s.len());
        assert(0 <= base_code(s.last()) < 4);
    }
}

/// Decoding the hash of a valid k-mer of length up to 31 restores the k-mer.
pub proof fn lemma_kmer_hash_round_trip(s: Seq<u8>)
    requires
        valid_kmer(s),
        s.len() <= 31,
    ensures
        kmer_of(hash_of(s), s.len()) == s,
    decreases s.len(),
{
    if s.len() == 0 {
        assert(kmer_of(hash_of(s), 0) =~= s);
    } else {
        let p = s.drop_last();
        let b = s.last();
        assert(valid_kmer(p));
        lemma_hash_of_bounds(p);
        let h = hash_of(s);
        assert(h == hash_of(p) * 4 + base_code(b));
        assert(h / 4 == hash_of(p)) by {
            assert(0 <= base_code(b) < 4);
        }
        assert(h % 4 == base_code(b));
        assert(code_base(base_code(b)) == b);
        lemma_kmer_hash_round_trip(p);
        assert(kmer_of(h, s.len()) =~= s);
    }
}

/// x | c adds c into the two low zero bits of x.
proof fn lemma_or_low2_is_add(x: u64, c: u64)
    by (bit_vector)
    requires
        x % 4 == 0,
        c < 4,
    ensures
        (x | c) == x + c,
{
}

/// Converts a k-mer to its hash.
///
/// Left-shifts the accumulator by 2 per base and ORs in the 2-bit code of
/// the base; fails on the first byte outside `{A, C, G, T}`.
pub fn kmer2hash(kmer: &[u8]) -> (r: Result<KmerHash, KmerError>)
    requires
        kmer@.len() <= 31,
    ensures
        match r {
            Ok(h) => valid_kmer(kmer@) && h == hash_of(kmer@),
            Err(e) => !valid_kmer(kmer@) && exists|i: int|
                0 <= i < kmer@.len() && !is_base(kmer@[i]) && e == KmerError::InvalidBase(kmer@[i])
                    && (forall|j: int| 0 <= j < i ==> is_base(kmer@[j])),
        },
{
    let mut hash_value: u64 = 0;
    let mut i: usize = 0;
    proof {
        lemma_pow4_pos(0);
    }
    while i < kmer.len()
        invariant
            0 <= i <= kmer@.len() <= 31,
            forall|j: int| 0 <= j < i ==> is_base(kmer@[j]),
            hash_value == hash_of(kmer@.subrange(0, i as int)),
            hash_value < pow4(i as nat),
        decreases kmer@.len() - i,
    {
        let base = kmer[i];
        let code: u64 = match base {
            BASE_A => 0,
            BASE_C => 1,
            BASE_G => 2,
            BASE_T => 3,
            _ => {
                return Err(KmerError::InvalidBase(base));
            },
        };
        proof {
            lemma2_to64();
            lemma_pow4_increases(i as nat, 30);
            lemma_pow4_unfold(31);
            lemma_pow4_31();
            assert(hash_value * pow2(2) <= u64::MAX);
            lemma_u64_shl_is_mul(hash_value, 2);
            lemma_or_low2_is_add(hash_value << 2, code);
        }
        let shifted = hash_value << 2;
        let next = shifted | code;
        proof {
            let w = kmer@.subrange(0, i + 1);
            assert(w.drop_last() =~= kmer@.subrange(0, i as int));
            assert(w.last() == kmer@[i as int]);
            assert(next == hash_of(w));
            lemma_pow4_unfold((i + 1) as nat);
        }
        hash_value = next;
        i = i + 1;
    }
    proof {
        assert(kmer@.subrange(0, kmer@.len() as int) =~= kmer@);
    }
    Ok(hash_value)
}

/// The 2-bit group of `h` at position `j`, counted from the least
/// significant end.
pub open spec fn hash_group(h: int, j: nat) -> int {
    (h / pow4(j) as int) % 4
}

/// The complement of a base; bytes outside the alphabet are unchanged.
/// Lower-case bases (ASCII 97, 99, 103, 116) complement to upper case.
pub open spec fn complement_base(b: u8) -> u8 {
    if b == BASE_A || b == 97 {
        BASE_T
    } else if b == BASE_T || b == 116 {
        BASE_A
    } else if b == BASE_C || b == 99 {
        BASE_G
    } else if b == BASE_G || b == 103 {
        BASE_C
    } else {
        b
    }
}

/// The reverse complement of a sequence.
pub open spec fn revcom_of(s: Seq<u8>) -> Seq<u8> {
    Seq::new(s.len(), |i: int| complement_base(s[s.len() - 1 - i]))
}

/// The hash of the reverse complement of the k-mer a hash denotes: each
/// 2-bit group, read from the least significant end, is complemented by
/// `3 - code` and placed from the most significant end.
pub open spec fn revcom_hash_of(h: int, k: nat) -> int
    decreases k,
{
    if k == 0 {
        0
    } else {
        revcom_hash_of(h / 4, (k - 1) as nat) + (3 - h % 4) * pow4((k - 1) as nat)
    }
}

/// x & 3 is x % 4.
proof fn lemma_and3_is_mod4(x: u64)
    ensures
        x & 3 == x % 4,
{
    lemma2_to64();
    lemma_u64_low_bits_mask_is_mod(x, 2);
    assert(low_bits_mask(2) == 3);
}

/// x >> 2 is x / 4.
proof fn lemma_shr2_is_div4(x: u64)
    ensures
        x >> 2 == x / 4,
{
    lemma_u64_shr_is_div(x, 2);
    lemma2_to64();
}

/// Dividing twice by powers of four composes: (h / 4^t) / 4 == h / 4^(t+1).
proof fn lemma_div_pow4_step(h: int, t: nat)
    requires
        h >= 0,
    ensures
        (h / pow4(t) as int) / 4 == h / pow4((t + 1) as nat) as int,
{
    lemma_pow4_pos(t);
    lemma_div_denominator(h, pow4(t) as int, 4);
    lemma_pow4_unfold((t + 1) as nat);
    lemma_mul_is_commutative(pow4(t) as int, 4);
}

/// Dividing by four first composes the same way: (h / 4) / 4^m == h / 4^(m+1).
proof fn lemma_div4_then_pow4(h: int, m: nat)
    requires
        h >= 0,
    ensures
        (h / 4) / pow4(m) as int == h / pow4((m + 1) as nat) as int,
{
    lemma_pow4_pos(m);
    lemma_div_denominator(h, 4, pow4(m) as int);
    lemma_pow4_unfold((m + 1) as nat);
}

/// The zeroth group: dividing by `4^0` is the identity.
proof fn lemma_hash_group_0(h: int)
    ensures
        hash_group(h, 0) == h % 4,
        h / pow4(0) as int == h,
{
    lemma2_to64();
    lemma_div_basics(h);
}

/// A hash decomposes at the front: the most significant group is the code
/// of the first base.
pub proof fn lemma_hash_of_front(b: u8, y: Seq<u8>)
    ensures
        hash_of(seq![b] + y) == base_code(b) * pow4(y.len()) + hash_of(y),
    decreases y.len(),
{
    if y.len() == 0 {
        assert((seq![b] + y) =~= seq![b]);
        assert(seq![b].drop_last() =~= Seq::<u8>::empty());
        assert(hash_of(Seq::<u8>::empty()) == 0);
        assert(y =~= Seq::<u8>::empty());
        assert(seq![b].last() == b);
        assert(hash_of(seq![b]) == base_code(b));
        lemma2_to64();
        assert(pow4(y.len()) == 1);
        assert(base_code(b) * pow4(y.len()) == base_code(b));
    } else {
        let s = seq![b] + y;
        let n = y.len();
        assert(s.len() == n + 1);
        assert(s.drop_last() =~= seq![b] + y.drop_last());
        assert(s.last() == y.last());
        lemma_hash_of_front(b, y.drop_last());
        lemma_pow4_unfold(n);
        let c = base_code(b);
        let q = pow4((n - 1) as nat) as int;
        assert((c * q) * 4 == c * pow4(n)) by {
            lemma_mul_is_associative(c, q, 4);
            lemma_mul_is_commutative(q, 4);
            lemma_mul_is_associative(c, 4, q);
            lemma_mul_is_commutative(c, 4);
            lemma_mul_is_associative(4, c, q);
        }
        assert(hash_of(s) == hash_of(s.drop_last()) * 4 + base_code(s.last()));
        assert(hash_of(s.drop_last()) == c * q + hash_of(y.drop_last()));
        assert(hash_of(y) == hash_of(y.drop_last()) * 4 + base_code(y.last()));
        assert((c * q + hash_of(y.drop_last())) * 4 == (c * q) * 4 + hash_of(y.drop_last()) * 4);
    }
}

/// Each position of a decoded k-mer is the matching 2-bit group of the hash.
pub proof fn lemma_kmer_of_index(h: int, len: nat, idx: int)
    requires
        h >= 0,
        0 <= idx < len,
    ensures
        kmer_of(h, len)[idx] == code_base(hash_group(h, (len - 1 - idx) as nat)),
    decreases len,
{
    lemma_kmer_of_len(h / 4, (len - 1) as nat);
    if idx == len - 1 {
        lemma_hash_group_0(h);
    } else {
        lemma_kmer_of_index(h / 4, (len - 1) as nat, idx);
        lemma_div4_then_pow4(h, (len - 2 - idx) as nat);
    }
}

/// One step of the reverse-complement fold: the next group of `h` enters at
/// the least significant end of the accumulated result.
proof fn lemma_revcom_hash_of_step(h: int, t: nat)
    requires
        h >= 0,
    ensures
        revcom_hash_of(h, (t + 1) as nat) == 4 * revcom_hash_of(h, t) + (3 - hash_group(h, t)),
    decreases t,
{
    if t == 0 {
        lemma_hash_group_0(h);
        lemma2_to64();
        assert(revcom_hash_of(h / 4, 0) == 0);
        assert(revcom_hash_of(h, 0) == 0);
        assert(revcom_hash_of(h, 1) == (3 - h % 4) * pow4(0));
        assert(pow4(0) == 1);
        lemma_mul_basics(3 - h % 4);
        assert((3 - h % 4) * pow4(0) == 3 - h % 4);
    } else {
        lemma_revcom_hash_of_step(h / 4, (t - 1) as nat);
        lemma_div4_then_pow4(h, (t - 1) as nat);
        lemma_pow4_unfold(t);
        let a = 3 - h % 4;
        let q = pow4((t - 1) as nat) as int;
        assert(pow4(t) == 4 * q);
        assert(a * (4 * q) == 4 * (a * q)) by {
            lemma_mul_is_associative(a, 4, q);
            lemma_mul_is_commutative(a, 4);
            lemma_mul_is_associative(4, a, q);
        }
        assert(a * pow4(t) == a * (4 * q));
        assert(revcom_hash_of(h, (t + 1) as nat) == revcom_hash_of(h / 4, t) + a * pow4(t));
        assert(revcom_hash_of(h, t) == revcom_hash_of(h / 4, (t - 1) as nat) + a * q);
        assert(hash_group(h / 4, (t - 1) as nat) == hash_group(h, t));
    }
}

/// The reverse-complement hash lies in `[0, 4^k)`.
pub proof fn lemma_revcom_hash_of_bounds(h: int, k: nat)
    requires
        h >= 0,
    ensures
        0 <= revcom_hash_of(h, k) < pow4(k),
    decreases k,
{
    if k == 0 {
        lemma_pow4_pos(0);
    } else {
        lemma_revcom_hash_of_bounds(h / 4, (k - 1) as nat);
        lemma_pow4_unfold(k);
        lemma_pow4_pos((k - 1) as nat);
        assert((3 - h % 4) * pow4((k - 1) as nat) <= 3 * pow4((k - 1) as nat)) by {
            lemma_mul_inequality(3 - h % 4, 3, pow4((k - 1) as nat) as int);
        }
        assert((3 - h % 4) * pow4((k - 1) as nat) >= 0) by {
            lemma_mul_nonnegative(3 - h % 4, pow4((k - 1) as nat) as int);
        }
    }
}

/// The arithmetic reverse complement of a hash agrees with complementing
/// and reversing the k-mer it denotes, then hashing again.
pub proof fn lemma_revcom_hash_matches_sequence(h: int, k: nat)
    requires
        h >= 0,
    ensures
        revcom_hash_of(h, k) == hash_of(revcom_of(kmer_of(h, k))),
    decreases k,
{
    if k == 0 {
        assert(revcom_of(kmer_of(h, 0)) =~= Seq::<u8>::empty());
    } else {
        let x = kmer_of(h / 4, (k - 1) as nat);
        let b = code_base(h % 4);
        lemma_kmer_of_len(h / 4, (k - 1) as nat);
        assert(kmer_of(h, k) == x.push(b));
        assert(x.len() == k - 1);
        assert(revcom_of(x.push(b)) =~= seq![complement_base(b)] + revcom_of(x)) by {
            assert forall|i: int| 0 <= i < k implies revcom_of(x.push(b))[i] == (
            seq![complement_base(b)] + revcom_of(x))[i] by {
                if i > 0 {
                    assert(x.push(b)[k - 1 - i] == x[k - 1 - i]);
                }
            }
        }
        lemma_hash_of_front(complement_base(b), revcom_of(x));
        lemma_revcom_hash_matches_sequence(h / 4, (k - 1) as nat);
        assert(base_code(complement_base(b)) == 3 - h % 4);
        assert(revcom_of(x).len() == k - 1);
    }
}

/// Every byte of a decoded k-mer is a valid base.
pub proof fn lemma_kmer_of_valid(h: int, len: nat)
    ensures
        valid_kmer(kmer_of(h, len)),
    decreases len,
{
    if len > 0 {
        lemma_kmer_of_valid(h / 4, (len - 1) as nat);
        lemma_kmer_of_len(h / 4, (len - 1) as nat);
        assert(forall|i: int|
            0 <= i < len - 1 ==> kmer_of(h, len)[i] == kmer_of(h / 4, (len - 1) as nat)[i]);
    }
}

/// Hashing the k-mer a hash denotes restores the hash, for hashes in range.
pub proof fn lemma_hash_kmer_of(h: int, k: nat)
    requires
        0 <= h < pow4(k),
    ensures
        hash_of(kmer_of(h, k)) == h,
    decreases k,
{
    if k == 0 {
        lemma2_to64();
    } else {
        lemma_pow4_unfold(k);
        lemma_hash_kmer_of(h / 4, (k - 1) as nat);
        let p = kmer_of(h / 4, (k - 1) as nat);
        lemma_kmer_of_len(h / 4, (k - 1) as nat);
        assert(kmer_of(h, k) == p.push(code_base(h % 4)));
        assert(p.push(code_base(h % 4)).drop_last() =~= p);
        assert(base_code(code_base(h % 4)) == h % 4);
    }
}

/// The reverse complement of a valid sequence is valid.
pub proof fn lemma_revcom_of_valid(s: Seq<u8>)
    requires
        valid_kmer(s),
    ensures
        valid_kmer(revcom_of(s)),
{
}

/// Taking the reverse complement twice restores a valid sequence.
pub proof fn lemma_revcom_of_involution(s: Seq<u8>)
    requires
        valid_kmer(s),
    ensures
        revcom_of(revcom_of(s)) == s,
{
    assert(revcom_of(revcom_of(s)) =~= s);
}

/// The reverse-complement hash is an involution on hashes in range.
pub proof fn lemma_revcom_hash_involution(h: int, k: nat)
    requires
        0 <= h < pow4(k),
        k <= 31,
    ensures
        revcom_hash_of(revcom_hash_of(h, k), k) == h,
{
    let s = kmer_of(h, k);
    lemma_kmer_of_len(h, k);
    lemma_kmer_of_valid(h, k);
    lemma_revcom_hash_matches_sequence(h, k);
    lemma_revcom_hash_of_bounds(h, k);
    let rc = revcom_hash_of(h, k);
    lemma_revcom_hash_matches_sequence(rc, k);
    lemma_revcom_of_valid(s);
    lemma_hash_of_bounds(revcom_of(s));
    lemma_kmer_hash_round_trip(revcom_of(s));
    assert(kmer_of(rc, k) == revcom_of(s));
    lemma_revcom_of_involution(s);
    lemma_hash_kmer_of(h, k);
}

/// Converts a hash value back to the k-mer of the given length.
///
/// Extracts 2-bit groups from the least significant end and reverses them
/// to restore left-to-right base order.
pub fn hash2kmer(kmer_hash: KmerHash, kmer_length: usize) -> (r: Vec<u8>)
    ensures
        r@ == kmer_of(kmer_hash as int, kmer_length as nat),
{
    let mut kmer: Vec<u8> = Vec::new();
    let mut hash = kmer_hash;
    let mut t: usize = 0;
    proof {
        lemma_hash_group_0(kmer_hash as int);
    }
    while t < kmer_length
        invariant
            t <= kmer_length,
            kmer@.len() == t,
            hash as int == kmer_hash as int / pow4(t as nat) as int,
            forall|j: int| 0 <= j < t ==> kmer@[j] == code_base(hash_group(kmer_hash as int, j as nat)),
        decreases kmer_length - t,
    {
        let base = match hash & 3 {
            0u64 => BASE_A,
            1u64 => BASE_C,
            2u64 => BASE_G,
            _ => BASE_T,
        };
        proof {
            lemma_and3_is_mod4(hash);
            lemma_shr2_is_div4(hash);
            lemma_div_pow4_step(kmer_hash as int, t as nat);
            assert(base == code_base(hash_group(kmer_hash as int, t as nat)));
        }
        kmer.push(base);
        hash = hash >> 2;
        t = t + 1;
    }
    let mut out: Vec<u8> = Vec::new();
    let mut idx: usize = 0;
    while idx < kmer_length
        invariant
            idx <= kmer_length,
            out@.len() == idx,
            kmer@.len() == kmer_length,
            forall|j: int| 0 <= j < kmer_length ==> kmer@[j] == code_base(
                hash_group(kmer_hash as int, j as nat),
            ),
            forall|m: int| 0 <= m < idx ==> out@[m] == kmer_of(
                kmer_hash as int,
                kmer_length as nat,
            )[m],
        decreases kmer_length - idx,
    {
        let b = kmer[kmer_length - 1 - idx];
        proof {
            lemma_kmer_of_index(kmer_hash as int, kmer_length as nat, idx as int);
        }
        out.push(b);
        idx = idx + 1;
    }
    proof {
        lemma_kmer_of_len(kmer_hash as int, kmer_length as nat);
        assert(out@ =~= kmer_of(kmer_hash as int, kmer_length as nat));
    }
    out
}

/// Returns the reverse complement of a DNA sequence.
///
/// The order is reversed and `A` is swapped with `T`, `C` with `G` (lower
/// case included); any other byte is kept as it stands.
pub fn reverse_complement(seq: &[u8]) -> (r: Vec<u8>)
    ensures
        r@ == revcom_of(seq@),
{
    let n = seq.len();
    let mut out: Vec<u8> = Vec::new();
    let mut i: usize = 0;
    while i < n
        invariant
            i <= n,
            n == seq@.len(),
            out@.len() == i,
            forall|j: int| 0 <= j < i ==> out@[j] == complement_base(seq@[n - 1 - j]),
        decreases n - i,
    {
        let b = seq[n - 1 - i];
        let c = match b {
            65u8 | 97u8 => BASE_T,
            84u8 | 116u8 => BASE_A,
            67u8 | 99u8 => BASE_G,
            71u8 | 103u8 => BASE_C,
            _ => b,
        };
        out.push(c);
        i = i + 1;
    }
    proof {
        assert(out@ =~= revcom_of(seq@));
    }
    out
}

/// Calculates the hash of the reverse complement of a k-mer from the hash
/// of the k-mer alone.
///
/// Each of the `kmer_length` 2-bit groups, examined from the least
/// significant end upward, is complemented via `3 - code` and the group
/// order is reversed.
pub fn revcom_hash(kmer_hash: KmerHash, kmer_length: usize) -> (r: KmerHash)
    requires
        kmer_length <= 31,
    ensures
        r == revcom_hash_of(kmer_hash as int, kmer_length as nat),
{
    let mut rc_hash: u64 = 0;
    let mut temp_hash = kmer_hash;
    let mut t: usize = 0;
    proof {
        lemma_hash_group_0(kmer_hash as int);
        lemma_pow4_pos(0);
    }
    while t < kmer_length
        invariant
            t <= kmer_length <= 31,
            temp_hash as int == kmer_hash as int / pow4(t as nat) as int,
            rc_hash == revcom_hash_of(kmer_hash as int, t as nat),
            rc_hash < pow4(t as nat),
        decreases kmer_length - t,
    {
        proof {
            lemma2_to64();
            lemma_pow4_increases(t as nat, 30);
            lemma_pow4_unfold(31);
            lemma_pow4_31();
            assert(rc_hash * pow2(2) <= u64::MAX);
            lemma_u64_shl_is_mul(rc_hash, 2);
            lemma_and3_is_mod4(temp_hash);
            lemma_or_low2_is_add(rc_hash << 2, (3 - (temp_hash & 3)) as u64);
            lemma_shr2_is_div4(temp_hash);
            lemma_div_pow4_step(kmer_hash as int, t as nat);
            lemma_revcom_hash_of_step(kmer_hash as int, t as nat);
            lemma_revcom_hash_of_bounds(kmer_hash as int, (t + 1) as nat);
        }
        rc_hash = rc_hash << 2;
        rc_hash = rc_hash | (3 - (temp_hash & 3));
        temp_hash = temp_hash >> 2;
        t = t + 1;
    }
    rc_hash
}

} // verus!
