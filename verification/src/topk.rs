//! Selecting the most frequent k-mers from a count table, and rendering
//! them as a textual report.

use vstd::prelude::*;
use crate::kmer::KmerError;
use crate::kmer::kmer_of;
use crate::kmer::hash_of;
use crate::kmer::valid_kmer;
use crate::kmer::lemma_kmer_of_len;
use crate::kmer::lemma_kmer_of_valid;
use crate::kmer::lemma_hash_kmer_of;
use crate::kmer::pow4;
use crate::kmer::hash2kmer;
use crate::counting::count_kmers_in_sequences;
use crate::counting::kmer_count_multi;
use crate::counting::seq_uppercase;
use crate::counting::total_len;
use crate::table::KmerCountTable;
use crate::table::table_count;
use crate::table::distinct_keys;

verus! {

/// Counts never increase along the list.
pub open spec fn sorted_desc(s: Seq<(u64, u32)>) -> bool {
    forall|i: int, j: int| 0 <= i <= j < s.len() ==> s[i].1 >= s[j].1
}

/// Selects up to `top_n` entries with the largest counts from a table.
///
/// The result is sorted by count, largest first; it lists every key of the
/// table when the table has at most `top_n` keys, and otherwise `top_n`
/// keys whose counts dominate every key left out. Among equal counts the
/// choice of keys and their order are unspecified.
pub fn top_k_pairs(table: &KmerCountTable, top_n: usize) -> (r: Vec<(u64, u32)>)
    requires
        table.wf(),
        top_n >= 1,
    ensures
        r@.len() == (if top_n <= table@.dom().len() {
            top_n as int
        } else {
            table@.dom().len() as int
        }),
        sorted_desc(r@),
        distinct_keys(r@),
        forall|i: int|
            0 <= i < r@.len() ==> table@.dom().contains(#[trigger] r@[i].0) && table@[r@[i].0]
                == r@[i].1 && r@[i].1 >= 1,
        forall|h: u64|
            table@.dom().contains(h) ==> (exists|i: int| 0 <= i < r@.len() && r@[i].0 == h) || (
            r@.len() == top_n && table_count(table@, h) <= r@[r@.len() - 1].1),
{
    let ps = table.pairs();
    let mut remaining: Vec<(u64, u32)> = Vec::new();
    let n = ps.len();
    let mut q: usize = 0;
    while q < n
        invariant
            0 <= q <= n,
            n == ps@.len(),
            remaining@ == ps@.subrange(0, q as int),
        decreases n - q,
    {
        remaining.push(ps[q]);
        proof {
            assert(remaining@ =~= ps@.subrange(0, q + 1));
        }
        q = q + 1;
    }
    proof {
        assert(remaining@ =~= ps@);
    }
    let mut out: Vec<(u64, u32)> = Vec::new();
    while out.len() < top_n && remaining.len() > 0
        invariant
            table.wf(),
            out@.len() + remaining@.len() == table@.dom().len(),
            out@.len() <= top_n,
            sorted_desc(out@),
            forall|i: int|
                0 <= i < out@.len() ==> table@.dom().contains(#[trigger] out@[i].0)
                    && table@[out@[i].0] == out@[i].1 && out@[i].1 >= 1,
            forall|i: int|
                0 <= i < remaining@.len() ==> table@.dom().contains(#[trigger] remaining@[i].0)
                    && table@[remaining@[i].0] == remaining@[i].1 && remaining@[i].1 >= 1,
            forall|i: int, j: int| 0 <= i < j < out@.len() ==> out@[i].0 != out@[j].0,
            forall|i: int, j: int|
                0 <= i < j < remaining@.len() ==> remaining@[i].0 != remaining@[j].0,
            forall|i: int, j: int|
                0 <= i < out@.len() && 0 <= j < remaining@.len() ==> out@[i].0 != remaining@[j].0,
            forall|i: int, j: int|
                0 <= i < out@.len() && 0 <= j < remaining@.len() ==> out@[i].1 >= remaining@[j].1,
            forall|h: u64|
                table@.dom().contains(h) ==> (exists|i: int| 0 <= i < out@.len() && out@[i].0 == h)
                    || (exists|j: int| 0 <= j < remaining@.len() && remaining@[j].0 == h),
        decreases remaining@.len(),
    {
        let mut m: usize = 0;
        let mut j: usize = 1;
        while j < remaining.len()
            invariant
                0 <= m < j <= remaining@.len(),
                forall|l: int| 0 <= l < j ==> remaining@[l].1 <= remaining@[m as int].1,
            decreases remaining@.len() - j,
        {
            if remaining[j].1 > remaining[m].1 {
                m = j;
            }
            j = j + 1;
        }
        let ghost pre_rem = remaining@;
        let ghost pre_out = out@;
        let picked = remaining.remove(m);
        out.push(picked);
        proof {
            pre_rem.remove_ensures(m as int);
            assert(remaining@ == pre_rem.remove(m as int));
            assert(out@ == pre_out.push(picked));
            assert(picked == pre_rem[m as int]);
            assert forall|h: u64| table@.dom().contains(h) implies (exists|i: int|
                0 <= i < out@.len() && out@[i].0 == h) || (exists|j2: int|
                0 <= j2 < remaining@.len() && remaining@[j2].0 == h) by {
                if exists|i: int| 0 <= i < pre_out.len() && pre_out[i].0 == h {
                    let i = choose|i: int| 0 <= i < pre_out.len() && pre_out[i].0 == h;
                    assert(out@[i].0 == h);
                } else if exists|l: int| 0 <= l < pre_rem.len() && pre_rem[l].0 == h {
                    let l = choose|l: int| 0 <= l < pre_rem.len() && pre_rem[l].0 == h;
                    if l == m {
                        assert(out@[out@.len() - 1].0 == h);
                    } else if l < m {
                        assert(remaining@[l].0 == h);
                    } else {
                        assert(remaining@[l - 1].0 == h);
                    }
                }
            }
        }
    }
    proof {
        assert forall|h: u64| table@.dom().contains(h) implies (exists|i: int|
            0 <= i < out@.len() && out@[i].0 == h) || (out@.len() == top_n && table_count(
            table@,
            h,
        ) <= out@[out@.len() - 1].1) by {
            if !(exists|i: int| 0 <= i < out@.len() && out@[i].0 == h) {
                let j = choose|j: int| 0 <= j < remaining@.len() && remaining@[j].0 == h;
                assert(out@[out@.len() - 1].1 >= remaining@[j].1);
            }
        }
    }
    out
}

/// Converts hash/count pairs to k-mer/count pairs, decoding each hash as a
/// k-mer of the given length.
pub fn pairs_to_kmers(pairs: &Vec<(u64, u32)>, kmer_length: usize) -> (r: Vec<(Vec<u8>, u32)>)
    ensures
        r@.len() == pairs@.len(),
        forall|i: int|
            0 <= i < r@.len() ==> (#[trigger] r@[i]).0@ == kmer_of(
                pairs@[i].0 as int,
                kmer_length as nat,
            ) && r@[i].1 == pairs@[i].1,
{
    let n = pairs.len();
    let mut out: Vec<(Vec<u8>, u32)> = Vec::new();
    let mut i: usize = 0;
    while i < n
        invariant
            0 <= i <= n,
            n == pairs@.len(),
            out@.len() == i,
            forall|l: int|
                0 <= l < i ==> (#[trigger] out@[l]).0@ == kmer_of(
                    pairs@[l].0 as int,
                    kmer_length as nat,
                ) && out@[l].1 == pairs@[l].1,
        decreases n - i,
    {
        let pair = pairs[i];
        let kmer = hash2kmer(pair.0, kmer_length);
        out.push((kmer, pair.1));
        i = i + 1;
    }
    out
}

} // verus!

verus! {

/// Counts at or above `4^k` never occur: no valid window hashes there.
proof fn lemma_count_multi_high_zero(seqs: Seq<Seq<u8>>, k: int, revcom: bool, h: u64)
    requires
        k >= 1,
        h as int >= pow4(k as nat),
    ensures
        kmer_count_multi(seqs, k, revcom, h) == 0,
    decreases seqs.len(),
{
    if seqs.len() > 0 {
        lemma_count_multi_high_zero(seqs.drop_last(), k, revcom, h);
        crate::counting::lemma_kmer_count_one_high_zero(seqs.last(), k, h);
    }
}

/// Computes the most frequent k-mers across a collection of sequences.
///
/// Counts every k-mer, selects up to `top_n` hashes with the largest
/// counts, and decodes each selected hash back to its k-mer. Fails when
/// `kmer_length` exceeds 31.
pub fn compute_top_kmers(
    sequences: &[Vec<u8>],
    kmer_length: usize,
    revcom_mode: bool,
    top_n: usize,
) -> (r: Result<Vec<(Vec<u8>, u32)>, KmerError>)
    requires
        kmer_length >= 1,
        top_n >= 1,
        forall|i: int| 0 <= i < sequences@.len() ==> seq_uppercase(#[trigger] sequences@[i]@),
        2 * total_len(sequences.deep_view()) <= u32::MAX,
    ensures
        match r {
            Err(e) => kmer_length > 31 && e == KmerError::LengthDomain(kmer_length),
            Ok(v) => {
                let deep = sequences.deep_view();
                let k = kmer_length as int;
                &&& kmer_length <= 31
                &&& v@.len() <= top_n
                &&& forall|i: int|
                    0 <= i < v@.len() ==> valid_kmer((#[trigger] v@[i]).0@) && v@[i].0@.len()
                        == kmer_length && v@[i].1 >= 1 && v@[i].1 as int == kmer_count_multi(
                        deep,
                        k,
                        revcom_mode,
                        hash_of(v@[i].0@) as u64,
                    )
                &&& (forall|i: int, j: int| 0 <= i <= j < v@.len() ==> v@[i].1 >= v@[j].1)
                &&& (forall|i: int, j: int| 0 <= i < j < v@.len() ==> v@[i].0@ != v@[j].0@)
                &&& forall|h: u64|
                    kmer_count_multi(deep, k, revcom_mode, h) >= 1 ==> (exists|i: int|
                        0 <= i < v@.len() && v@[i].0@ == kmer_of(
                            h as int,
                            kmer_length as nat,
                        )) || (v@.len() == top_n && kmer_count_multi(deep, k, revcom_mode, h)
                        <= v@[v@.len() - 1].1)
            },
        },
{
    let ghost deep = sequences.deep_view();
    let ghost k = kmer_length as int;
    let table = match count_kmers_in_sequences(sequences, kmer_length, revcom_mode) {
        Ok(t) => t,
        Err(e) => {
            return Err(e);
        },
    };
    proof {
        table.lemma_wf_positive();
    }
    let pairs = top_k_pairs(&table, top_n);
    let kmers = pairs_to_kmers(&pairs, kmer_length);
    proof {
        assert forall|i: int|
            0 <= i < pairs@.len() implies (((#[trigger] pairs@[i].0) as int) < pow4(
            kmer_length as nat,
        )) by {
            assert(table@.dom().contains(pairs@[i].0));
            assert(table_count(table@, pairs@[i].0) == pairs@[i].1 as int);
            assert(table_count(table@, pairs@[i].0) == kmer_count_multi(
                deep,
                k,
                revcom_mode,
                pairs@[i].0,
            ));
            if pairs@[i].0 as int >= pow4(kmer_length as nat) {
                lemma_count_multi_high_zero(deep, k, revcom_mode, pairs@[i].0);
            }
        }
        assert forall|i: int|
            0 <= i < kmers@.len() implies valid_kmer((#[trigger] kmers@[i]).0@) && kmers@[i].0@.len()
            == kmer_length && kmers@[i].1 >= 1 && kmers@[i].1 as int == kmer_count_multi(
            deep,
            k,
            revcom_mode,
            hash_of(kmers@[i].0@) as u64,
        ) by {
            lemma_kmer_of_valid(pairs@[i].0 as int, kmer_length as nat);
            lemma_kmer_of_len(pairs@[i].0 as int, kmer_length as nat);
            lemma_hash_kmer_of(pairs@[i].0 as int, kmer_length as nat);
            assert(hash_of(kmers@[i].0@) == pairs@[i].0 as int);
            assert(hash_of(kmers@[i].0@) as u64 == pairs@[i].0);
            assert(table@.dom().contains(pairs@[i].0));
            assert(table_count(table@, pairs@[i].0) == pairs@[i].1 as int);
            assert(table_count(table@, pairs@[i].0) == kmer_count_multi(
                deep,
                k,
                revcom_mode,
                pairs@[i].0,
            ));
            assert(kmers@[i].1 == pairs@[i].1);
        }
        assert forall|i: int, j: int| 0 <= i < j < kmers@.len() implies kmers@[i].0@
            != kmers@[j].0@ by {
            lemma_hash_kmer_of(pairs@[i].0 as int, kmer_length as nat);
            lemma_hash_kmer_of(pairs@[j].0 as int, kmer_length as nat);
        }
        assert forall|h: u64| kmer_count_multi(deep, k, revcom_mode, h) >= 1 implies (exists|i: int|
            0 <= i < kmers@.len() && (#[trigger] kmers@[i]).0@ == kmer_of(
                h as int,
                kmer_length as nat,
            )) || (kmers@.len() == top_n && kmer_count_multi(deep, k, revcom_mode, h)
            <= kmers@[kmers@.len() - 1].1) by {
            assert(table_count(table@, h) >= 1);
            assert(table@.dom().contains(h));
            if exists|i: int| 0 <= i < pairs@.len() && pairs@[i].0 == h {
                let i = choose|i: int| 0 <= i < pairs@.len() && pairs@[i].0 == h;
                assert(kmers@[i].0@ == kmer_of(h as int, kmer_length as nat));
            }
        }
    }
    Ok(kmers)
}

/// One decimal digit per power of ten, most significant first.
pub open spec fn decimal_of(n: int) -> Seq<u8>
    decreases n,
{
    if n < 10 {
        seq![(48 + n) as u8]
    } else {
        decimal_of(n / 10).push((48 + n % 10) as u8)
    }
}

/// Appends the decimal digits of `n`.
fn push_decimal(n: u32, out: &mut Vec<u8>)
    ensures
        final(out)@ == old(out)@ + decimal_of(n as int),
    decreases n,
{
    if n < 10 {
        out.push(48 + (n as u8));
        proof {
            assert(final(out)@ =~= old(out)@ + decimal_of(n as int));
        }
    } else {
        push_decimal(n / 10, out);
        out.push(48 + ((n % 10) as u8));
        proof {
            assert(final(out)@ =~= old(out)@ + decimal_of(n as int));
        }
    }
}

/// The fixed header line of the report.
pub open spec fn report_header() -> Seq<u8> {
    seq![
        84u8, 111u8, 112u8, 32u8, 49u8, 48u8, 32u8, 107u8, 45u8, 109u8, 101u8, 114u8, 115u8, 32u8,
        97u8, 110u8, 100u8, 32u8, 116u8, 104u8, 101u8, 105u8, 114u8, 32u8, 99u8, 111u8, 117u8,
        110u8, 116u8, 115u8, 58u8, 10u8,
    ]
}

/// One report line: the k-mer, a colon and a space, the count, a newline.
pub open spec fn report_line(kmer: Seq<u8>, count: u32) -> Seq<u8> {
    kmer + seq![58u8, 32u8] + decimal_of(count as int) + seq![10u8]
}

/// The whole report: the header line, then one line per entry in order.
pub open spec fn report_of(rows: Seq<(Seq<u8>, u32)>) -> Seq<u8>
    decreases rows.len(),
{
    if rows.len() == 0 {
        report_header()
    } else {
        report_of(rows.drop_last()) + report_line(rows.last().0, rows.last().1)
    }
}

/// Renders the textual report listing each entry's k-mer and count.
pub fn render_top_kmers_report(entries: &Vec<(Vec<u8>, u32)>) -> (r: Vec<u8>)
    ensures
        r@ == report_of(entries.deep_view()),
{
    let ghost rows = entries.deep_view();
    let mut out: Vec<u8> = vec![
        84u8, 111u8, 112u8, 32u8, 49u8, 48u8, 32u8, 107u8, 45u8, 109u8, 101u8, 114u8, 115u8, 32u8,
        97u8, 110u8, 100u8, 32u8, 116u8, 104u8, 101u8, 105u8, 114u8, 32u8, 99u8, 111u8, 117u8,
        110u8, 116u8, 115u8, 58u8, 10u8,
    ];
    proof {
        assert(out@ =~= report_header());
        assert(rows.subrange(0, 0) =~= Seq::<(Seq<u8>, u32)>::empty());
    }
    let n = entries.len();
    let mut i: usize = 0;
    while i < n
        invariant
            0 <= i <= n,
            n == entries@.len(),
            rows == entries.deep_view(),
            rows.len() == n,
            out@ == report_of(rows.subrange(0, i as int)),
        decreases n - i,
    {
        let ghost pre = out@;
        let kmer = &entries[i].0;
        let m = kmer.len();
        let mut j: usize = 0;
        while j < m
            invariant
                0 <= j <= m,
                m == kmer@.len(),
                kmer@ == entries@[i as int].0@,
                i < entries@.len(),
                out@ == pre + kmer@.subrange(0, j as int),
            decreases m - j,
        {
            out.push(kmer[j]);
            proof {
                assert(out@ =~= pre + kmer@.subrange(0, j + 1));
            }
            j = j + 1;
        }
        proof {
            assert(kmer@.subrange(0, m as int) =~= kmer@);
        }
        out.push(58);
        out.push(32);
        push_decimal(entries[i].1, &mut out);
        out.push(10);
        proof {
            assert(rows.subrange(0, i + 1).drop_last() =~= rows.subrange(0, i as int));
            assert(rows.subrange(0, i + 1).last() == rows[i as int]);
            assert(rows[i as int].0 =~= entries@[i as int].0@);
            assert(rows[i as int].1 == entries@[i as int].1);
            assert(out@ =~= report_of(rows.subrange(0, i as int)) + report_line(
                rows[i as int].0,
                rows[i as int].1,
            ));
        }
        i = i + 1;
    }
    proof {
        assert(rows.subrange(0, n as int) =~= rows);
    }
    out
}

} // verus!
