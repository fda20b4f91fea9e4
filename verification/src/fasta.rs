//! The FASTA format as a function on bytes.
//!
//! A FASTA file is a sequence of lines. Lines are separated by a newline
//! byte; a carriage return at a line's end is dropped; a final line needs
//! no newline. Every record starts with a header line introduced by `>`;
//! the record's sequence is the concatenation of the following lines up to
//! the next header. Any line before the first header makes the input
//! invalid.

use vstd::prelude::*;

verus! {

/// Parsing errors of the FASTA reader.
#[derive(Debug, Clone, Copy, PartialEq, Eq, Structural)]
pub enum FastaError {
    /// The input has content before the first `>` header line.
    MissingHeader,
}

/// One record: the header line without its `>`, and the sequence bytes.
#[derive(Debug)]
pub struct FastaRecord {
    pub header: Vec<u8>,
    pub seq: Vec<u8>,
}

/// The lines from position `i` on, with `cur` the bytes of the current
/// line read so far: a newline ends the current line, and a non-empty
/// final line counts without one.
pub open spec fn lines_fold(s: Seq<u8>, i: int, cur: Seq<u8>) -> Seq<Seq<u8>>
    decreases s.len() - i,
{
    if i < 0 || i >= s.len() {
        if cur.len() == 0 {
            Seq::empty()
        } else {
            seq![cur]
        }
    } else if s[i] == 10 {
        seq![cur] + lines_fold(s, i + 1, Seq::empty())
    } else {
        lines_fold(s, i + 1, cur.push(s[i]))
    }
}

/// The lines of a byte sequence.
pub open spec fn lines_of(s: Seq<u8>) -> Seq<Seq<u8>> {
    lines_fold(s, 0, Seq::empty())
}

/// A line without its trailing carriage return, if it has one.
pub open spec fn strip_cr(line: Seq<u8>) -> Seq<u8> {
    if line.len() > 0 && line.last() == 13 {
        line.drop_last()
    } else {
        line
    }
}

/// Whether a line opens a record.
pub open spec fn is_header_line(line: Seq<u8>) -> bool {
    strip_cr(line).len() > 0 && strip_cr(line)[0] == 62
}

/// The records denoted by the lines from position `j` on, while a record
/// with header `cur_header` and sequence `cur_seq` is open: a header line
/// closes the open record and opens the next; any other line extends the
/// open record's sequence.
pub open spec fn fasta_fold(
    lines: Seq<Seq<u8>>,
    j: int,
    cur_header: Seq<u8>,
    cur_seq: Seq<u8>,
) -> Seq<(Seq<u8>, Seq<u8>)>
    decreases lines.len() - j,
{
    if j < 0 || j >= lines.len() {
        seq![(cur_header, cur_seq)]
    } else {
        let l = strip_cr(lines[j]);
        if is_header_line(lines[j]) {
            seq![(cur_header, cur_seq)] + fasta_fold(
                lines,
                j + 1,
                l.subrange(1, l.len() as int),
                Seq::empty(),
            )
        } else {
            fasta_fold(lines, j + 1, cur_header, cur_seq + l)
        }
    }
}

/// The records of a byte sequence: nothing for empty input, every record
/// in order when the first line is a header, and no value otherwise.
pub open spec fn fasta_records_of(s: Seq<u8>) -> Option<Seq<(Seq<u8>, Seq<u8>)>> {
    let lines = lines_of(s);
    if lines.len() == 0 {
        Some(Seq::empty())
    } else if is_header_line(lines[0]) {
        let l0 = strip_cr(lines[0]);
        Some(fasta_fold(lines, 1, l0.subrange(1, l0.len() as int), Seq::empty()))
    } else {
        None
    }
}

/// The header/sequence pairs a record list denotes.
pub open spec fn records_view(s: Seq<FastaRecord>) -> Seq<(Seq<u8>, Seq<u8>)> {
    Seq::new(s.len(), |i: int| (s[i].header@, s[i].seq@))
}

/// Splits bytes into lines.
fn split_lines(bytes: &[u8]) -> (r: Vec<Vec<u8>>)
    ensures
        r.deep_view() == lines_of(bytes@),
{
    let n = bytes.len();
    let mut done: Vec<Vec<u8>> = Vec::new();
    let mut cur: Vec<u8> = Vec::new();
    let mut i: usize = 0;
    while i < n
        invariant
            0 <= i <= n,
            n == bytes@.len(),
            lines_of(bytes@) == done.deep_view() + lines_fold(bytes@, i as int, cur@),
        decreases n - i,
    {
        let b = bytes[i];
        if b == 10 {
            let ghost pre = done.deep_view();
            done.push(cur);
            cur = Vec::new();
            proof {
                assert(done.deep_view() =~~= pre.push(done@.last()@));
                assert(done.deep_view() + lines_fold(bytes@, i + 1, cur@) =~~= pre + (seq![
                    done@.last()@
                ] + lines_fold(bytes@, i + 1, Seq::empty())));
            }
        } else {
            cur.push(b);
        }
        i = i + 1;
    }
    if cur.len() > 0 {
        let ghost pre = done.deep_view();
        done.push(cur);
        proof {
            assert(done.deep_view() =~~= pre.push(done@.last()@));
            assert(done.deep_view() =~~= pre + seq![done@.last()@]);
        }
    } else {
        proof {
            assert(done.deep_view() + lines_fold(bytes@, n as int, cur@) =~~= done.deep_view());
        }
    }
    done
}

/// A line without its trailing carriage return.
fn strip_cr_exec(line: Vec<u8>) -> (r: Vec<u8>)
    ensures
        r@ == strip_cr(line@),
{
    let mut line = line;
    let n = line.len();
    if n > 0 && line[n - 1] == 13 {
        let _ = line.pop();
    }
    line
}

/// Parses FASTA records from bytes.
///
/// Empty input yields no records; otherwise the first line must open a
/// record, and every later header line closes the record before it.
pub fn parse_fasta(bytes: &[u8]) -> (r: Result<Vec<FastaRecord>, FastaError>)
    ensures
        match r {
            Ok(records) => {
                let parsed = fasta_records_of(bytes@);
                &&& parsed is Some
                &&& records@.len() == parsed.unwrap().len()
                &&& forall|i: int|
                    0 <= i < records@.len() ==> (#[trigger] records@[i]).header@
                        == parsed.unwrap()[i].0 && records@[i].seq@ == parsed.unwrap()[i].1
            },
            Err(e) => fasta_records_of(bytes@) is None && e == FastaError::MissingHeader,
        },
{
    let lines = split_lines(bytes);
    let ghost glines = lines_of(bytes@);
    let n = lines.len();
    if n == 0 {
        return Ok(Vec::new());
    }
    proof {
        assert(lines.deep_view()[0] == lines@[0]@);
    }
    let mut lines = lines;
    let first = lines.remove(0);
    let first = strip_cr_exec(first);
    if first.len() == 0 || first[0] != 62 {
        proof {
            assert(!is_header_line(glines[0]));
        }
        return Err(FastaError::MissingHeader);
    }
    proof {
        assert(is_header_line(glines[0]));
    }
    let mut cur_header: Vec<u8> = Vec::new();
    let mut k: usize = 1;
    while k < first.len()
        invariant
            1 <= k <= first@.len(),
            cur_header@ == first@.subrange(1, k as int),
        decreases first@.len() - k,
    {
        cur_header.push(first[k]);
        proof {
            assert(cur_header@ =~= first@.subrange(1, k + 1));
        }
        k = k + 1;
    }
    proof {
        assert(cur_header@ =~= first@.subrange(1, first@.len() as int));
    }
    let mut cur_seq: Vec<u8> = Vec::new();
    let mut records: Vec<FastaRecord> = Vec::new();
    let ghost expected = fasta_fold(
        glines,
        1,
        strip_cr(glines[0]).subrange(1, strip_cr(glines[0]).len() as int),
        Seq::empty(),
    );
    let m = lines.len();
    proof {
        assert(lines.deep_view() =~= glines.subrange(1, glines.len() as int));
        assert forall|j: int| 0 <= j < m implies glines[j + 1] == #[trigger] lines@[j]@ by {
            assert(lines.deep_view()[j] == lines@[j]@);
        }
    }
    let mut j: usize = 0;
    while j < m
        invariant
            0 <= j <= m,
            m == lines@.len(),
            glines.len() == m + 1,
            forall|l: int| 0 <= l < m ==> glines[l + 1] == (#[trigger] lines@[l]@),
            expected == records_view(records@) + fasta_fold(
                glines,
                j + 1,
                cur_header@,
                cur_seq@,
            ),
        decreases m - j,
    {
        let line = clone_bytes(&lines[j]);
        let line = strip_cr_exec(line);
        let is_header = line.len() > 0 && line[0] == 62;
        proof {
            assert(strip_cr(glines[j + 1]) == line@);
            assert(is_header == is_header_line(glines[j + 1]));
        }
        if is_header {
            let ghost pre = records_view(records@);
            records.push(FastaRecord { header: cur_header, seq: cur_seq });
            let mut new_header: Vec<u8> = Vec::new();
            let mut k2: usize = 1;
            while k2 < line.len()
                invariant
                    1 <= k2 <= line@.len(),
                    new_header@ == line@.subrange(1, k2 as int),
                decreases line@.len() - k2,
            {
                new_header.push(line[k2]);
                proof {
                    assert(new_header@ =~= line@.subrange(1, k2 + 1));
                }
                k2 = k2 + 1;
            }
            proof {
                assert(new_header@ =~= line@.subrange(1, line@.len() as int));
            }
            cur_header = new_header;
            cur_seq = Vec::new();
            proof {
                assert(records_view(records@) =~= pre.push(
                    (records@.last().header@, records@.last().seq@),
                ));
                assert(records_view(records@) + fasta_fold(glines, j + 2, cur_header@, cur_seq@)
                    =~= pre + (seq![(records@.last().header@, records@.last().seq@)] + fasta_fold(
                    glines,
                    j + 2,
                    cur_header@,
                    cur_seq@,
                )));
            }
        } else {
            let ghost pre_seq = cur_seq@;
            append_bytes(&mut cur_seq, &line);
            proof {
                assert(cur_seq@ == pre_seq + line@);
            }
        }
        j = j + 1;
    }
    let ghost pre_final = records_view(records@);
    records.push(FastaRecord { header: cur_header, seq: cur_seq });
    proof {
        assert(records_view(records@) =~= pre_final.push(
            (records@.last().header@, records@.last().seq@),
        ));
        assert(expected =~= records_view(records@));
        assert forall|i: int| 0 <= i < records@.len() implies (#[trigger] records@[i]).header@
            == expected[i].0 && records@[i].seq@ == expected[i].1 by {
            assert(records_view(records@)[i] == (records@[i].header@, records@[i].seq@));
        }
    }
    Ok(records)
}

/// A copy of a byte vector.
fn clone_bytes(v: &Vec<u8>) -> (r: Vec<u8>)
    ensures
        r@ == v@,
{
    let n = v.len();
    let mut out: Vec<u8> = Vec::new();
    let mut i: usize = 0;
    while i < n
        invariant
            0 <= i <= n,
            n == v@.len(),
            out@ == v@.subrange(0, i as int),
        decreases n - i,
    {
        out.push(v[i]);
        proof {
            assert(out@ =~= v@.subrange(0, i + 1));
        }
        i = i + 1;
    }
    proof {
        assert(out@ =~= v@);
    }
    out
}

/// Appends the bytes of `src` to `dst`.
fn append_bytes(dst: &mut Vec<u8>, src: &Vec<u8>)
    ensures
        final(dst)@ == old(dst)@ + src@,
{
    let n = src.len();
    let mut i: usize = 0;
    while i < n
        invariant
            0 <= i <= n,
            n == src@.len(),
            dst@ == old(dst)@ + src@.subrange(0, i as int),
        decreases n - i,
    {
        dst.push(src[i]);
        proof {
            assert(dst@ =~= old(dst)@ + src@.subrange(0, i + 1));
        }
        i = i + 1;
    }
    proof {
        assert(dst@ =~= old(dst)@ + src@);
    }
}

} // verus!

verus! {

/// An ASCII lower-case letter raised to upper case; other bytes unchanged.
pub open spec fn upper_byte(b: u8) -> u8 {
    if 97 <= b <= 122 {
        (b - 32) as u8
    } else {
        b
    }
}

/// A byte sequence with every ASCII letter in upper case.
pub open spec fn upper_of(s: Seq<u8>) -> Seq<u8> {
    Seq::new(s.len(), |i: int| upper_byte(s[i]))
}

/// A copy of the bytes with every ASCII letter in upper case.
pub fn to_uppercase_ascii(v: &[u8]) -> (r: Vec<u8>)
    ensures
        r@ == upper_of(v@),
{
    let n = v.len();
    let mut out: Vec<u8> = Vec::new();
    let mut i: usize = 0;
    while i < n
        invariant
            0 <= i <= n,
            n == v@.len(),
            out@.len() == i,
            forall|j: int| 0 <= j < i ==> out@[j] == upper_byte(v@[j]),
        decreases n - i,
    {
        let b = v[i];
        if 97 <= b && b <= 122 {
            out.push(b - 32);
        } else {
            out.push(b);
        }
        i = i + 1;
    }
    proof {
        assert(out@ =~= upper_of(v@));
    }
    out
}

/// Loads the sequences of a FASTA input: one upper-cased byte vector per
/// record, in order.
pub fn fasta_sequences(bytes: &[u8]) -> (r: Result<Vec<Vec<u8>>, FastaError>)
    ensures
        match r {
            Ok(seqs) => {
                let parsed = fasta_records_of(bytes@);
                &&& parsed is Some
                &&& seqs@.len() == parsed.unwrap().len()
                &&& forall|i: int|
                    0 <= i < seqs@.len() ==> (#[trigger] seqs@[i])@ == upper_of(
                        parsed.unwrap()[i].1,
                    )
            },
            Err(e) => fasta_records_of(bytes@) is None && e == FastaError::MissingHeader,
        },
{
    let records = match parse_fasta(bytes) {
        Ok(rs) => rs,
        Err(e) => {
            return Err(e);
        },
    };
    let n = records.len();
    let mut out: Vec<Vec<u8>> = Vec::new();
    let mut i: usize = 0;
    while i < n
        invariant
            0 <= i <= n,
            n == records@.len(),
            out@.len() == i,
            forall|j: int|
                0 <= j < i ==> (#[trigger] out@[j])@ == upper_of(records@[j].seq@),
        decreases n - i,
    {
        let up = to_uppercase_ascii(records[i].seq.as_slice());
        out.push(up);
        i = i + 1;
    }
    Ok(out)
}

/// The records whose sequence is not empty, order kept.
pub open spec fn nonempty_records(rs: Seq<(Seq<u8>, Seq<u8>)>) -> Seq<(Seq<u8>, Seq<u8>)>
    decreases rs.len(),
{
    if rs.len() == 0 {
        Seq::empty()
    } else {
        nonempty_records(rs.drop_last()) + if rs.last().1.len() > 0 {
            seq![rs.last()]
        } else {
            Seq::empty()
        }
    }
}

/// Drops the records with an empty sequence.
///
/// Returns the kept records, the number removed, and the number seen.
pub fn remove_empty_records(records: Vec<FastaRecord>) -> (r: (Vec<FastaRecord>, usize, usize))
    ensures
        records_view(r.0@) == nonempty_records(records_view(records@)),
        r.2 == records@.len(),
        r.1 + r.0@.len() == records@.len(),
{
    let ghost orig = records_view(records@);
    let total = records.len();
    let mut rest = records;
    let mut kept: Vec<FastaRecord> = Vec::new();
    let mut removed: usize = 0;
    let mut idx: usize = 0;
    while idx < total
        invariant
            0 <= idx <= total,
            orig.len() == total,
            rest@.len() == total - idx,
            forall|j: int|
                0 <= j < rest@.len() ==> ((#[trigger] rest@[j]).header@, rest@[j].seq@) == orig[j
                    + idx],
            records_view(kept@) == nonempty_records(orig.subrange(0, idx as int)),
            removed + kept@.len() == idx,
        decreases total - idx,
    {
        let ghost pre_kept = records_view(kept@);
        let rec = rest.remove(0);
        proof {
            assert((rec.header@, rec.seq@) == orig[idx as int]);
            assert(orig.subrange(0, idx + 1).drop_last() =~= orig.subrange(0, idx as int));
        }
        if rec.seq.len() > 0 {
            kept.push(rec);
            proof {
                assert(records_view(kept@) =~= pre_kept.push(orig[idx as int]));
                assert(records_view(kept@) =~= nonempty_records(orig.subrange(0, idx + 1)));
            }
        } else {
            removed = removed + 1;
            proof {
                assert(records_view(kept@) =~= nonempty_records(orig.subrange(0, idx + 1)));
            }
        }
        idx = idx + 1;
    }
    proof {
        assert(orig.subrange(0, total as int) =~= orig);
    }
    (kept, removed, total)
}

/// One rendered record: `>`, the header, a newline, the sequence, a
/// newline.
pub open spec fn rendered_record(header: Seq<u8>, seq: Seq<u8>) -> Seq<u8> {
    seq![62u8] + header + seq![10u8] + seq + seq![10u8]
}

/// A rendered record list, in order.
pub open spec fn rendered_fasta(rs: Seq<(Seq<u8>, Seq<u8>)>) -> Seq<u8>
    decreases rs.len(),
{
    if rs.len() == 0 {
        Seq::empty()
    } else {
        rendered_fasta(rs.drop_last()) + rendered_record(rs.last().0, rs.last().1)
    }
}

/// Renders records back to FASTA bytes.
pub fn render_fasta(records: &Vec<FastaRecord>) -> (r: Vec<u8>)
    ensures
        r@ == rendered_fasta(records_view(records@)),
{
    let ghost rows = records_view(records@);
    let n = records.len();
    let mut out: Vec<u8> = Vec::new();
    let mut i: usize = 0;
    proof {
        assert(rows.subrange(0, 0) =~= Seq::<(Seq<u8>, Seq<u8>)>::empty());
    }
    while i < n
        invariant
            0 <= i <= n,
            n == records@.len(),
            rows == records_view(records@),
            out@ == rendered_fasta(rows.subrange(0, i as int)),
        decreases n - i,
    {
        let ghost pre = out@;
        out.push(62);
        append_bytes(&mut out, &records[i].header);
        out.push(10);
        append_bytes(&mut out, &records[i].seq);
        out.push(10);
        proof {
            assert(rows.subrange(0, i + 1).drop_last() =~= rows.subrange(0, i as int));
            assert(out@ =~= pre + rendered_record(rows[i as int].0, rows[i as int].1));
        }
        i = i + 1;
    }
    proof {
        assert(rows.subrange(0, n as int) =~= rows);
    }
    out
}

} // verus!
