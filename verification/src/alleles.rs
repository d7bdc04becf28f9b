//! The allele writer's logic: for every record an allele table row built
//! from the locus name, the sequence's fingerprint and the algorithm tag; and
//! for the first record of a source its reference FASTA block.

use crate::encoding::fingerprint;
use crate::encoding::fingerprint_of;
use crate::fasta::parse_fasta;
use crate::fasta::read_fasta;
use crate::fasta::Record;
use crate::fasta::RecordView;
use vstd::prelude::*;

verus! {

/// The locus named by an identifier: its prefix before the first `_`, or the
/// whole identifier where it holds none.
pub open spec fn locus_of(id: Seq<char>) -> Seq<char>
    decreases id.len(),
{
    if id.len() == 0 {
        Seq::empty()
    } else if id[0] == '_' {
        Seq::empty()
    } else {
        seq![id[0]] + locus_of(id.skip(1))
    }
}

/// The tag naming the hash scheme behind every fingerprint.
pub open spec fn algorithm_tag() -> Seq<char> {
    seq!['m', 'd', '5']
}

/// One allele table row: locus, fingerprint and algorithm tag separated by
/// tabs, newline-terminated.
pub open spec fn allele_row_of(r: RecordView) -> Seq<char> {
    locus_of(r.id) + seq!['\t'] + fingerprint_of(r.seq) + seq!['\t'] + algorithm_tag()
        + seq!['\n']
}

/// One reference FASTA block: the record verbatim, as a header line and a
/// sequence line.
pub open spec fn reference_block_of(r: RecordView) -> Seq<char> {
    seq!['>'] + r.id + seq!['\n'] + r.seq + seq!['\n']
}

/// The prefix of `id` before the first `_` is `id.take(k)` where `k` is the
/// position of that `_`, or the whole identifier where none occurs.
proof fn lemma_locus_take(id: Seq<char>, k: int)
    requires
        0 <= k <= id.len(),
        forall|j: int| 0 <= j < k ==> id[j] != '_',
        k < id.len() ==> id[k] == '_',
    ensures
        locus_of(id) == id.take(k),
    decreases k,
{
    if id.len() == 0 {
        assert(id.take(k) =~= Seq::<char>::empty());
    } else if k == 0 {
        assert(id.take(0) =~= Seq::<char>::empty());
    } else {
        assert(id[0] != '_');
        let rest = id.skip(1);
        assert(forall|j: int| 0 <= j < k - 1 ==> #[trigger] rest[j] == id[j + 1]);
        lemma_locus_take(rest, k - 1);
        assert(seq![id[0]] + rest.take(k - 1) =~= id.take(k));
    }
}

/// The locus of a record's identifier: the text before the first `_`, or the
/// whole identifier where no `_` occurs.
pub fn locus(id: &str) -> (r: String)
    ensures
        r@ == locus_of(id@),
{
    let n = id.unicode_len();
    let mut k: usize = 0;
    while k < n && id.get_char(k) != '_'
        invariant
            n == id@.len(),
            k <= n,
            forall|j: int| 0 <= j < k ==> id@[j] != '_',
        decreases n - k,
    {
        k = k + 1;
    }
    proof {
        lemma_locus_take(id@, k as int);
    }
    let pre = id.substring_char(0, k);
    proof {
        assert(pre@ =~= id@.take(k as int));
    }
    pre.to_owned()
}

/// The allele table row for one record: `locus \t fingerprint \t md5 \n`.
pub fn allele_row(rec: &Record) -> (line: String)
    ensures
        line@ == allele_row_of(rec@),
{
    proof {
        reveal_strlit("\t");
        reveal_strlit("md5");
        reveal_strlit("\n");
    }
    let mut line = locus(rec.id.as_str());
    line.append("\t");
    let fp = fingerprint(rec.seq.as_str());
    line.append(fp.as_str());
    line.append("\t");
    line.append("md5");
    line.append("\n");
    proof {
        assert(line@ =~= allele_row_of(rec@));
    }
    line
}

/// The reference FASTA block for one record: `>identifier \n sequence \n`.
pub fn reference_block(rec: &Record) -> (s: String)
    ensures
        s@ == reference_block_of(rec@),
{
    proof {
        reveal_strlit(">");
        reveal_strlit("\n");
    }
    let mut s = String::new();
    s.append(">");
    s.append(rec.id.as_str());
    s.append("\n");
    s.append(rec.seq.as_str());
    s.append("\n");
    proof {
        assert(s@ =~= reference_block_of(rec@));
    }
    s
}

/// For an ordered record sequence, the allele table rows in the same order,
/// and — for the first record only — its reference block.
pub fn process_records(recs: &Vec<Record>) -> (out: (Vec<String>, Option<String>))
    ensures
        out.0@.len() == recs@.len(),
        forall|i: int|
            0 <= i < recs@.len() ==> #[trigger] out.0@[i]@ == allele_row_of(recs.deep_view()[i]),
        recs@.len() == 0 ==> out.1 is None,
        recs@.len() > 0 ==> out.1 is Some && out.1->0@ == reference_block_of(recs.deep_view()[0]),
{
    let mut rows: Vec<String> = Vec::new();
    let mut reference: Option<String> = None;
    let mut k: usize = 0;
    while k < recs.len()
        invariant
            k <= recs@.len(),
            rows@.len() == k,
            forall|i: int|
                0 <= i < k ==> #[trigger] rows@[i]@ == allele_row_of(recs.deep_view()[i]),
            k == 0 ==> reference is None,
            k > 0 ==> reference is Some && reference->0@ == reference_block_of(
                recs.deep_view()[0],
            ),
        decreases recs@.len() - k,
    {
        let rec = &recs[k];
        if k == 0 {
            reference = Some(reference_block(rec));
        }
        rows.push(allele_row(rec));
        k = k + 1;
    }
    (rows, reference)
}

/// The whole per-file pipeline on the lines of one FASTA source: parse the
/// records, and give back one allele row per record together with the first
/// record's reference block.
pub fn process_file_lines(lines: &Vec<String>) -> (out: (Vec<String>, Option<String>))
    ensures
        out.0@.len() == parse_fasta(lines.deep_view()).len(),
        forall|i: int|
            0 <= i < out.0@.len() ==> #[trigger] out.0@[i]@ == allele_row_of(
                parse_fasta(lines.deep_view())[i],
            ),
        parse_fasta(lines.deep_view()).len() == 0 ==> out.1 is None,
        parse_fasta(lines.deep_view()).len() > 0 ==> out.1 is Some && out.1->0@
            == reference_block_of(parse_fasta(lines.deep_view())[0]),
{
    let recs = read_fasta(lines);
    process_records(&recs)
}

} // verus!
