//! The FASTA reader: turns the lines of a text source, in order, into the
//! ordered sequence of records they describe. A header line starts with `>`
//! and carries the record's identifier; every other line is sequence text,
//! concatenated with no separator. Lines before the first header belong to no
//! record and are dropped.

use vstd::prelude::*;

verus! {

/// One FASTA record: the identifier from a header line, and the
/// concatenation of the sequence lines that followed it.
pub struct Record {
    pub id: String,
    pub seq: String,
}

/// The mathematical image of a record: both fields as character sequences.
pub ghost struct RecordView {
    pub id: Seq<char>,
    pub seq: Seq<char>,
}

impl View for Record {
    type V = RecordView;

    open spec fn view(&self) -> RecordView {
        RecordView { id: self.id@, seq: self.seq@ }
    }
}

impl DeepView for Record {
    type V = RecordView;

    open spec fn deep_view(&self) -> RecordView {
        self@
    }
}

/// A header line: non-empty and starting with the `>` marker.
pub open spec fn is_header(line: Seq<char>) -> bool {
    line.len() > 0 && line[0] == '>'
}

/// The records described by the given lines, with `cur` the record under
/// construction (`None` before the first header). A header finalizes the
/// record in progress and opens a new one; any other line extends the record
/// in progress and is dropped where none is.
pub open spec fn parse_fasta_from(lines: Seq<Seq<char>>, cur: Option<RecordView>) -> Seq<
    RecordView,
>
    decreases lines.len(),
{
    if lines.len() == 0 {
        match cur {
            Option::None => Seq::empty(),
            Option::Some(r) => seq![r],
        }
    } else {
        let line = lines[0];
        let rest = lines.skip(1);
        if is_header(line) {
            let opened = Option::Some(RecordView { id: line.skip(1), seq: Seq::empty() });
            match cur {
                Option::None => parse_fasta_from(rest, opened),
                Option::Some(r) => seq![r] + parse_fasta_from(rest, opened),
            }
        } else {
            match cur {
                Option::None => parse_fasta_from(rest, Option::None),
                Option::Some(r) => parse_fasta_from(
                    rest,
                    Option::Some(RecordView { id: r.id, seq: r.seq + line }),
                ),
            }
        }
    }
}

/// The records described by a full text source, line by line.
pub open spec fn parse_fasta(lines: Seq<Seq<char>>) -> Seq<RecordView> {
    parse_fasta_from(lines, Option::None)
}

/// The identifiers carried by the header lines, in order: for each header
/// line, its text after the `>` marker.
pub open spec fn header_ids(lines: Seq<Seq<char>>) -> Seq<Seq<char>>
    decreases lines.len(),
{
    if lines.len() == 0 {
        Seq::empty()
    } else if is_header(lines[0]) {
        seq![lines[0].skip(1)] + header_ids(lines.skip(1))
    } else {
        header_ids(lines.skip(1))
    }
}

/// The identifiers of a record sequence, in order.
pub open spec fn record_ids(rs: Seq<RecordView>) -> Seq<Seq<char>> {
    rs.map_values(|r: RecordView| r.id)
}

/// The concatenation of all given lines, with no separator.
pub open spec fn concat_lines(lines: Seq<Seq<char>>) -> Seq<char>
    decreases lines.len(),
{
    if lines.len() == 0 {
        Seq::empty()
    } else {
        lines[0] + concat_lines(lines.skip(1))
    }
}

proof fn lemma_record_ids_concat(x: Seq<RecordView>, y: Seq<RecordView>)
    ensures
        record_ids(x + y) == record_ids(x) + record_ids(y),
{
    assert(record_ids(x + y) =~= record_ids(x) + record_ids(y));
}

proof fn lemma_parse_from_ids(lines: Seq<Seq<char>>, cur: Option<RecordView>)
    ensures
        record_ids(parse_fasta_from(lines, cur)) == (match cur {
            Option::None => Seq::empty(),
            Option::Some(r) => seq![r.id],
        }) + header_ids(lines),
    decreases lines.len(),
{
    if lines.len() == 0 {
        match cur {
            Option::None => {
                assert(record_ids(Seq::empty()) =~= Seq::<Seq<char>>::empty() + header_ids(lines));
            },
            Option::Some(r) => {
                assert(record_ids(seq![r]) =~= seq![r.id] + header_ids(lines));
            },
        }
    } else {
        let line = lines[0];
        let rest = lines.skip(1);
        if is_header(line) {
            let opened = RecordView { id: line.skip(1), seq: Seq::empty() };
            lemma_parse_from_ids(rest, Option::Some(opened));
            match cur {
                Option::None => {
                    assert(seq![opened.id] + header_ids(rest) =~= header_ids(lines));
                    assert(Seq::<Seq<char>>::empty() + header_ids(lines) =~= header_ids(lines));
                },
                Option::Some(r) => {
                    lemma_record_ids_concat(seq![r], parse_fasta_from(rest, Option::Some(opened)));
                    assert(record_ids(seq![r]) =~= seq![r.id]);
                    assert(seq![r.id] + (seq![opened.id] + header_ids(rest)) =~= seq![r.id]
                        + header_ids(lines));
                },
            }
        } else {
            match cur {
                Option::None => {
                    lemma_parse_from_ids(rest, Option::None);
                },
                Option::Some(r) => {
                    let grown = RecordView { id: r.id, seq: r.seq + line };
                    lemma_parse_from_ids(rest, Option::Some(grown));
                },
            }
        }
    }
}

/// One record per header line: a source with N header lines yields exactly N
/// records, the i-th carrying as identifier the i-th header's text after the
/// `>` marker; a source with no header line yields no records.
pub proof fn lemma_parse_one_record_per_header(lines: Seq<Seq<char>>)
    ensures
        parse_fasta(lines).len() == header_ids(lines).len(),
        forall|i: int|
            0 <= i < parse_fasta(lines).len() ==> #[trigger] parse_fasta(lines)[i].id
                == header_ids(lines)[i],
{
    lemma_parse_from_ids(lines, Option::None);
    assert(Seq::<Seq<char>>::empty() + header_ids(lines) =~= header_ids(lines));
    assert forall|i: int| 0 <= i < parse_fasta(lines).len() implies #[trigger] parse_fasta(
        lines,
    )[i].id == header_ids(lines)[i] by {
        assert(record_ids(parse_fasta(lines))[i] == parse_fasta(lines)[i].id);
    }
}

proof fn lemma_parse_from_body_run(lines: Seq<Seq<char>>, r: RecordView, k: int)
    requires
        0 <= k <= lines.len(),
        forall|j: int| 0 <= j < k ==> !is_header(#[trigger] lines[j]),
        k < lines.len() ==> is_header(lines[k]),
    ensures
        parse_fasta_from(lines, Option::Some(r)) == seq![
            RecordView { id: r.id, seq: r.seq + concat_lines(lines.take(k)) },
        ] + parse_fasta_from(lines.skip(k), Option::None),
    decreases k,
{
    if k == 0 {
        assert(lines.take(0) =~= Seq::<Seq<char>>::empty());
        assert(r.seq + concat_lines(lines.take(0)) =~= r.seq);
        assert(RecordView { id: r.id, seq: r.seq + concat_lines(lines.take(0)) } == r);
        assert(lines.skip(0) =~= lines);
        if lines.len() == 0 {
            assert(seq![r] + parse_fasta_from(lines, Option::None) =~= seq![r]);
        } else {
            assert(is_header(lines[0]));
            let opened = RecordView { id: lines[0].skip(1), seq: Seq::empty() };
            assert(parse_fasta_from(lines, Option::None) == parse_fasta_from(
                lines.skip(1),
                Option::Some(opened),
            ));
        }
    } else {
        let line = lines[0];
        let rest = lines.skip(1);
        assert(!is_header(line));
        let grown = RecordView { id: r.id, seq: r.seq + line };
        assert(forall|j: int| 0 <= j < rest.len() ==> rest[j] == lines[j + 1]);
        lemma_parse_from_body_run(rest, grown, k - 1);
        assert(rest.take(k - 1) =~= lines.take(k).skip(1));
        assert(concat_lines(lines.take(k)) == lines.take(k)[0] + concat_lines(
            lines.take(k).skip(1),
        ));
        assert((r.seq + line) + concat_lines(rest.take(k - 1)) =~= r.seq + concat_lines(
            lines.take(k),
        ));
        assert(rest.skip(k - 1) =~= lines.skip(k));
    }
}

/// Block decomposition: where the first line is a header and the `k` lines
/// after it hold no header, the first record carries that header's text
/// after the marker and the concatenation of those `k` body lines, and the
/// remaining records are exactly those of the remaining lines. Applied
/// repeatedly this determines every record of a source.
pub proof fn lemma_parse_block(lines: Seq<Seq<char>>, k: int)
    requires
        lines.len() > 0,
        is_header(lines[0]),
        0 <= k <= lines.len() - 1,
        forall|j: int| 1 <= j < 1 + k ==> !is_header(#[trigger] lines[j]),
        1 + k < lines.len() ==> is_header(lines[1 + k]),
    ensures
        parse_fasta(lines) == seq![
            RecordView { id: lines[0].skip(1), seq: concat_lines(lines.subrange(1, 1 + k)) },
        ] + parse_fasta(lines.skip(1 + k)),
{
    let rest = lines.skip(1);
    let opened = RecordView { id: lines[0].skip(1), seq: Seq::empty() };
    assert(forall|j: int| 0 <= j < rest.len() ==> rest[j] == lines[j + 1]);
    lemma_parse_from_body_run(rest, opened, k);
    assert(rest.take(k) =~= lines.subrange(1, 1 + k));
    assert(Seq::<char>::empty() + concat_lines(rest.take(k)) =~= concat_lines(rest.take(k)));
    assert(rest.skip(k) =~= lines.skip(1 + k));
}

/// A source whose first line is its only header yields exactly one record:
/// the header's text after the marker as identifier, and the concatenation of
/// all following lines as sequence.
pub proof fn lemma_parse_single_record(lines: Seq<Seq<char>>)
    ensures
        lines.len() > 0 && is_header(lines[0]) && (forall|i: int|
            1 <= i < lines.len() ==> !is_header(#[trigger] lines[i])) ==> parse_fasta(lines)
            == seq![
            RecordView { id: lines[0].skip(1), seq: concat_lines(lines.skip(1)) },
        ],
{
    if lines.len() > 0 && is_header(lines[0]) && (forall|i: int|
        1 <= i < lines.len() ==> !is_header(#[trigger] lines[i])) {
        lemma_parse_block(lines, lines.len() - 1);
        assert(lines.subrange(1, lines.len() as int) =~= lines.skip(1));
        assert(lines.skip(lines.len() as int) =~= Seq::<Seq<char>>::empty());
        assert(parse_fasta(lines) =~= seq![
            RecordView { id: lines[0].skip(1), seq: concat_lines(lines.skip(1)) },
        ]);
    }
}

/// Parses the lines of a FASTA source into its records, in file order.
pub fn read_fasta(lines: &Vec<String>) -> (recs: Vec<Record>)
    ensures
        recs.deep_view() == parse_fasta(lines.deep_view()),
{
    let ghost ldv: Seq<Seq<char>> = lines.deep_view();
    let mut recs: Vec<Record> = Vec::new();
    let mut cur_id: String = String::new();
    let mut cur_seq: String = String::new();
    let mut started: bool = false;
    let mut i: usize = 0;
    proof {
        assert(ldv.skip(0) =~= ldv);
        assert(recs.deep_view() =~= Seq::<RecordView>::empty());
        assert(Seq::<RecordView>::empty() + parse_fasta(ldv) =~= parse_fasta(ldv));
    }
    while i < lines.len()
        invariant
            ldv == lines.deep_view(),
            ldv.len() == lines.len(),
            i <= lines.len(),
            recs.deep_view() + parse_fasta_from(
                ldv.skip(i as int),
                if started {
                    Option::Some(RecordView { id: cur_id@, seq: cur_seq@ })
                } else {
                    Option::None
                },
            ) == parse_fasta(ldv),
        decreases lines.len() - i,
    {
        let ghost cur: Option<RecordView> = if started {
            Option::Some(RecordView { id: cur_id@, seq: cur_seq@ })
        } else {
            Option::None
        };
        let line = &lines[i];
        let ls = line.as_str();
        let n = ls.unicode_len();
        proof {
            assert(ldv.skip(i as int)[0] == ldv[i as int]);
            assert(ldv[i as int] == line@);
            assert(ldv.skip(i as int).skip(1) =~= ldv.skip(i + 1));
        }
        if n > 0 && ls.get_char(0) == '>' {
            assert(is_header(line@));
            if started {
                let finished = Record { id: cur_id, seq: cur_seq };
                let ghost before = recs.deep_view();
                recs.push(finished);
                proof {
                    assert(recs.deep_view() =~= before.push(finished@));
                    assert(before.push(finished@) =~= before + seq![finished@]);
                }
            }
            let header = ls.substring_char(1, n);
            cur_id = header.to_owned();
            cur_seq = String::new();
            started = true;
            proof {
                assert(cur_id@ =~= line@.skip(1));
                assert(cur_seq@ =~= Seq::<char>::empty());
                assert(recs.deep_view() + parse_fasta_from(
                    ldv.skip(i + 1),
                    Option::Some(RecordView { id: cur_id@, seq: cur_seq@ }),
                ) =~= parse_fasta(ldv));
            }
        } else {
            assert(!is_header(line@));
            if started {
                cur_seq.append(ls);
            }
        }
        i = i + 1;
    }
    proof {
        assert(ldv.skip(ldv.len() as int) =~= Seq::<Seq<char>>::empty());
    }
    if started {
        let finished = Record { id: cur_id, seq: cur_seq };
        let ghost before = recs.deep_view();
        recs.push(finished);
        proof {
            assert(recs.deep_view() =~= before.push(finished@));
            assert(before.push(finished@) =~= before + seq![finished@]);
        }
    } else {
        proof {
            assert(recs.deep_view() + Seq::<RecordView>::empty() =~= recs.deep_view());
        }
    }
    recs
}

} // verus!
