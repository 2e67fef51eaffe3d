//! Parsing a FASTQ byte stream: four lines per record (`@header`, sequence,
//! `+separator`, quality), with framing checks and exact error reporting.

use vstd::prelude::*;

use crate::lines::lemma_split_concat;
use crate::lines::lemma_split_single;
use crate::lines::spec_lines;
use crate::lines::split_lines;
use crate::lines::split_seq;
use crate::lines::views;
use crate::record::record_lines;
use crate::record::renders;
use crate::record::spec_render;
use crate::record::wf_record;
use crate::record::FastqRecord;
use crate::record::FastqRecordModel;
use crate::scan::find_ws;
use crate::scan::first_ws_at;
use vstd::slice::slice_subrange;
use vstd::slice::slice_to_vec;

verus! {

/// A failure of the FASTQ pipeline, carrying the position or the
/// identifiers that witnessed it.
#[derive(Debug, Clone, PartialEq, Eq)]
pub enum FastqParseError {
    /// A header line does not begin with `@`.
    InvalidHeader { record_index: usize },
    /// A separator line does not begin with `+`.
    InvalidSeparator { record_index: usize },
    /// Sequence and quality lines differ in length.
    LengthMismatch { record_index: usize },
    /// The input ends in the middle of a record.
    Truncated { record_index: usize },
    /// A record pair carries two different identifiers.
    FastqPairError { read1_id: Vec<u8>, read2_id: Vec<u8> },
    /// Two mate batches carry different record counts.
    CountMismatch { len1: usize, len2: usize },
}

/// The models of a sequence of records.
pub open spec fn models(rs: Seq<FastqRecord>) -> Seq<FastqRecordModel> {
    rs.map_values(|r: FastqRecord| r@)
}

/// The read identifier of a header line: the bytes between the leading `@`
/// and the first whitespace.
pub open spec fn header_id(l0: Seq<u8>) -> Seq<u8> {
    let rest = l0.drop_first();
    rest.subrange(0, first_ws_at(rest))
}

/// The record framed by four valid lines.
pub open spec fn spec_parse_record(l0: Seq<u8>, l1: Seq<u8>, l2: Seq<u8>, l3: Seq<u8>)
    -> FastqRecordModel {
    FastqRecordModel { id: header_id(l0), seq: l1, qual: l3 }
}

/// Parses lines four at a time into records; `rec` is the index of the first
/// record, used in error positions.
pub open spec fn spec_parse_fastq(lines: Seq<Seq<u8>>, rec: int) -> Result<
    Seq<FastqRecordModel>,
    FastqParseError,
>
    decreases lines.len(),
{
    if lines.len() == 0 {
        Ok(Seq::empty())
    } else if lines.len() < 4 {
        Err(FastqParseError::Truncated { record_index: rec as usize })
    } else if !(lines[0].len() >= 1 && lines[0][0] == 64) {
        Err(FastqParseError::InvalidHeader { record_index: rec as usize })
    } else if !(lines[2].len() >= 1 && lines[2][0] == 43) {
        Err(FastqParseError::InvalidSeparator { record_index: rec as usize })
    } else if lines[1].len() != lines[3].len() {
        Err(FastqParseError::LengthMismatch { record_index: rec as usize })
    } else {
        match spec_parse_fastq(lines.skip(4), rec + 1) {
            Ok(rs) => Ok(seq![spec_parse_record(lines[0], lines[1], lines[2], lines[3])] + rs),
            Err(e) => Err(e),
        }
    }
}

/// Parses a sequence of lines as FASTQ records, exactly as
/// `spec_parse_fastq` describes.
pub fn parse_fastq_lines(lines: &Vec<Vec<u8>>) -> (r: Result<Vec<FastqRecord>, FastqParseError>)
    ensures
        match r {
            Ok(rs) => spec_parse_fastq(views(lines@), 0) == Ok::<_, FastqParseError>(models(rs@)),
            Err(e) => spec_parse_fastq(views(lines@), 0) == Err::<Seq<FastqRecordModel>, _>(e),
        },
{
    let ghost all = views(lines@);
    let mut out: Vec<FastqRecord> = Vec::new();
    let mut pos: usize = 0;
    proof {
        assert(all.skip(0) =~= all);
    }
    while pos < lines.len()
        invariant
            pos == 4 * out@.len(),
            pos <= lines@.len(),
            all == views(lines@),
            forall|rs: Seq<FastqRecordModel>|
                spec_parse_fastq(all.skip(pos as int), out@.len() as int) == Ok::<_,
                    FastqParseError,
                >(rs) ==> spec_parse_fastq(all, 0) == Ok::<_, FastqParseError>(models(out@) + rs),
            forall|e: FastqParseError|
                spec_parse_fastq(all.skip(pos as int), out@.len() as int) == Err::<
                    Seq<FastqRecordModel>,
                    _,
                >(e) ==> spec_parse_fastq(all, 0) == Err::<Seq<FastqRecordModel>, _>(e),
        decreases lines@.len() - pos,
    {
        let ghost rest = all.skip(pos as int);
        let ghost rec = out@.len() as int;
        if lines.len() - pos < 4 {
            proof {
                assert(rest.len() < 4 && rest.len() != 0);
            }
            return Err(FastqParseError::Truncated { record_index: out.len() });
        }
        let l0 = &lines[pos];
        let l1 = &lines[pos + 1];
        let l2 = &lines[pos + 2];
        let l3 = &lines[pos + 3];
        proof {
            assert(rest[0] == all[pos as int] && rest[1] == all[pos + 1] && rest[2] == all[pos + 2]
                && rest[3] == all[pos + 3]);
        }
        if l0.len() == 0 || l0[0] != 64 {
            return Err(FastqParseError::InvalidHeader { record_index: out.len() });
        }
        if l2.len() == 0 || l2[0] != 43 {
            return Err(FastqParseError::InvalidSeparator { record_index: out.len() });
        }
        if l1.len() != l3.len() {
            return Err(FastqParseError::LengthMismatch { record_index: out.len() });
        }
        let hdr = slice_subrange(l0.as_slice(), 1, l0.len());
        assert(hdr@ =~= l0@.drop_first());
        let w = find_ws(hdr);
        proof {
            crate::scan::lemma_first_ws_at(hdr@);
        }
        let id = slice_to_vec(slice_subrange(hdr, 0, w));
        let seq = slice_to_vec(l1.as_slice());
        let qual = slice_to_vec(l3.as_slice());
        let record = FastqRecord { id, seq, qual };
        proof {
            assert(record@ == spec_parse_record(rest[0], rest[1], rest[2], rest[3]));
            assert(rest.skip(4) =~= all.skip(pos + 4));
            assert forall|rs: Seq<FastqRecordModel>|
                spec_parse_fastq(all.skip(pos + 4), rec + 1) == Ok::<_, FastqParseError>(rs)
                implies spec_parse_fastq(all, 0) == Ok::<_, FastqParseError>(models(
                out@.push(record),
            ) + rs) by {
                assert(spec_parse_fastq(rest, rec) == Ok::<_, FastqParseError>(
                    seq![record@] + rs,
                ));
                assert(models(out@.push(record)) + rs =~= models(out@) + (seq![record@] + rs));
            }
        }
        out.push(record);
        pos = pos + 4;
    }
    proof {
        assert(all.skip(pos as int).len() == 0);
        assert(spec_parse_fastq(all.skip(pos as int), out@.len() as int) == Ok::<_,
            FastqParseError,
        >(Seq::<FastqRecordModel>::empty()));
        assert(models(out@) + Seq::<FastqRecordModel>::empty() =~= models(out@));
    }
    Ok(out)
}

/// Parses a whole FASTQ byte stream: its lines, four per record.
pub fn parse_fastq(data: &[u8]) -> (r: Result<Vec<FastqRecord>, FastqParseError>)
    ensures
        match r {
            Ok(rs) => spec_parse_fastq(spec_lines(data@), 0) == Ok::<_, FastqParseError>(
                models(rs@),
            ),
            Err(e) => spec_parse_fastq(spec_lines(data@), 0) == Err::<Seq<FastqRecordModel>, _>(e),
        },
{
    let lines = split_lines(data);
    parse_fastq_lines(&lines)
}

/// Every record of `rs` is well formed.
pub open spec fn all_wf(rs: Seq<FastqRecordModel>) -> bool {
    forall|i: int| 0 <= i < rs.len() ==> wf_record(#[trigger] rs[i])
}

/// Splitting a rendered record followed by further bytes yields its four
/// lines, then the split of the rest.
proof fn lemma_split_render(r: FastqRecordModel, tail: Seq<u8>)
    requires
        wf_record(r),
    ensures
        split_seq(spec_render(r) + tail, 10) == seq![seq![64u8] + r.id, r.seq, seq![43u8], r.qual]
            + split_seq(tail, 10),
{
    let hdr = seq![64u8] + r.id;
    let s3 = r.qual + seq![10u8] + tail;
    let s2 = seq![43u8] + seq![10u8] + s3;
    let s1 = r.seq + seq![10u8] + s2;
    let s0 = hdr + seq![10u8] + s1;
    lemma_split_concat(r.qual, tail, 10);
    lemma_split_concat(seq![43u8], s3, 10);
    lemma_split_concat(r.seq, s2, 10);
    lemma_split_concat(hdr, s1, 10);
    assert(spec_render(r) + tail =~= s0);
    assert(seq![hdr] + (seq![r.seq] + (seq![seq![43u8]] + (seq![r.qual] + split_seq(tail, 10))))
        =~= seq![hdr, r.seq, seq![43u8], r.qual] + split_seq(tail, 10));
}

/// The rendering of a non-empty record sequence is non-empty and ends in a
/// newline.
proof fn lemma_renders_last(rs: Seq<FastqRecordModel>)
    requires
        rs.len() > 0,
    ensures
        renders(rs).len() > 0,
        renders(rs).last() == 10,
    decreases rs.len(),
{
    if rs.len() == 1 {
        assert(renders(rs.drop_first()) =~= Seq::empty());
        assert(renders(rs) =~= spec_render(rs.first()));
    } else {
        lemma_renders_last(rs.drop_first());
    }
}

/// Splitting the rendering of well-formed records, without its final
/// newline, yields exactly their lines.
proof fn lemma_record_lines_of_split(rs: Seq<FastqRecordModel>)
    requires
        rs.len() > 0,
        all_wf(rs),
    ensures
        split_seq(renders(rs).drop_last(), 10) == record_lines(rs),
    decreases rs.len(),
{
    let r = rs.first();
    let rest = rs.drop_first();
    let hdr = seq![64u8] + r.id;
    if rs.len() == 1 {
        let s2 = seq![43u8] + seq![10u8] + r.qual;
        let s1 = r.seq + seq![10u8] + s2;
        let s0 = hdr + seq![10u8] + s1;
        lemma_split_single(r.qual, 10);
        lemma_split_concat(seq![43u8], r.qual, 10);
        lemma_split_concat(r.seq, s2, 10);
        lemma_split_concat(hdr, s1, 10);
        assert(renders(rest) =~= Seq::empty());
        assert(renders(rs) =~= spec_render(r));
        assert(renders(rs).drop_last() =~= s0);
        assert(record_lines(rest) =~= Seq::empty());
        assert(seq![hdr] + (seq![r.seq] + (seq![seq![43u8]] + seq![r.qual])) =~= record_lines(rs));
    } else {
        assert(all_wf(rest)) by {
            assert(forall|i: int| 0 <= i < rest.len() ==> rest[i] == rs[i + 1]);
        }
        lemma_renders_last(rest);
        lemma_record_lines_of_split(rest);
        assert(renders(rs).drop_last() =~= spec_render(r) + renders(rest).drop_last());
        lemma_split_render(r, renders(rest).drop_last());
        assert(seq![hdr, r.seq, seq![43u8], r.qual] + record_lines(rest) =~= record_lines(rs));
    }
}

/// The lines of the rendering of well-formed records are exactly their
/// record lines.
pub proof fn lemma_lines_of_renders(rs: Seq<FastqRecordModel>)
    requires
        all_wf(rs),
    ensures
        spec_lines(renders(rs)) == record_lines(rs),
{
    if rs.len() == 0 {
        assert(renders(rs) =~= Seq::empty());
        assert(spec_lines(renders(rs)) =~= record_lines(rs));
    } else {
        lemma_renders_last(rs);
        lemma_record_lines_of_split(rs);
    }
}

/// Parsing the lines of well-formed records recovers exactly those records.
pub proof fn lemma_parse_record_lines(rs: Seq<FastqRecordModel>, rec: int)
    requires
        all_wf(rs),
    ensures
        spec_parse_fastq(record_lines(rs), rec) == Ok::<_, FastqParseError>(rs),
    decreases rs.len(),
{
    if rs.len() == 0 {
        assert(record_lines(rs) =~= Seq::<Seq<u8>>::empty());
        assert(rs =~= Seq::<FastqRecordModel>::empty());
    } else {
        let r = rs.first();
        let rest = rs.drop_first();
        let hdr = seq![64u8] + r.id;
        let ls = record_lines(rs);
        assert(all_wf(rest)) by {
            assert(forall|i: int| 0 <= i < rest.len() ==> rest[i] == rs[i + 1]);
        }
        lemma_parse_record_lines(rest, rec + 1);
        assert(ls[0] == hdr && ls[1] == r.seq && ls[2] == seq![43u8] && ls[3] == r.qual);
        assert(ls.skip(4) =~= record_lines(rest));
        assert(header_id(hdr) == r.id) by {
            assert(hdr.drop_first() =~= r.id);
            crate::scan::lemma_first_ws_at_unique(r.id, r.id.len() as int);
            assert(r.id.subrange(0, r.id.len() as int) =~= r.id);
        }
        assert(spec_parse_record(ls[0], ls[1], ls[2], ls[3]) == r);
        assert(seq![r] + rest =~= rs);
    }
}

/// Rendering well-formed records and parsing the rendered byte stream back
/// yields exactly the records that were rendered.
pub proof fn lemma_render_parse_roundtrip(rs: Seq<FastqRecordModel>)
    requires
        all_wf(rs),
    ensures
        spec_parse_fastq(spec_lines(renders(rs)), 0) == Ok::<_, FastqParseError>(rs),
{
    lemma_lines_of_renders(rs);
    lemma_parse_record_lines(rs, 0);
}

}
