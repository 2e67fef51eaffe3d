//! FASTQ records and their canonical rendering: `@id`, sequence, `+`,
//! quality, each line terminated by a single line feed.

use vstd::prelude::*;

use crate::scan::is_ws;
use crate::scan::push_bytes;

verus! {

/// One FASTQ record. The identifier is the header text up to the first
/// whitespace; the separator line is re-emitted canonically as a bare `+`.
#[derive(Debug, Clone)]
pub struct FastqRecord {
    pub id: Vec<u8>,
    pub seq: Vec<u8>,
    pub qual: Vec<u8>,
}

/// The mathematical model of a record: its three fields as byte sequences.
pub ghost struct FastqRecordModel {
    pub id: Seq<u8>,
    pub seq: Seq<u8>,
    pub qual: Seq<u8>,
}

impl View for FastqRecord {
    type V = FastqRecordModel;

    open spec fn view(&self) -> FastqRecordModel {
        FastqRecordModel { id: self.id@, seq: self.seq@, qual: self.qual@ }
    }
}

/// A record whose rendering parses back to itself: sequence and quality are
/// of equal length, no field holds a newline, and the identifier holds no
/// whitespace.
pub open spec fn wf_record(r: FastqRecordModel) -> bool {
    &&& r.seq.len() == r.qual.len()
    &&& forall|j: int| 0 <= j < r.id.len() ==> r.id[j] != 10 && !is_ws(r.id[j])
    &&& forall|j: int| 0 <= j < r.seq.len() ==> r.seq[j] != 10
    &&& forall|j: int| 0 <= j < r.qual.len() ==> r.qual[j] != 10
}

/// The canonical four-line framing of a record.
pub open spec fn spec_render(r: FastqRecordModel) -> Seq<u8> {
    seq![64u8] + r.id + seq![10u8] + r.seq + seq![10u8, 43u8, 10u8] + r.qual + seq![10u8]
}

/// The concatenated renderings of a sequence of records.
pub open spec fn renders(rs: Seq<FastqRecordModel>) -> Seq<u8>
    decreases rs.len(),
{
    if rs.len() == 0 {
        Seq::empty()
    } else {
        spec_render(rs.first()) + renders(rs.drop_first())
    }
}

/// The four lines of each record, in record order.
pub open spec fn record_lines(rs: Seq<FastqRecordModel>) -> Seq<Seq<u8>>
    decreases rs.len(),
{
    if rs.len() == 0 {
        Seq::empty()
    } else {
        seq![seq![64u8] + rs.first().id, rs.first().seq, seq![43u8], rs.first().qual]
            + record_lines(rs.drop_first())
    }
}

/// `renders` distributes over appending one record at the end.
pub proof fn lemma_renders_push(rs: Seq<FastqRecordModel>, r: FastqRecordModel)
    ensures
        renders(rs.push(r)) == renders(rs) + spec_render(r),
    decreases rs.len(),
{
    if rs.len() == 0 {
        assert(rs.push(r).drop_first() =~= rs);
        assert(renders(rs.push(r)) =~= renders(rs) + spec_render(r));
    } else {
        assert(rs.push(r).drop_first() =~= rs.drop_first().push(r));
        lemma_renders_push(rs.drop_first(), r);
        assert(renders(rs.push(r)) =~= renders(rs) + spec_render(r));
    }
}

impl FastqRecord {
    /// The length of this record's canonical rendering.
    pub open spec fn spec_encoded_len(&self) -> int {
        spec_render(self@).len() as int
    }

    /// Computes the length of the canonical rendering.
    pub fn encoded_len(&self) -> (n: usize)
        requires
            self.spec_encoded_len() <= usize::MAX,
        ensures
            n == spec_render(self@).len(),
    {
        self.id.len() + self.seq.len() + self.qual.len() + 6
    }

    /// Appends the canonical rendering of this record to `out`.
    pub fn extend(&self, out: &mut Vec<u8>)
        ensures
            final(out)@ == old(out)@ + spec_render(self@),
    {
        out.push(64);
        push_bytes(out, self.id.as_slice());
        out.push(10);
        push_bytes(out, self.seq.as_slice());
        out.push(10);
        out.push(43);
        out.push(10);
        push_bytes(out, self.qual.as_slice());
        out.push(10);
        assert(out@ =~= old(out)@ + spec_render(self@));
    }
}

}
