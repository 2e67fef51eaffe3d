//! What the library guarantees, stated and proved over its specification
//! functions: soundness and completeness of the selection, soundness of the
//! paired filter, idempotence of the whole run, and the boundary behaviours
//! of empty or wholly-unclassified inputs.

use vstd::prelude::*;

use crate::fastq::all_wf;
use crate::fastq::spec_parse_fastq;
use crate::fastq::FastqParseError;
use crate::filter::admitted;
use crate::filter::concat_seqs;
use crate::filter::lemma_admitted_alignment;
use crate::filter::lemma_packing_conservation;
use crate::filter::packing_finish;
use crate::filter::packing_init;
use crate::filter::packing_run;
use crate::filter::paired_ids_ok;
use crate::filter::spec_filter_packs;
use crate::koutput::line_entry;
use crate::koutput::line_fields;
use crate::koutput::line_selected;
use crate::koutput::selected_entries;
use crate::lines::spec_lines;
use crate::record::renders;
use crate::record::FastqRecordModel;
use crate::selection::lemma_map_of_dom;
use crate::selection::map_of;
use crate::selection::KoutputEntryModel;

verus! {

/// How many lines of `lines` are selected.
pub open spec fn count_selected(
    lines: Seq<Seq<u8>>,
    taxa: Set<Seq<u8>>,
    excl: Option<Seq<Seq<u8>>>,
) -> int
    decreases lines.len(),
{
    if lines.len() == 0 {
        0
    } else {
        count_selected(lines.drop_last(), taxa, excl) + if line_selected(
            lines.last(),
            taxa,
            excl,
        ) {
            1int
        } else {
            0int
        }
    }
}

/// Every entry of `selected_entries` is the entry of some selected line.
proof fn lemma_selected_entries_from(
    lines: Seq<Seq<u8>>,
    taxa: Set<Seq<u8>>,
    excl: Option<Seq<Seq<u8>>>,
    j: int,
)
    requires
        0 <= j < selected_entries(lines, taxa, excl).len(),
    ensures
        exists|i: int|
            0 <= i < lines.len() && #[trigger] line_selected(lines[i], taxa, excl) && line_entry(
                lines[i],
            ) == selected_entries(lines, taxa, excl)[j],
    decreases lines.len(),
{
    let es = selected_entries(lines, taxa, excl);
    let rest = selected_entries(lines.drop_last(), taxa, excl);
    if line_selected(lines.last(), taxa, excl) && j == es.len() - 1 {
        assert(lines[lines.len() - 1] == lines.last());
        assert(line_selected(lines[lines.len() - 1], taxa, excl));
        assert(es[j] == line_entry(lines[lines.len() - 1]));
    } else {
        lemma_selected_entries_from(lines.drop_last(), taxa, excl, j);
        let i = choose|i: int|
            0 <= i < lines.drop_last().len() && #[trigger] line_selected(
                lines.drop_last()[i],
                taxa,
                excl,
            ) && line_entry(lines.drop_last()[i]) == rest[j];
        assert(lines.drop_last()[i] == lines[i]);
        assert(line_selected(lines[i], taxa, excl) && line_entry(lines[i]) == es[j]);
    }
}

/// The entry of every selected line stands in `selected_entries`.
proof fn lemma_selected_entries_has(
    lines: Seq<Seq<u8>>,
    taxa: Set<Seq<u8>>,
    excl: Option<Seq<Seq<u8>>>,
    i: int,
)
    requires
        0 <= i < lines.len(),
        line_selected(lines[i], taxa, excl),
    ensures
        exists|j: int|
            0 <= j < selected_entries(lines, taxa, excl).len() && (#[trigger] selected_entries(
                lines,
                taxa,
                excl,
            )[j]) == line_entry(lines[i]),
    decreases lines.len(),
{
    let es = selected_entries(lines, taxa, excl);
    if i == lines.len() - 1 {
        assert(es[es.len() - 1] == line_entry(lines[i]));
    } else {
        assert(lines.drop_last()[i] == lines[i]);
        lemma_selected_entries_has(lines.drop_last(), taxa, excl, i);
        let rest = selected_entries(lines.drop_last(), taxa, excl);
        let j = choose|j: int| 0 <= j < rest.len() && (#[trigger] rest[j]) == line_entry(lines[i]);
        assert(es[j] == line_entry(lines[i]));
    }
}

/// Selection soundness: every key of the selection map is the read
/// identifier of some line that was selected — a line with status `C`, a
/// taxon identifier in the taxon set, and no exclusion match in its LCA
/// field.
pub proof fn lemma_selection_soundness(
    lines: Seq<Seq<u8>>,
    taxa: Set<Seq<u8>>,
    excl: Option<Seq<Seq<u8>>>,
    k: Seq<u8>,
)
    requires
        map_of(selected_entries(lines, taxa, excl)).dom().contains(k),
    ensures
        exists|i: int|
            0 <= i < lines.len() && #[trigger] line_selected(lines[i], taxa, excl) && line_entry(
                lines[i],
            ).id == k,
{
    let es = selected_entries(lines, taxa, excl);
    lemma_map_of_dom(es, k);
    let j = choose|j: int| 0 <= j < es.len() && (#[trigger] es[j]).id == k;
    lemma_selected_entries_from(lines, taxa, excl, j);
}

/// Selection completeness: every selected line contributes exactly one
/// entry (the entry sequence is as long as the count of selected lines),
/// and its read identifier is a key of the selection map.
pub proof fn lemma_selection_completeness(
    lines: Seq<Seq<u8>>,
    taxa: Set<Seq<u8>>,
    excl: Option<Seq<Seq<u8>>>,
    i: int,
)
    requires
        0 <= i < lines.len(),
        line_selected(lines[i], taxa, excl),
    ensures
        map_of(selected_entries(lines, taxa, excl)).dom().contains(line_entry(lines[i]).id),
        selected_entries(lines, taxa, excl).len() == count_selected(lines, taxa, excl),
{
    lemma_selected_entries_has(lines, taxa, excl, i);
    let es = selected_entries(lines, taxa, excl);
    let j = choose|j: int| 0 <= j < es.len() && (#[trigger] es[j]) == line_entry(lines[i]);
    lemma_map_of_dom(es, line_entry(lines[i]).id);
    lemma_count_selected(lines, taxa, excl);
}

/// Last writer wins: the selection map stores, against each selected read
/// identifier, the fields of the last selected line that carries it.
pub proof fn lemma_selection_last_wins(
    lines: Seq<Seq<u8>>,
    taxa: Set<Seq<u8>>,
    excl: Option<Seq<Seq<u8>>>,
    i: int,
)
    requires
        0 <= i < lines.len(),
        line_selected(lines[i], taxa, excl),
        forall|j: int|
            i < j < lines.len() ==> !(#[trigger] line_selected(lines[j], taxa, excl) && line_entry(
                lines[j],
            ).id == line_entry(lines[i]).id),
    ensures
        map_of(selected_entries(lines, taxa, excl)).dom().contains(line_entry(lines[i]).id),
        map_of(selected_entries(lines, taxa, excl))[line_entry(lines[i]).id] == line_entry(
            lines[i],
        ).info(),
    decreases lines.len(),
{
    let es = selected_entries(lines, taxa, excl);
    let rest = selected_entries(lines.drop_last(), taxa, excl);
    let k = line_entry(lines[i]).id;
    if i == lines.len() - 1 {
        assert(lines.last() == lines[i]);
        assert(es == rest.push(line_entry(lines[i])));
    } else {
        assert(lines.drop_last()[i] == lines[i]);
        assert forall|j: int|
            i < j < lines.drop_last().len() implies !(#[trigger] line_selected(
            lines.drop_last()[j],
            taxa,
            excl,
        ) && line_entry(lines.drop_last()[j]).id == line_entry(lines.drop_last()[i]).id) by {
            assert(lines.drop_last()[j] == lines[j]);
        }
        lemma_selection_last_wins(lines.drop_last(), taxa, excl, i);
        if line_selected(lines.last(), taxa, excl) {
            assert(lines[lines.len() - 1] == lines.last());
            assert(line_entry(lines.last()).id != k);
            assert(es == rest.push(line_entry(lines.last())));
            assert(es.drop_last() =~= rest);
            assert(es.last() == line_entry(lines.last()));
            assert(map_of(es) == map_of(rest).insert(
                line_entry(lines.last()).id,
                line_entry(lines.last()).info(),
            ));
        }
    }
}

/// The entry sequence has one entry per selected line.
proof fn lemma_count_selected(lines: Seq<Seq<u8>>, taxa: Set<Seq<u8>>, excl: Option<Seq<Seq<u8>>>)
    ensures
        selected_entries(lines, taxa, excl).len() == count_selected(lines, taxa, excl),
    decreases lines.len(),
{
    if lines.len() > 0 {
        lemma_count_selected(lines.drop_last(), taxa, excl);
    }
}

/// Every admitted record's identifier is in the selection.
pub proof fn lemma_admitted_in_dom(rs: Seq<FastqRecordModel>, dom: Set<Seq<u8>>)
    ensures
        forall|j: int| 0 <= j < admitted(rs, dom).len() ==> dom.contains(
            (#[trigger] admitted(rs, dom)[j]).id,
        ),
    decreases rs.len(),
{
    if rs.len() > 0 {
        lemma_admitted_in_dom(rs.drop_last(), dom);
        let rest = admitted(rs.drop_last(), dom);
        assert forall|j: int| 0 <= j < admitted(rs, dom).len() implies dom.contains(
            (#[trigger] admitted(rs, dom)[j]).id,
        ) by {
            if j < rest.len() {
                assert(admitted(rs, dom)[j] == rest[j]);
            } else {
                assert(dom.contains(rs.last().id));
            }
        }
    }
}

/// Filter soundness: the two admitted sequences are aligned, every admitted
/// identifier is in the selection, and every admitted output position comes
/// from one input position whose pair carried equal identifiers.
pub proof fn lemma_filter_soundness(
    rs1: Seq<FastqRecordModel>,
    rs2: Seq<FastqRecordModel>,
    dom: Set<Seq<u8>>,
)
    requires
        rs1.len() == rs2.len(),
        paired_ids_ok(rs1, rs2),
    ensures
        admitted(rs1, dom).len() == admitted(rs2, dom).len(),
        forall|j: int| 0 <= j < admitted(rs1, dom).len() ==> dom.contains(
            (#[trigger] admitted(rs1, dom)[j]).id,
        ) && admitted(rs1, dom)[j].id == admitted(rs2, dom)[j].id,
        forall|j: int| 0 <= j < admitted(rs1, dom).len() ==> exists|i: int|
            0 <= i < rs1.len() && (#[trigger] admitted(rs1, dom)[j]) == rs1[i] && admitted(
                rs2,
                dom,
            )[j] == rs2[i],
    decreases rs1.len(),
{
    lemma_admitted_alignment(rs1, rs2, dom);
    lemma_admitted_in_dom(rs1, dom);
    let a1 = admitted(rs1, dom);
    let a2 = admitted(rs2, dom);
    if rs1.len() > 0 {
        assert(paired_ids_ok(rs1.drop_last(), rs2.drop_last())) by {
            assert(forall|i: int| 0 <= i < rs1.len() - 1 ==> (#[trigger] rs1.drop_last()[i])
                == rs1[i] && rs2.drop_last()[i] == rs2[i]);
        }
        lemma_filter_soundness(rs1.drop_last(), rs2.drop_last(), dom);
        let p1 = admitted(rs1.drop_last(), dom);
        let p2 = admitted(rs2.drop_last(), dom);
        assert(rs1[rs1.len() - 1].id == rs2[rs1.len() - 1].id);
        assert forall|j: int| 0 <= j < a1.len() implies exists|i: int|
            0 <= i < rs1.len() && (#[trigger] a1[j]) == rs1[i] && a2[j] == rs2[i] by {
            if j < p1.len() {
                let i = choose|i: int|
                    0 <= i < rs1.drop_last().len() && (#[trigger] p1[j]) == rs1.drop_last()[i]
                        && p2[j] == rs2.drop_last()[i];
                assert(a1[j] == rs1[i] && a2[j] == rs2[i]);
            } else {
                assert(dom.contains(rs1.last().id));
                assert(a1[j] == rs1[rs1.len() - 1] && a2[j] == rs2[rs1.len() - 1]);
            }
        }
    }
}

/// The filter keeps records whole: it writes the admitted subsequence of
/// well-formed input records, and nothing else.
pub proof fn lemma_admitted_wf(rs: Seq<FastqRecordModel>, dom: Set<Seq<u8>>)
    requires
        all_wf(rs),
    ensures
        all_wf(admitted(rs, dom)),
    decreases rs.len(),
{
    if rs.len() > 0 {
        assert(all_wf(rs.drop_last())) by {
            assert(forall|i: int| 0 <= i < rs.len() - 1 ==> (#[trigger] rs.drop_last()[i])
                == rs[i]);
        }
        lemma_admitted_wf(rs.drop_last(), dom);
    }
}

/// A selection that admits every identifier present passes the records
/// through unchanged.
pub proof fn lemma_admitted_all(rs: Seq<FastqRecordModel>, dom: Set<Seq<u8>>)
    requires
        forall|i: int| 0 <= i < rs.len() ==> dom.contains((#[trigger] rs[i]).id),
    ensures
        admitted(rs, dom) == rs,
    decreases rs.len(),
{
    if rs.len() > 0 {
        assert(forall|i: int| 0 <= i < rs.len() - 1 ==> (#[trigger] rs.drop_last()[i]) == rs[i]);
        lemma_admitted_all(rs.drop_last(), dom);
        assert(admitted(rs, dom) =~= rs);
    } else {
        assert(admitted(rs, dom) =~= rs);
    }
}

/// Filter completeness for a single worker: the packs of a run,
/// concatenated, hold exactly the renderings of the admitted records of
/// each mate, in input order.
pub proof fn lemma_filter_completeness(
    rs1: Seq<FastqRecordModel>,
    rs2: Seq<FastqRecordModel>,
    dom: Set<Seq<u8>>,
    chunk: int,
)
    requires
        rs1.len() == rs2.len(),
        paired_ids_ok(rs1, rs2),
    ensures
        concat_seqs(spec_filter_packs(rs1, rs2, dom, chunk).0) == renders(admitted(rs1, dom)),
        concat_seqs(spec_filter_packs(rs1, rs2, dom, chunk).1) == renders(admitted(rs2, dom)),
{
    lemma_admitted_alignment(rs1, rs2, dom);
    let a1 = admitted(rs1, dom);
    let a2 = admitted(rs2, dom);
    let st = packing_run(packing_init(), a1, a2, chunk);
    lemma_packing_conservation(packing_init(), a1, a2, chunk);
    assert(concat_seqs(packing_init().packs1) + packing_init().pool1 + renders(a1) =~= renders(a1));
    assert(concat_seqs(packing_init().packs2) + packing_init().pool2 + renders(a2) =~= renders(a2));
    if st.pool1.len() > 0 {
        assert(st.packs1.push(st.pool1).drop_last() =~= st.packs1);
        assert(st.packs2.push(st.pool2).drop_last() =~= st.packs2);
        assert(concat_seqs(spec_filter_packs(rs1, rs2, dom, chunk).1) =~= concat_seqs(st.packs2)
            + st.pool2);
    } else {
        assert(st.pool2.len() == 0);
        assert(concat_seqs(st.packs1) + st.pool1 =~= concat_seqs(st.packs1));
        assert(concat_seqs(st.packs2) + st.pool2 =~= concat_seqs(st.packs2));
    }
}

/// Idempotence of the filter: parsing each output of a run recovers exactly
/// the admitted records of that mate, and running the filter again on those
/// records, with a selection that admits every identifier present, writes
/// the same bytes again.
pub proof fn lemma_filter_idempotent(
    rs1: Seq<FastqRecordModel>,
    rs2: Seq<FastqRecordModel>,
    dom: Set<Seq<u8>>,
    all_ids: Set<Seq<u8>>,
    chunk: int,
)
    requires
        rs1.len() == rs2.len(),
        paired_ids_ok(rs1, rs2),
        all_wf(rs1),
        all_wf(rs2),
        forall|j: int| 0 <= j < admitted(rs1, dom).len() ==> all_ids.contains(
            (#[trigger] admitted(rs1, dom)[j]).id,
        ),
    ensures
        spec_parse_fastq(spec_lines(renders(admitted(rs1, dom))), 0) == Ok::<_, FastqParseError>(
            admitted(rs1, dom),
        ),
        spec_parse_fastq(spec_lines(renders(admitted(rs2, dom))), 0) == Ok::<_, FastqParseError>(
            admitted(rs2, dom),
        ),
        concat_seqs(spec_filter_packs(admitted(rs1, dom), admitted(rs2, dom), all_ids, chunk).0)
            == renders(admitted(rs1, dom)),
        concat_seqs(spec_filter_packs(admitted(rs1, dom), admitted(rs2, dom), all_ids, chunk).1)
            == renders(admitted(rs2, dom)),
{
    let out1 = admitted(rs1, dom);
    let out2 = admitted(rs2, dom);
    lemma_admitted_wf(rs1, dom);
    lemma_admitted_wf(rs2, dom);
    crate::fastq::lemma_render_parse_roundtrip(out1);
    crate::fastq::lemma_render_parse_roundtrip(out2);
    lemma_admitted_alignment(rs1, rs2, dom);
    assert forall|j: int| 0 <= j < out2.len() implies all_ids.contains(
        (#[trigger] out2[j]).id,
    ) by {
        assert(out2[j].id == out1[j].id);
        assert(all_ids.contains(out1[j].id));
    }
    lemma_admitted_all(out1, all_ids);
    lemma_admitted_all(out2, all_ids);
    lemma_filter_completeness(out1, out2, all_ids, chunk);
}

/// An empty classification report yields an empty selection map, and an
/// empty selection yields empty outputs for any paired input.
pub proof fn lemma_empty_report_empty_outputs(
    taxa: Set<Seq<u8>>,
    excl: Option<Seq<Seq<u8>>>,
    rs1: Seq<FastqRecordModel>,
    rs2: Seq<FastqRecordModel>,
    chunk: int,
)
    ensures
        map_of(selected_entries(Seq::empty(), taxa, excl)) == Map::<
            Seq<u8>,
            crate::selection::KoutputInfo,
        >::empty(),
        spec_filter_packs(rs1, rs2, Set::empty(), chunk).0 == Seq::<Seq<u8>>::empty(),
        spec_filter_packs(rs1, rs2, Set::empty(), chunk).1 == Seq::<Seq<u8>>::empty(),
{
    lemma_admitted_none(rs1, Set::empty());
    lemma_admitted_none(rs2, Set::empty());
    assert(packing_run(packing_init(), admitted(rs1, Set::empty()), admitted(rs2, Set::empty()), chunk)
        == packing_init());
}

/// A selection that admits no identifier of `rs` admits nothing.
pub proof fn lemma_admitted_none(rs: Seq<FastqRecordModel>, dom: Set<Seq<u8>>)
    requires
        forall|i: int| 0 <= i < rs.len() ==> !dom.contains((#[trigger] rs[i]).id),
    ensures
        admitted(rs, dom) == Seq::<FastqRecordModel>::empty(),
    decreases rs.len(),
{
    if rs.len() > 0 {
        assert(forall|i: int| 0 <= i < rs.len() - 1 ==> (#[trigger] rs.drop_last()[i]) == rs[i]);
        lemma_admitted_none(rs.drop_last(), dom);
    }
}

/// A report whose every line has a status other than `C` selects nothing.
pub proof fn lemma_unclassified_selects_nothing(
    lines: Seq<Seq<u8>>,
    taxa: Set<Seq<u8>>,
    excl: Option<Seq<Seq<u8>>>,
)
    requires
        forall|i: int| 0 <= i < lines.len() ==> line_fields(#[trigger] lines[i])[0] != seq![67u8],
    ensures
        selected_entries(lines, taxa, excl) == Seq::<KoutputEntryModel>::empty(),
    decreases lines.len(),
{
    if lines.len() > 0 {
        assert(forall|i: int| 0 <= i < lines.len() - 1 ==> (#[trigger] lines.drop_last()[i])
            == lines[i]);
        lemma_unclassified_selects_nothing(lines.drop_last(), taxa, excl);
        assert(line_fields(lines[lines.len() - 1])[0] != seq![67u8]);
        assert(!line_selected(lines.last(), taxa, excl));
    }
}

/// An empty taxon set selects nothing.
pub proof fn lemma_empty_taxa_selects_nothing(lines: Seq<Seq<u8>>, excl: Option<Seq<Seq<u8>>>)
    ensures
        selected_entries(lines, Set::empty(), excl) == Seq::<KoutputEntryModel>::empty(),
    decreases lines.len(),
{
    if lines.len() > 0 {
        lemma_empty_taxa_selects_nothing(lines.drop_last(), excl);
        assert(!line_selected(lines.last(), Set::empty(), excl));
    }
}

/// A paired input without records produces no output packs and no error.
pub proof fn lemma_empty_inputs_empty_outputs(dom: Set<Seq<u8>>, chunk: int)
    ensures
        paired_ids_ok(Seq::empty(), Seq::empty()),
        spec_filter_packs(Seq::empty(), Seq::empty(), dom, chunk).0 == Seq::<Seq<u8>>::empty(),
        spec_filter_packs(Seq::empty(), Seq::empty(), dom, chunk).1 == Seq::<Seq<u8>>::empty(),
{
    assert(admitted(Seq::empty(), dom) == Seq::<FastqRecordModel>::empty());
    assert(packing_finish(packing_init()).0 =~= Seq::<Seq<u8>>::empty());
    assert(packing_finish(packing_init()).1 =~= Seq::<Seq<u8>>::empty());
}

}
