//! The paired filter: record pairs are checked for identifier consistency,
//! filtered against the selection map, and the survivors are packed into
//! bounded output buffers, flushed whenever the next pair would overflow
//! either buffer.

use vstd::prelude::*;

use crate::fastq::models;
use crate::fastq::FastqParseError;
use crate::record::lemma_renders_push;
use crate::record::renders;
use crate::record::spec_render;
use crate::record::FastqRecord;
use crate::record::FastqRecordModel;
use crate::selection::SelectionMap;

verus! {

/// Every pair carries one identifier: the i-th records of the two mates
/// agree, position by position.
pub open spec fn paired_ids_ok(b1: Seq<FastqRecordModel>, b2: Seq<FastqRecordModel>) -> bool {
    forall|i: int| 0 <= i < b1.len() && i < b2.len() ==> (#[trigger] b1[i]).id == b2[i].id
}

/// The position of the first pair whose identifiers differ, or `b1.len()`
/// when the mates agree throughout.
pub open spec fn first_id_mismatch(b1: Seq<FastqRecordModel>, b2: Seq<FastqRecordModel>) -> int
    decreases b1.len(),
{
    if b1.len() == 0 || b2.len() == 0 {
        0
    } else if b1.first().id != b2.first().id {
        0
    } else {
        1 + first_id_mismatch(b1.drop_first(), b2.drop_first())
    }
}

/// The subsequence of `rs` whose identifiers the selection admits, in input
/// order.
pub open spec fn admitted(rs: Seq<FastqRecordModel>, dom: Set<Seq<u8>>) -> Seq<FastqRecordModel>
    decreases rs.len(),
{
    if rs.len() == 0 {
        Seq::empty()
    } else {
        let rest = admitted(rs.drop_last(), dom);
        if dom.contains(rs.last().id) {
            rest.push(rs.last())
        } else {
            rest
        }
    }
}

/// The concatenation of a sequence of byte sequences, in order.
pub open spec fn concat_seqs(ps: Seq<Seq<u8>>) -> Seq<u8>
    decreases ps.len(),
{
    if ps.len() == 0 {
        Seq::empty()
    } else {
        concat_seqs(ps.drop_last()) + ps.last()
    }
}

/// The state of the packer: the packs flushed so far for each output, and
/// the two growing pools.
pub ghost struct PackingState {
    pub packs1: Seq<Seq<u8>>,
    pub packs2: Seq<Seq<u8>>,
    pub pool1: Seq<u8>,
    pub pool2: Seq<u8>,
}

/// The packer before any record: no packs, empty pools.
pub open spec fn packing_init() -> PackingState {
    PackingState {
        packs1: Seq::empty(),
        packs2: Seq::empty(),
        pool1: Seq::empty(),
        pool2: Seq::empty(),
    }
}

/// One admitted pair enters the packer: if appending either rendering would
/// push its pool past `chunk` bytes, both pools are flushed as packs first.
pub open spec fn packing_step(
    st: PackingState,
    r1: FastqRecordModel,
    r2: FastqRecordModel,
    chunk: int,
) -> PackingState {
    let e1 = spec_render(r1);
    let e2 = spec_render(r2);
    if st.pool1.len() + e1.len() > chunk || st.pool2.len() + e2.len() > chunk {
        PackingState { packs1: st.packs1.push(st.pool1), packs2: st.packs2.push(st.pool2), pool1: e1, pool2: e2 }
    } else {
        PackingState { packs1: st.packs1, packs2: st.packs2, pool1: st.pool1 + e1, pool2: st.pool2 + e2 }
    }
}

/// The packer run over a sequence of admitted pairs, in order.
pub open spec fn packing_run(
    st: PackingState,
    rs1: Seq<FastqRecordModel>,
    rs2: Seq<FastqRecordModel>,
    chunk: int,
) -> PackingState
    decreases rs1.len(),
{
    if rs1.len() == 0 || rs2.len() == 0 {
        st
    } else {
        packing_run(
            packing_step(st, rs1.first(), rs2.first(), chunk),
            rs1.drop_first(),
            rs2.drop_first(),
            chunk,
        )
    }
}

/// At shutdown a non-empty pool is flushed as a final pack.
pub open spec fn packing_finish(st: PackingState) -> (Seq<Seq<u8>>, Seq<Seq<u8>>) {
    if st.pool1.len() > 0 {
        (st.packs1.push(st.pool1), st.packs2.push(st.pool2))
    } else {
        (st.packs1, st.packs2)
    }
}

/// The packs of a whole single-worker run: admit, pack, flush the remainder.
pub open spec fn spec_filter_packs(
    rs1: Seq<FastqRecordModel>,
    rs2: Seq<FastqRecordModel>,
    dom: Set<Seq<u8>>,
    chunk: int,
) -> (Seq<Seq<u8>>, Seq<Seq<u8>>) {
    packing_finish(packing_run(packing_init(), admitted(rs1, dom), admitted(rs2, dom), chunk))
}

/// Running the packer distributes over appending one pair at the end.
pub proof fn lemma_packing_run_push(
    st: PackingState,
    rs1: Seq<FastqRecordModel>,
    rs2: Seq<FastqRecordModel>,
    r1: FastqRecordModel,
    r2: FastqRecordModel,
    chunk: int,
)
    requires
        rs1.len() == rs2.len(),
    ensures
        packing_run(st, rs1.push(r1), rs2.push(r2), chunk) == packing_step(
            packing_run(st, rs1, rs2, chunk),
            r1,
            r2,
            chunk,
        ),
    decreases rs1.len(),
{
    let s1 = rs1.push(r1);
    let s2 = rs2.push(r2);
    assert(s1.first() == if rs1.len() == 0 { r1 } else { rs1.first() });
    assert(s2.first() == if rs2.len() == 0 { r2 } else { rs2.first() });
    assert(packing_run(st, s1, s2, chunk) == packing_run(
        packing_step(st, s1.first(), s2.first(), chunk),
        s1.drop_first(),
        s2.drop_first(),
        chunk,
    ));
    if rs1.len() == 0 {
        assert(s1.drop_first() =~= rs1);
        assert(s2.drop_first() =~= rs2);
        assert(packing_run(packing_step(st, r1, r2, chunk), rs1, rs2, chunk) == packing_step(
            st,
            r1,
            r2,
            chunk,
        ));
    } else {
        assert(s1.drop_first() =~= rs1.drop_first().push(r1));
        assert(s2.drop_first() =~= rs2.drop_first().push(r2));
        lemma_packing_run_push(
            packing_step(st, rs1.first(), rs2.first(), chunk),
            rs1.drop_first(),
            rs2.drop_first(),
            r1,
            r2,
            chunk,
        );
        assert(packing_run(st, rs1, rs2, chunk) == packing_run(
            packing_step(st, rs1.first(), rs2.first(), chunk),
            rs1.drop_first(),
            rs2.drop_first(),
            chunk,
        ));
    }
}

/// Aligned mates admit at the same positions: the two admitted sequences
/// have one length and agree on identifiers, position by position.
pub proof fn lemma_admitted_alignment(
    b1: Seq<FastqRecordModel>,
    b2: Seq<FastqRecordModel>,
    dom: Set<Seq<u8>>,
)
    requires
        b1.len() == b2.len(),
        paired_ids_ok(b1, b2),
    ensures
        admitted(b1, dom).len() == admitted(b2, dom).len(),
        forall|j: int| 0 <= j < admitted(b1, dom).len() ==> (#[trigger] admitted(b1, dom)[j]).id
            == admitted(b2, dom)[j].id,
    decreases b1.len(),
{
    if b1.len() > 0 {
        assert(paired_ids_ok(b1.drop_last(), b2.drop_last())) by {
            assert(forall|i: int| 0 <= i < b1.len() - 1 ==> (#[trigger] b1.drop_last()[i]) == b1[i]
                && b2.drop_last()[i] == b2[i]);
        }
        lemma_admitted_alignment(b1.drop_last(), b2.drop_last(), dom);
        assert(b1.last().id == b2.last().id) by {
            assert(b1[b1.len() - 1].id == b2[b1.len() - 1].id);
        }
    }
}

/// The two growing output pools of one filter worker, of a configured
/// nominal capacity.
pub struct PairedPacker {
    pub pool1: Vec<u8>,
    pub pool2: Vec<u8>,
    pub chunk_bytes: usize,
}

impl PairedPacker {
    /// A packer with empty pools.
    pub fn new(chunk_bytes: usize) -> (r: PairedPacker)
        ensures
            r.pool1@ == Seq::<u8>::empty(),
            r.pool2@ == Seq::<u8>::empty(),
            r.chunk_bytes == chunk_bytes,
    {
        PairedPacker { pool1: Vec::new(), pool2: Vec::new(), chunk_bytes }
    }

    /// Packs one admitted pair, exactly as `packing_step` describes: returns
    /// the flushed pack pair when the pair did not fit.
    pub fn push_pair(&mut self, r1: &FastqRecord, r2: &FastqRecord) -> (flushed: Option<
        (Vec<u8>, Vec<u8>),
    >)
        requires
            old(self).pool1@.len() + spec_render(r1@).len() <= usize::MAX,
            old(self).pool2@.len() + spec_render(r2@).len() <= usize::MAX,
        ensures
            final(self).chunk_bytes == old(self).chunk_bytes,
            ({
                let st0 = PackingState {
                    packs1: Seq::empty(),
                    packs2: Seq::empty(),
                    pool1: old(self).pool1@,
                    pool2: old(self).pool2@,
                };
                let st1 = packing_step(st0, r1@, r2@, old(self).chunk_bytes as int);
                &&& final(self).pool1@ == st1.pool1
                &&& final(self).pool2@ == st1.pool2
                &&& match flushed {
                    Some(p) => st1.packs1 == seq![p.0@] && st1.packs2 == seq![p.1@],
                    None => st1.packs1 == Seq::<Seq<u8>>::empty() && st1.packs2 == Seq::<
                        Seq<u8>,
                    >::empty(),
                }
            }),
    {
        let e1 = r1.encoded_len();
        let e2 = r2.encoded_len();
        if self.pool1.len() + e1 > self.chunk_bytes || self.pool2.len() + e2 > self.chunk_bytes {
            let mut p1: Vec<u8> = Vec::new();
            let mut p2: Vec<u8> = Vec::new();
            core::mem::swap(&mut self.pool1, &mut p1);
            core::mem::swap(&mut self.pool2, &mut p2);
            r1.extend(&mut self.pool1);
            r2.extend(&mut self.pool2);
            assert(self.pool1@ =~= spec_render(r1@));
            assert(self.pool2@ =~= spec_render(r2@));
            Some((p1, p2))
        } else {
            r1.extend(&mut self.pool1);
            r2.extend(&mut self.pool2);
            None
        }
    }

    /// Flushes the remainder at shutdown, exactly as `packing_finish`
    /// describes: the final pack pair if the pools are non-empty.
    pub fn finish(&mut self) -> (flushed: Option<(Vec<u8>, Vec<u8>)>)
        ensures
            final(self).chunk_bytes == old(self).chunk_bytes,
            final(self).pool1@ == Seq::<u8>::empty(),
            final(self).pool2@ == Seq::<u8>::empty(),
            ({
                let st0 = PackingState {
                    packs1: Seq::empty(),
                    packs2: Seq::empty(),
                    pool1: old(self).pool1@,
                    pool2: old(self).pool2@,
                };
                match flushed {
                    Some(p) => packing_finish(st0).0 == seq![p.0@] && packing_finish(st0).1 == seq![
                        p.1@,
                    ] && p.0@ == old(self).pool1@ && p.1@ == old(self).pool2@,
                    None => old(self).pool1@ == Seq::<u8>::empty() && packing_finish(st0).0
                        == Seq::<Seq<u8>>::empty() && packing_finish(st0).1 == Seq::<
                        Seq<u8>,
                    >::empty(),
                }
            }),
    {
        if self.pool1.len() > 0 {
            let mut p1: Vec<u8> = Vec::new();
            let mut p2: Vec<u8> = Vec::new();
            core::mem::swap(&mut self.pool1, &mut p1);
            core::mem::swap(&mut self.pool2, &mut p2);
            Some((p1, p2))
        } else {
            self.pool2.clear();
            None
        }
    }
}

/// The views of the first components of flushed pack pairs.
pub open spec fn pack_views1(ps: Seq<(Vec<u8>, Vec<u8>)>) -> Seq<Seq<u8>> {
    ps.map_values(|p: (Vec<u8>, Vec<u8>)| p.0@)
}

/// The views of the second components of flushed pack pairs.
pub open spec fn pack_views2(ps: Seq<(Vec<u8>, Vec<u8>)>) -> Seq<Seq<u8>> {
    ps.map_values(|p: (Vec<u8>, Vec<u8>)| p.1@)
}

/// Filters one collated batch pair through the packer. Fails exactly on the
/// first pair whose identifiers differ; otherwise admits exactly the pairs
/// whose identifier the selection holds, and packs them in order.
pub fn filter_batch(
    packer: &mut PairedPacker,
    sel: &SelectionMap,
    batch1: &Vec<FastqRecord>,
    batch2: &Vec<FastqRecord>,
) -> (r: Result<Vec<(Vec<u8>, Vec<u8>)>, FastqParseError>)
    requires
        batch1@.len() == batch2@.len(),
        old(packer).pool1@.len() + renders(admitted(models(batch1@), sel@.dom())).len()
            <= usize::MAX,
        old(packer).pool2@.len() + renders(admitted(models(batch2@), sel@.dom())).len()
            <= usize::MAX,
    ensures
        final(packer).chunk_bytes == old(packer).chunk_bytes,
        r is Ok <==> paired_ids_ok(models(batch1@), models(batch2@)),
        ({
            let st0 = PackingState {
                packs1: Seq::empty(),
                packs2: Seq::empty(),
                pool1: old(packer).pool1@,
                pool2: old(packer).pool2@,
            };
            let st1 = packing_run(
                st0,
                admitted(models(batch1@), sel@.dom()),
                admitted(models(batch2@), sel@.dom()),
                old(packer).chunk_bytes as int,
            );
            match r {
                Ok(flushed) => {
                    &&& pack_views1(flushed@) == st1.packs1
                    &&& pack_views2(flushed@) == st1.packs2
                    &&& final(packer).pool1@ == st1.pool1
                    &&& final(packer).pool2@ == st1.pool2
                },
                Err(e) => {
                    let m = first_id_mismatch(models(batch1@), models(batch2@));
                    &&& m < batch1@.len()
                    &&& e matches FastqParseError::FastqPairError { read1_id, read2_id }
                        && read1_id@ == models(batch1@)[m].id && read2_id@ == models(batch2@)[m].id
                },
            }
        }),
{
    let ghost ms1 = models(batch1@);
    let ghost ms2 = models(batch2@);
    let ghost dom = sel@.dom();
    let ghost chunk = old(packer).chunk_bytes as int;
    let ghost st0 = PackingState {
        packs1: Seq::empty(),
        packs2: Seq::empty(),
        pool1: old(packer).pool1@,
        pool2: old(packer).pool2@,
    };
    let mut flushed: Vec<(Vec<u8>, Vec<u8>)> = Vec::new();
    let mut i: usize = 0;
    proof {
        assert(admitted(ms1.take(0), dom) =~= Seq::<FastqRecordModel>::empty());
        assert(admitted(ms2.take(0), dom) =~= Seq::<FastqRecordModel>::empty());
    }
    while i < batch1.len()
        invariant
            i <= batch1@.len(),
            batch1@.len() == batch2@.len(),
            ms1 == models(batch1@),
            ms2 == models(batch2@),
            dom == sel@.dom(),
            chunk == packer.chunk_bytes as int,
            packer.chunk_bytes == old(packer).chunk_bytes,
            st0.pool1 == old(packer).pool1@ && st0.pool2 == old(packer).pool2@,
            st0.packs1 == Seq::<Seq<u8>>::empty() && st0.packs2 == Seq::<Seq<u8>>::empty(),
            forall|j: int| 0 <= j < i ==> (#[trigger] ms1[j]).id == ms2[j].id,
            old(packer).pool1@.len() + renders(admitted(ms1, dom)).len() <= usize::MAX,
            old(packer).pool2@.len() + renders(admitted(ms2, dom)).len() <= usize::MAX,
            ({
                let st = packing_run(st0, admitted(ms1.take(i as int), dom), admitted(ms2.take(i as int), dom), chunk);
                &&& pack_views1(flushed@) == st.packs1
                &&& pack_views2(flushed@) == st.packs2
                &&& packer.pool1@ == st.pool1
                &&& packer.pool2@ == st.pool2
            }),
            packer.pool1@.len() <= old(packer).pool1@.len() + renders(
                admitted(ms1.take(i as int), dom),
            ).len(),
            packer.pool2@.len() <= old(packer).pool2@.len() + renders(
                admitted(ms2.take(i as int), dom),
            ).len(),
        decreases batch1@.len() - i,
    {
        let r1 = &batch1[i];
        let r2 = &batch2[i];
        proof {
            assert(ms1[i as int] == r1@ && ms2[i as int] == r2@);
            assert(ms1.take(i + 1).drop_last() =~= ms1.take(i as int));
            assert(ms2.take(i + 1).drop_last() =~= ms2.take(i as int));
        }
        if !crate::scan::bytes_eq(r1.id.as_slice(), r2.id.as_slice()) {
            proof {
                lemma_first_id_mismatch(ms1, ms2, i as int);
            }
            return Err(FastqParseError::FastqPairError {
                read1_id: vstd::slice::slice_to_vec(r1.id.as_slice()),
                read2_id: vstd::slice::slice_to_vec(r2.id.as_slice()),
            });
        }
        if sel.contains_id(r1.id.as_slice()) {
            let ghost a1 = admitted(ms1.take(i as int), dom);
            let ghost a2 = admitted(ms2.take(i as int), dom);
            let ghost stp = packing_run(st0, a1, a2, chunk);
            let ghost st_next = packing_step(stp, r1@, r2@, chunk);
            proof {
                assert(paired_ids_ok(ms1.take(i as int), ms2.take(i as int))) by {
                    assert(forall|j: int| 0 <= j < i ==> (#[trigger] ms1.take(i as int)[j])
                        == ms1[j] && ms2.take(i as int)[j] == ms2[j]);
                }
                lemma_admitted_alignment(ms1.take(i as int), ms2.take(i as int), dom);
                assert(admitted(ms1.take(i + 1), dom) =~= a1.push(r1@));
                assert(admitted(ms2.take(i + 1), dom) =~= a2.push(r2@));
                lemma_admitted_take_le(ms1, dom, i + 1);
                lemma_admitted_take_le(ms2, dom, i + 1);
                lemma_renders_push(a1, r1@);
                lemma_renders_push(a2, r2@);
                lemma_packing_run_push(st0, a1, a2, r1@, r2@, chunk);
                assert(packing_run(st0, admitted(ms1.take(i + 1), dom), admitted(
                    ms2.take(i + 1),
                    dom,
                ), chunk) == st_next);
                assert(stp.pool1 == packer.pool1@ && stp.pool2 == packer.pool2@);
                assert(pack_views1(flushed@) == stp.packs1 && pack_views2(flushed@) == stp.packs2);
            }
            let out = packer.push_pair(r1, r2);
            proof {
                assert(packer.pool1@ == st_next.pool1 && packer.pool2@ == st_next.pool2);
            }
            let ghost overflow = stp.pool1.len() + spec_render(r1@).len() > chunk || stp.pool2.len()
                + spec_render(r2@).len() > chunk;
            match out {
                Some(p) => {
                    let ghost before = flushed@;
                    proof {
                        let st0p = PackingState {
                            packs1: Seq::empty(),
                            packs2: Seq::empty(),
                            pool1: stp.pool1,
                            pool2: stp.pool2,
                        };
                        let st1p = packing_step(st0p, r1@, r2@, chunk);
                        assert(st1p.packs1 == seq![p.0@] && st1p.packs2 == seq![p.1@]);
                        assert(overflow) by {
                            if !overflow {
                                assert(st1p.packs1 == Seq::<Seq<u8>>::empty());
                                assert(seq![p.0@].len() == 1);
                            }
                        }
                        assert(p.0@ == stp.pool1) by {
                            assert(st1p.packs1 == Seq::<Seq<u8>>::empty().push(st0p.pool1));
                            assert(seq![p.0@][0] == st1p.packs1[0]);
                        }
                        assert(p.1@ == stp.pool2) by {
                            assert(st1p.packs2 == Seq::<Seq<u8>>::empty().push(st0p.pool2));
                            assert(seq![p.1@][0] == st1p.packs2[0]);
                        }
                        assert(st_next.packs1 == stp.packs1.push(p.0@) && st_next.packs2
                            == stp.packs2.push(p.1@));
                    }
                    flushed.push(p);
                    proof {
                        assert(pack_views1(flushed@) =~= pack_views1(before).push(p.0@));
                        assert(pack_views2(flushed@) =~= pack_views2(before).push(p.1@));
                    }
                },
                None => {
                    proof {
                        let st0p = PackingState {
                            packs1: Seq::empty(),
                            packs2: Seq::empty(),
                            pool1: stp.pool1,
                            pool2: stp.pool2,
                        };
                        let st1p = packing_step(st0p, r1@, r2@, chunk);
                        assert(st1p.packs1 == Seq::<Seq<u8>>::empty());
                        assert(!overflow) by {
                            if overflow {
                                assert(st1p.packs1 == Seq::<Seq<u8>>::empty().push(st0p.pool1));
                            }
                        }
                        assert(st_next.packs1 == stp.packs1 && st_next.packs2 == stp.packs2);
                    }
                },
            }
        } else {
            proof {
                assert(admitted(ms1.take(i + 1), dom) =~= admitted(ms1.take(i as int), dom));
                assert(admitted(ms2.take(i + 1), dom) =~= admitted(ms2.take(i as int), dom));
            }
        }
        i += 1;
    }
    proof {
        assert(ms1.take(batch1@.len() as int) =~= ms1);
        assert(ms2.take(batch2@.len() as int) =~= ms2);
    }
    Ok(flushed)
}

/// Checks a collated batch pair as the collator receives it: the two mates
/// must carry the same number of records.
pub fn collate_pair(batch1: Vec<FastqRecord>, batch2: Vec<FastqRecord>) -> (r: Result<
    (Vec<FastqRecord>, Vec<FastqRecord>),
    FastqParseError,
>)
    ensures
        batch1@.len() == batch2@.len() ==> (r matches Ok(p) && p.0@ == batch1@ && p.1@ == batch2@),
        batch1@.len() != batch2@.len() ==> r == Err::<(Vec<FastqRecord>, Vec<FastqRecord>), _>(
            FastqParseError::CountMismatch { len1: batch1@.len() as usize, len2: batch2@.len() as usize },
        ),
{
    if batch1.len() != batch2.len() {
        Err(FastqParseError::CountMismatch { len1: batch1.len(), len2: batch2.len() })
    } else {
        Ok((batch1, batch2))
    }
}

/// Filters a whole paired input through one packer, as a single filter
/// worker does, and returns every flushed pack pair in emission order.
pub fn filter_paired(
    records1: &Vec<FastqRecord>,
    records2: &Vec<FastqRecord>,
    sel: &SelectionMap,
    chunk_bytes: usize,
) -> (r: Result<Vec<(Vec<u8>, Vec<u8>)>, FastqParseError>)
    requires
        renders(admitted(models(records1@), sel@.dom())).len() <= usize::MAX,
        renders(admitted(models(records2@), sel@.dom())).len() <= usize::MAX,
    ensures
        records1@.len() != records2@.len() ==> r == Err::<Vec<(Vec<u8>, Vec<u8>)>, _>(
            FastqParseError::CountMismatch {
                len1: records1@.len() as usize,
                len2: records2@.len() as usize,
            },
        ),
        records1@.len() == records2@.len() ==> {
            &&& (r is Ok <==> paired_ids_ok(models(records1@), models(records2@)))
            &&& match r {
                Ok(packs) => {
                    let expected = spec_filter_packs(
                        models(records1@),
                        models(records2@),
                        sel@.dom(),
                        chunk_bytes as int,
                    );
                    pack_views1(packs@) == expected.0 && pack_views2(packs@) == expected.1
                },
                Err(e) => {
                    let m = first_id_mismatch(models(records1@), models(records2@));
                    &&& m < records1@.len()
                    &&& e matches FastqParseError::FastqPairError { read1_id, read2_id }
                        && read1_id@ == models(records1@)[m].id && read2_id@ == models(
                        records2@,
                    )[m].id
                },
            }
        },
{
    if records1.len() != records2.len() {
        return Err(FastqParseError::CountMismatch { len1: records1.len(), len2: records2.len() });
    }
    let mut packer = PairedPacker::new(chunk_bytes);
    let mut packs = filter_batch(&mut packer, sel, records1, records2)?;
    let ghost st = packing_run(
        packing_init(),
        admitted(models(records1@), sel@.dom()),
        admitted(models(records2@), sel@.dom()),
        chunk_bytes as int,
    );
    proof {
        assert(st.packs1 == pack_views1(packs@) && st.packs2 == pack_views2(packs@));
        assert(st.pool1 == packer.pool1@ && st.pool2 == packer.pool2@);
    }
    let ghost before = packs@;
    match packer.finish() {
        Some(p) => {
            proof {
                assert(packing_finish(st).0 == st.packs1.push(p.0@) && packing_finish(st).1
                    == st.packs2.push(p.1@)) by {
                    assert(seq![p.0@][0] == p.0@ && seq![p.1@][0] == p.1@);
                }
            }
            packs.push(p);
            proof {
                assert(pack_views1(packs@) =~= pack_views1(before).push(p.0@));
                assert(pack_views2(packs@) =~= pack_views2(before).push(p.1@));
            }
        },
        None => {
            proof {
                assert(packing_finish(st).0 == st.packs1 && packing_finish(st).1 == st.packs2);
            }
        },
    }
    Ok(packs)
}

/// What the packer conserves: the bytes flushed so far plus the pool hold,
/// in order, exactly the renderings of every pair that entered; and the two
/// pools empty together.
pub proof fn lemma_packing_conservation(
    st: PackingState,
    rs1: Seq<FastqRecordModel>,
    rs2: Seq<FastqRecordModel>,
    chunk: int,
)
    requires
        rs1.len() == rs2.len(),
    ensures
        concat_seqs(packing_run(st, rs1, rs2, chunk).packs1) + packing_run(st, rs1, rs2, chunk).pool1
            == concat_seqs(st.packs1) + st.pool1 + renders(rs1),
        concat_seqs(packing_run(st, rs1, rs2, chunk).packs2) + packing_run(st, rs1, rs2, chunk).pool2
            == concat_seqs(st.packs2) + st.pool2 + renders(rs2),
        ((st.pool1.len() == 0 <==> st.pool2.len() == 0) && rs1.len() > 0) ==> (packing_run(
            st,
            rs1,
            rs2,
            chunk,
        ).pool1.len() == 0 <==> packing_run(st, rs1, rs2, chunk).pool2.len() == 0),
        rs1.len() == 0 ==> packing_run(st, rs1, rs2, chunk) == st,
    decreases rs1.len(),
{
    if rs1.len() == 0 {
        assert(concat_seqs(st.packs1) + st.pool1 + renders(rs1) =~= concat_seqs(st.packs1)
            + st.pool1);
        assert(concat_seqs(st.packs2) + st.pool2 + renders(rs2) =~= concat_seqs(st.packs2)
            + st.pool2);
    } else {
        let stp = packing_step(st, rs1.first(), rs2.first(), chunk);
        lemma_packing_conservation(stp, rs1.drop_first(), rs2.drop_first(), chunk);
        let e1 = spec_render(rs1.first());
        let e2 = spec_render(rs2.first());
        assert(concat_seqs(stp.packs1) + stp.pool1 =~= concat_seqs(st.packs1) + st.pool1 + e1) by {
            if st.pool1.len() + e1.len() > chunk || st.pool2.len() + e2.len() > chunk {
                assert(st.packs1.push(st.pool1).drop_last() =~= st.packs1);
            }
        }
        assert(concat_seqs(stp.packs2) + stp.pool2 =~= concat_seqs(st.packs2) + st.pool2 + e2) by {
            if st.pool1.len() + e1.len() > chunk || st.pool2.len() + e2.len() > chunk {
                assert(st.packs2.push(st.pool2).drop_last() =~= st.packs2);
            }
        }
        assert(concat_seqs(st.packs1) + st.pool1 + e1 + renders(rs1.drop_first()) =~= concat_seqs(
            st.packs1,
        ) + st.pool1 + renders(rs1));
        assert(concat_seqs(st.packs2) + st.pool2 + e2 + renders(rs2.drop_first()) =~= concat_seqs(
            st.packs2,
        ) + st.pool2 + renders(rs2));
        assert(stp.pool1.len() > 0 && stp.pool2.len() > 0 || (stp.pool1.len() == 0 <==> stp.pool2.len() == 0)) by {
            assert(e1.len() >= 6 && e2.len() >= 6);
        }
    }
}

/// If the first `i` pairs agree and pair `i` differs, `first_id_mismatch`
/// is `i`.
proof fn lemma_first_id_mismatch(b1: Seq<FastqRecordModel>, b2: Seq<FastqRecordModel>, i: int)
    requires
        0 <= i < b1.len(),
        i < b2.len(),
        forall|j: int| 0 <= j < i ==> (#[trigger] b1[j]).id == b2[j].id,
        b1[i].id != b2[i].id,
    ensures
        first_id_mismatch(b1, b2) == i,
        !paired_ids_ok(b1, b2),
    decreases i,
{
    if i > 0 {
        assert(b1.drop_first()[i - 1] == b1[i]);
        lemma_first_id_mismatch(b1.drop_first(), b2.drop_first(), i - 1);
    }
}

/// The rendering of an admitted prefix never outgrows the rendering of the
/// whole admitted sequence.
proof fn lemma_admitted_take_le(rs: Seq<FastqRecordModel>, dom: Set<Seq<u8>>, i: int)
    requires
        0 <= i <= rs.len(),
    ensures
        renders(admitted(rs.take(i), dom)).len() <= renders(admitted(rs, dom)).len(),
    decreases rs.len() - i,
{
    if i == rs.len() {
        assert(rs.take(i) =~= rs);
    } else {
        lemma_admitted_take_le(rs, dom, i + 1);
        assert(rs.take(i + 1).drop_last() =~= rs.take(i));
        if dom.contains(rs.take(i + 1).last().id) {
            lemma_renders_push(admitted(rs.take(i), dom), rs[i]);
        }
    }
}

}
