//! End-to-end scenarios: classification parsing, paired filtering, gzip
//! outputs, and the boundary cases.

use kractor::exclusion::ExclusionMatcher;
use kractor::fastq::FastqParseError;
use kractor::filter::filter_paired;
use kractor::gzip::encode_pack;
use kractor::koutput::parse_koutput;
use kractor::record::FastqRecord;
use kractor::fastq::parse_fastq;
use kractor::selection::SelectionMap;
use kractor::selection::TaxonSet;

use std::io::Read;

fn taxa(items: &[&[u8]]) -> TaxonSet {
    TaxonSet::from_items(items.iter().map(|s| s.to_vec()).collect())
}

fn record(id: &[u8], seq: &[u8], qual: &[u8]) -> FastqRecord {
    FastqRecord { id: id.to_vec(), seq: seq.to_vec(), qual: qual.to_vec() }
}

fn selection_of(ids: &[&[u8]]) -> SelectionMap {
    let mut report = Vec::new();
    for id in ids {
        report.extend_from_slice(b"C\t");
        report.extend_from_slice(id);
        report.extend_from_slice(b"\t1\t10\t1:10\n");
    }
    parse_koutput(&report, &taxa(&[b"1"]), None)
}

fn rendered(records: &[FastqRecord]) -> Vec<u8> {
    let mut out = Vec::new();
    for r in records {
        r.extend(&mut out);
    }
    out
}

fn concat1(packs: &[(Vec<u8>, Vec<u8>)]) -> Vec<u8> {
    packs.iter().flat_map(|p| p.0.iter().copied()).collect()
}

fn concat2(packs: &[(Vec<u8>, Vec<u8>)]) -> Vec<u8> {
    packs.iter().flat_map(|p| p.1.iter().copied()).collect()
}

#[test]
fn scenario_canonical_taxid() {
    let report = b"C\tread1\t562\t150\tA:10 562:20\nU\tread2\t0\t150\t0:30\nC\tread3\t9606\t150\tA:5 9606:25\n";
    let sel = parse_koutput(report, &taxa(&[b"562"]), None);
    assert!(sel.contains_id(b"read1"));
    assert!(!sel.contains_id(b"read2"));
    assert!(!sel.contains_id(b"read3"));
    let entry = sel.get(b"read1").unwrap();
    assert_eq!(entry.taxid, b"562".to_vec());
    assert_eq!(entry.length, b"150".to_vec());
    assert_eq!(entry.lca, b"A:10 562:20".to_vec());
}

#[test]
fn scenario_parenthesized_taxid_with_exclusion() {
    let report = b"C\tr1\tEscherichia coli (taxid 562)\t150\tA:10 562:20\nC\tr2\tHomo sapiens (taxid 9606)\t150\t9606:30\n";
    let patterns = vec![b"9606:".to_vec()];
    let ac = ExclusionMatcher::new(&patterns).unwrap();
    let sel = parse_koutput(report, &taxa(&[b"562", b"9606"]), Some(&ac));
    assert!(sel.contains_id(b"r1"));
    assert!(!sel.contains_id(b"r2"));
    assert_eq!(sel.get(b"r1").unwrap().taxid, b"562".to_vec());
}

#[test]
fn scenario_paired_filter_plain() {
    let sel = selection_of(&[b"r1", b"r3"]);
    let in1 = vec![
        record(b"r1", b"ACGT", b"!!!!"),
        record(b"r2", b"CCCC", b"####"),
        record(b"r3", b"GGTA", b"$$$$"),
    ];
    let in2 = vec![
        record(b"r1", b"TTTT", b"%%%%"),
        record(b"r2", b"AAAA", b"&&&&"),
        record(b"r3", b"CGCG", b"''''"),
    ];
    let packs = filter_paired(&in1, &in2, &sel, 1 << 16).unwrap();
    let expected1 = rendered(&[record(b"r1", b"ACGT", b"!!!!"), record(b"r3", b"GGTA", b"$$$$")]);
    let expected2 = rendered(&[record(b"r1", b"TTTT", b"%%%%"), record(b"r3", b"CGCG", b"''''")]);
    assert_eq!(concat1(&packs), expected1);
    assert_eq!(concat2(&packs), expected2);
}

#[test]
fn scenario_pair_id_mismatch() {
    let sel = selection_of(&[b"r5"]);
    let in1 = vec![record(b"r5", b"ACGT", b"!!!!")];
    let in2 = vec![record(b"r6", b"ACGT", b"!!!!")];
    let err = filter_paired(&in1, &in2, &sel, 1 << 16).unwrap_err();
    match err {
        FastqParseError::FastqPairError { read1_id, read2_id } => {
            assert_eq!(read1_id, b"r5".to_vec());
            assert_eq!(read2_id, b"r6".to_vec());
        },
        other => panic!("expected a pair error, got {:?}", other),
    }
}

#[test]
fn scenario_gzip_output_round_trips() {
    let sel = selection_of(&[b"r1", b"r3"]);
    let in1 = vec![
        record(b"r1", b"ACGT", b"!!!!"),
        record(b"r2", b"CCCC", b"####"),
        record(b"r3", b"GGTA", b"$$$$"),
    ];
    let in2 = vec![
        record(b"r1", b"TTTT", b"%%%%"),
        record(b"r2", b"AAAA", b"&&&&"),
        record(b"r3", b"CGCG", b"''''"),
    ];
    // A small chunk size forces several packs, hence several gzip members.
    let packs = filter_paired(&in1, &in2, &sel, 8).unwrap();
    assert!(packs.len() > 1);
    let plain1 = concat1(&packs);
    let plain2 = concat2(&packs);
    let mut file1 = Vec::new();
    let mut file2 = Vec::new();
    for (p1, p2) in packs {
        let e1 = encode_pack(p1.clone(), true, 6).unwrap();
        let e2 = encode_pack(p2.clone(), true, 6).unwrap();
        assert_ne!(e1, p1);
        file1.extend_from_slice(&e1);
        file2.extend_from_slice(&e2);
    }
    let mut out1 = Vec::new();
    flate2::read::MultiGzDecoder::new(&file1[..]).read_to_end(&mut out1).unwrap();
    let mut out2 = Vec::new();
    flate2::read::MultiGzDecoder::new(&file2[..]).read_to_end(&mut out2).unwrap();
    assert_eq!(out1, plain1);
    assert_eq!(out2, plain2);
    assert_eq!(out1, rendered(&[record(b"r1", b"ACGT", b"!!!!"), record(b"r3", b"GGTA", b"$$$$")]));
}

#[test]
fn scenario_uneven_pair_lengths() {
    let sel = selection_of(&[b"r1"]);
    let mut in1 = Vec::new();
    let mut in2 = Vec::new();
    for i in 0..100u32 {
        let id = format!("q{}", i).into_bytes();
        in1.push(record(&id, b"ACGT", b"!!!!"));
        if i < 99 {
            in2.push(record(&id, b"ACGT", b"!!!!"));
        }
    }
    let err = filter_paired(&in1, &in2, &sel, 1 << 16).unwrap_err();
    assert_eq!(err, FastqParseError::CountMismatch { len1: 100, len2: 99 });
}

#[test]
fn empty_report_empty_selection_empty_outputs() {
    let sel = parse_koutput(b"", &taxa(&[b"562"]), None);
    assert!(sel.is_empty());
    let in1 = vec![record(b"r1", b"ACGT", b"!!!!")];
    let in2 = vec![record(b"r1", b"TTTT", b"%%%%")];
    let packs = filter_paired(&in1, &in2, &sel, 1 << 16).unwrap();
    assert!(packs.is_empty());
}

#[test]
fn all_unclassified_empty_outputs() {
    let report = b"U\tr1\t0\t150\t0:30\nU\tr2\t0\t150\t0:30\n";
    let sel = parse_koutput(report, &taxa(&[b"562"]), None);
    assert!(sel.is_empty());
    let in1 = vec![record(b"r1", b"ACGT", b"!!!!")];
    let in2 = vec![record(b"r1", b"TTTT", b"%%%%")];
    let packs = filter_paired(&in1, &in2, &sel, 1 << 16).unwrap();
    assert!(packs.is_empty());
}

#[test]
fn empty_taxon_set_empty_outputs() {
    let report = b"C\tr1\t562\t150\t562:30\n";
    let sel = parse_koutput(report, &taxa(&[]), None);
    assert!(sel.is_empty());
    let in1 = vec![record(b"r1", b"ACGT", b"!!!!")];
    let in2 = vec![record(b"r1", b"TTTT", b"%%%%")];
    let packs = filter_paired(&in1, &in2, &sel, 1 << 16).unwrap();
    assert!(packs.is_empty());
}

#[test]
fn zero_records_no_error_empty_outputs() {
    let sel = selection_of(&[b"r1"]);
    let in1: Vec<FastqRecord> = Vec::new();
    let in2: Vec<FastqRecord> = Vec::new();
    let packs = filter_paired(&in1, &in2, &sel, 1 << 16).unwrap();
    assert!(packs.is_empty());
}

#[test]
fn mixed_taxid_forms_both_admitted() {
    let report = b"C\ta\t562\t150\t562:10\nC\tb\tEscherichia coli (taxid 562)\t150\t562:10\n";
    let sel = parse_koutput(report, &taxa(&[b"562"]), None);
    assert!(sel.contains_id(b"a"));
    assert!(sel.contains_id(b"b"));
    assert_eq!(sel.get(b"a").unwrap().taxid, b"562".to_vec());
    assert_eq!(sel.get(b"b").unwrap().taxid, b"562".to_vec());
}

#[test]
fn malformed_parenthesized_taxid_discarded() {
    let report = b"C\tr1\tEscherichia coli (taxid 562\t150\t562:10\n";
    let sel = parse_koutput(report, &taxa(&[b"562"]), None);
    assert!(!sel.contains_id(b"r1"));
}

#[test]
fn missing_lca_field_discarded() {
    // Four fields only: no tab after the length, so the line is malformed.
    let report = b"C\tr1\t562\t150\n";
    let sel = parse_koutput(report, &taxa(&[b"562"]), None);
    assert!(sel.is_empty());
}

#[test]
fn filter_idempotent_on_own_output() {
    let sel = selection_of(&[b"r1", b"r3"]);
    let in1 = vec![
        record(b"r1", b"ACGT", b"!!!!"),
        record(b"r2", b"CCCC", b"####"),
        record(b"r3", b"GGTA", b"$$$$"),
    ];
    let in2 = in1.iter().map(|r| record(&r.id, &r.seq, &r.qual)).collect::<Vec<_>>();
    let packs = filter_paired(&in1, &in2, &sel, 1 << 16).unwrap();
    let out_bytes = concat1(&packs);
    // Parse the first run's output and run again with a selection that
    // admits every identifier present.
    let again1 = parse_fastq(&out_bytes).unwrap();
    let again2 = parse_fastq(&concat2(&packs)).unwrap();
    let all = selection_of(&[b"r1", b"r3"]);
    let packs2 = filter_paired(&again1, &again2, &all, 1 << 16).unwrap();
    assert_eq!(concat1(&packs2), out_bytes);
}
