//! Unit tests of the building blocks: FASTQ parsing and its errors, the
//! render round trip, number parsing, path handling, batching, and the
//! selection structures.

use kractor::batch::Batcher;
use kractor::fastq::parse_fastq;
use kractor::fastq::FastqParseError;
use kractor::gzip::gz_compressed;
use kractor::gzip::validate_compression_level;
use kractor::koutput::parse_koutput;
use kractor::record::FastqRecord;
use kractor::selection::KoutputEntry;
use kractor::selection::SelectionMap;
use kractor::selection::TaxonSet;
use kractor::util::parse_usize;

fn record(id: &[u8], seq: &[u8], qual: &[u8]) -> FastqRecord {
    FastqRecord { id: id.to_vec(), seq: seq.to_vec(), qual: qual.to_vec() }
}

#[test]
fn fastq_parse_simple() {
    let data = b"@r1 extra description\nACGT\n+\n!!!!\n@r2\nCC\n+r2\n##\n";
    let records = parse_fastq(data).unwrap();
    assert_eq!(records.len(), 2);
    assert_eq!(records[0].id, b"r1".to_vec());
    assert_eq!(records[0].seq, b"ACGT".to_vec());
    assert_eq!(records[0].qual, b"!!!!".to_vec());
    assert_eq!(records[1].id, b"r2".to_vec());
}

#[test]
fn fastq_parse_no_trailing_newline() {
    let data = b"@r1\nACGT\n+\n!!!!";
    let records = parse_fastq(data).unwrap();
    assert_eq!(records.len(), 1);
    assert_eq!(records[0].qual, b"!!!!".to_vec());
}

#[test]
fn fastq_parse_bad_header() {
    let data = b"r1\nACGT\n+\n!!!!\n";
    let err = parse_fastq(data).unwrap_err();
    assert_eq!(err, FastqParseError::InvalidHeader { record_index: 0 });
}

#[test]
fn fastq_parse_bad_separator() {
    let data = b"@r1\nACGT\n+\n!!!!\n@r2\nCC\n-\n##\n";
    let err = parse_fastq(data).unwrap_err();
    assert_eq!(err, FastqParseError::InvalidSeparator { record_index: 1 });
}

#[test]
fn fastq_parse_length_mismatch() {
    let data = b"@r1\nACGT\n+\n!!!\n";
    let err = parse_fastq(data).unwrap_err();
    assert_eq!(err, FastqParseError::LengthMismatch { record_index: 0 });
}

#[test]
fn fastq_parse_truncated() {
    let data = b"@r1\nACGT\n+\n!!!!\n@r2\nCC\n";
    let err = parse_fastq(data).unwrap_err();
    assert_eq!(err, FastqParseError::Truncated { record_index: 1 });
}

#[test]
fn fastq_render_parse_round_trip() {
    let records =
        vec![record(b"r1", b"ACGT", b"!!!!"), record(b"x", b"", b""), record(b"r3", b"GG", b"##")];
    let mut bytes = Vec::new();
    for r in &records {
        r.extend(&mut bytes);
    }
    let back = parse_fastq(&bytes).unwrap();
    assert_eq!(back.len(), records.len());
    for (a, b) in back.iter().zip(records.iter()) {
        assert_eq!(a.id, b.id);
        assert_eq!(a.seq, b.seq);
        assert_eq!(a.qual, b.qual);
    }
}

#[test]
fn parse_usize_values() {
    assert_eq!(parse_usize(b"150"), Some(150));
    assert_eq!(parse_usize(b"  42\t"), Some(42));
    assert_eq!(parse_usize(b"+7"), Some(7));
    assert_eq!(parse_usize(b"0"), Some(0));
    assert_eq!(parse_usize(b""), None);
    assert_eq!(parse_usize(b"  "), None);
    assert_eq!(parse_usize(b"12a"), None);
    assert_eq!(parse_usize(b"-3"), None);
    assert_eq!(parse_usize(b"99999999999999999999999999"), None);
    assert_eq!(parse_usize(b"18446744073709551615"), Some(usize::MAX));
}

#[test]
fn gz_suffix_detection() {
    assert!(gz_compressed(b"reads.fastq.gz"));
    assert!(gz_compressed(b"READS.FASTQ.GZ"));
    assert!(gz_compressed(b"a.Gz"));
    assert!(!gz_compressed(b"reads.fastq"));
    assert!(!gz_compressed(b"gz"));
    assert!(!gz_compressed(b"reads.gzip"));
}

#[test]
fn compression_level_range() {
    assert_eq!(validate_compression_level(0), Ok(0));
    assert_eq!(validate_compression_level(6), Ok(6));
    assert_eq!(validate_compression_level(12), Ok(12));
    assert!(validate_compression_level(-1).is_err());
    assert!(validate_compression_level(13).is_err());
}

#[test]
fn batcher_emits_full_batches() {
    let mut b: Batcher<u32> = Batcher::with_capacity(3);
    assert_eq!(b.push(1), None);
    assert_eq!(b.push(2), None);
    assert_eq!(b.push(3), Some(vec![1, 2, 3]));
    assert_eq!(b.push(4), None);
    assert_eq!(b.flush(), Some(vec![4]));
    assert_eq!(b.flush(), None);
}

#[test]
fn selection_map_last_writer_wins() {
    let mut sel = SelectionMap::new();
    sel.insert(KoutputEntry {
        id: b"r1".to_vec(),
        length: b"100".to_vec(),
        taxid: b"1".to_vec(),
        lca: b"1:10".to_vec(),
    });
    sel.insert(KoutputEntry {
        id: b"r1".to_vec(),
        length: b"200".to_vec(),
        taxid: b"2".to_vec(),
        lca: b"2:20".to_vec(),
    });
    let e = sel.get(b"r1").unwrap();
    assert_eq!(e.length, b"200".to_vec());
    assert_eq!(e.taxid, b"2".to_vec());
    assert!(sel.get(b"r2").is_none());
}

#[test]
fn selection_map_duplicate_keys_in_report() {
    let report = b"C\tr1\t562\t100\t562:10\nC\tr1\t9606\t200\t9606:20\n";
    let taxa = TaxonSet::from_items(vec![b"562".to_vec(), b"9606".to_vec()]);
    let sel = parse_koutput(report, &taxa, None);
    let e = sel.get(b"r1").unwrap();
    assert_eq!(e.taxid, b"9606".to_vec());
    assert_eq!(e.length, b"200".to_vec());
}

#[test]
fn taxon_set_membership() {
    let mut t = TaxonSet::new();
    assert!(!t.contains(b"562"));
    t.insert(b"562".to_vec());
    assert!(t.contains(b"562"));
    assert!(!t.contains(b"56"));
    assert!(!t.contains(b"5620"));
}

#[test]
fn lca_field_ends_at_next_tab() {
    let report = b"C\tr1\t562\t150\t562:10 A:2\textra\n";
    let taxa = TaxonSet::from_items(vec![b"562".to_vec()]);
    let sel = parse_koutput(report, &taxa, None);
    assert_eq!(sel.get(b"r1").unwrap().lca, b"562:10 A:2".to_vec());
}
