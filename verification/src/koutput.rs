//! The classification parser: tab-delimited report lines are filtered by
//! status, taxon set and LCA exclusion patterns, and the selected
//! lines build the selection map.
//!
//! A line has five tab-separated fields: status (`C` or `U`), read
//! identifier, taxid field, length, and the LCA mapping. The taxid field is
//! either a bare identifier or a human-readable `name (taxid N)` form.

use vstd::prelude::*;

use crate::exclusion::exclusion_patterns;
use crate::exclusion::ExclusionMatcher;
use crate::exclusion::matches_any;
use crate::lines::spec_lines;
use crate::lines::split_lines;
use crate::lines::split_on;
use crate::lines::split_seq;
use crate::lines::views;
use crate::scan::find_byte;
use crate::scan::find_sub;
use crate::scan::first_byte_at;
use crate::scan::first_match;
use crate::scan::is_match_at;
use crate::scan::lemma_first_byte_at_unique;
use crate::scan::lemma_first_match;
use crate::selection::entry_models;
use crate::selection::map_of;
use crate::selection::KoutputEntry;
use crate::selection::KoutputEntryModel;
use crate::selection::SelectionMap;
use crate::selection::TaxonSet;
use vstd::slice::slice_subrange;
use vstd::slice::slice_to_vec;

verus! {

/// The bytes of the marker `(taxid ` that opens the parenthesized taxid
/// form.
pub open spec fn taxid_prefix() -> Seq<u8> {
    seq![40u8, 116u8, 97u8, 120u8, 105u8, 100u8, 32u8]
}

/// The tab-separated fields of a classification line.
pub open spec fn line_fields(line: Seq<u8>) -> Seq<Seq<u8>> {
    split_seq(line, 9)
}

/// The taxon identifier a taxid field carries: the bytes between the first
/// `(taxid ` marker and the next `)`, if the marker is present (`None` when
/// the closing parenthesis is missing), else the field itself.
pub open spec fn taxid_of(field: Seq<u8>) -> Option<Seq<u8>> {
    match first_match(field, taxid_prefix()) {
        Some(p) => {
            let rest = field.subrange(p + 7, field.len() as int);
            let e = first_byte_at(rest, 41);
            if e < rest.len() {
                Some(rest.subrange(0, e))
            } else {
                None
            }
        },
        None => Some(field),
    }
}

/// Whether a classification line is selected: it has all five fields, its
/// status is exactly `C`, its taxon identifier is in the taxon set, and no
/// exclusion pattern occurs in its LCA field.
pub open spec fn line_selected(
    line: Seq<u8>,
    taxa: Set<Seq<u8>>,
    excl: Option<Seq<Seq<u8>>>,
) -> bool {
    let fields = line_fields(line);
    &&& fields.len() >= 5
    &&& fields[0] == seq![67u8]
    &&& match taxid_of(fields[2]) {
        Some(t) => taxa.contains(t),
        None => false,
    }
    &&& match excl {
        Some(pats) => !matches_any(pats, fields[4]),
        None => true,
    }
}

/// The entry a selected line contributes: its read identifier, length
/// field, extracted taxon identifier, and LCA field.
pub open spec fn line_entry(line: Seq<u8>) -> KoutputEntryModel {
    let fields = line_fields(line);
    KoutputEntryModel {
        id: fields[1],
        length: fields[3],
        taxid: taxid_of(fields[2]).unwrap(),
        lca: fields[4],
    }
}

/// The entries of the selected lines, one per selected line, in line order.
pub open spec fn selected_entries(
    lines: Seq<Seq<u8>>,
    taxa: Set<Seq<u8>>,
    excl: Option<Seq<Seq<u8>>>,
) -> Seq<KoutputEntryModel>
    decreases lines.len(),
{
    if lines.len() == 0 {
        Seq::empty()
    } else {
        let rest = selected_entries(lines.drop_last(), taxa, excl);
        if line_selected(lines.last(), taxa, excl) {
            rest.push(line_entry(lines.last()))
        } else {
            rest
        }
    }
}

/// Parses one classification line: the entry it contributes if it is
/// selected, else `None`.
pub fn parse_koutput_line(
    line: &[u8],
    taxa: &TaxonSet,
    excl: Option<&ExclusionMatcher>,
) -> (r: Option<KoutputEntry>)
    ensures
        match r {
            Some(e) => line_selected(line@, taxa@, exclusion_patterns(excl)) && e@ == line_entry(
                line@,
            ),
            None => !line_selected(line@, taxa@, exclusion_patterns(excl)),
        },
{
    let fields = split_on(line, 9);
    proof {
        assert(views(fields@) == line_fields(line@));
    }
    if fields.len() < 5 {
        return None;
    }
    let status = &fields[0];
    if status.len() != 1 || status[0] != 67 {
        proof {
            assert(fields@[0]@ != seq![67u8]) by {
                if fields@[0]@.len() == 1 {
                    assert(fields@[0]@[0] != 67);
                }
            }
        }
        return None;
    }
    assert(fields@[0]@ =~= seq![67u8]);
    let tax_field = fields[2].as_slice();
    let prefix = taxid_prefix_bytes();
    let taxid: Vec<u8>;
    match find_sub(tax_field, prefix.as_slice()) {
        Some(p) => {
            let nfield = tax_field.len();
            proof {
                lemma_first_match(tax_field@, taxid_prefix());
                assert(is_match_at(tax_field@, taxid_prefix(), p as int));
                assert(p + 7 <= nfield);
            }
            let ghost rest = tax_field@.subrange(p + 7, tax_field@.len() as int);
            match find_byte(tax_field, p + 7, 41) {
                Some(e) => {
                    proof {
                        assert forall|j: int| 0 <= j < e - (p + 7) implies rest[j] != 41 by {
                            assert(rest[j] == tax_field@[p + 7 + j]);
                        }
                        assert(rest[e - (p + 7)] == 41);
                        lemma_first_byte_at_unique(rest, 41, e - (p + 7));
                        assert(rest.subrange(0, e - (p + 7)) =~= tax_field@.subrange(
                            p + 7,
                            e as int,
                        ));
                    }
                    taxid = slice_to_vec(slice_subrange(tax_field, p + 7, e));
                },
                None => {
                    proof {
                        assert forall|j: int| 0 <= j < rest.len() implies rest[j] != 41 by {
                            assert(rest[j] == tax_field@[p + 7 + j]);
                        }
                        lemma_first_byte_at_unique(rest, 41, rest.len() as int);
                    }
                    return None;
                },
            }
        },
        None => {
            taxid = slice_to_vec(tax_field);
        },
    }
    if !taxa.contains(taxid.as_slice()) {
        return None;
    }
    let lca_field = fields[4].as_slice();
    match excl {
        Some(matcher) => {
            if matcher.is_match(lca_field) {
                return None;
            }
        },
        None => {},
    }
    let entry = KoutputEntry {
        id: slice_to_vec(fields[1].as_slice()),
        length: slice_to_vec(fields[3].as_slice()),
        taxid,
        lca: slice_to_vec(lca_field),
    };
    Some(entry)
}

/// The exec counterpart of `taxid_prefix`.
fn taxid_prefix_bytes() -> (r: Vec<u8>)
    ensures
        r@ == taxid_prefix(),
{
    let r: Vec<u8> = vec![40, 116, 97, 120, 105, 100, 32];
    assert(r@ =~= taxid_prefix());
    r
}

/// Parses a batch of classification lines, keeping exactly the selected
/// ones, in order.
pub fn parse_koutput_lines(
    lines: &Vec<Vec<u8>>,
    taxa: &TaxonSet,
    excl: Option<&ExclusionMatcher>,
) -> (out: Vec<KoutputEntry>)
    ensures
        entry_models(out@) == selected_entries(views(lines@), taxa@, exclusion_patterns(excl)),
{
    let ghost all = views(lines@);
    let ghost pats = exclusion_patterns(excl);
    let mut out: Vec<KoutputEntry> = Vec::new();
    let mut i: usize = 0;
    proof {
        assert(all.take(0) =~= Seq::<Seq<u8>>::empty());
        assert(entry_models(out@) =~= selected_entries(all.take(0), taxa@, pats));
    }
    while i < lines.len()
        invariant
            i <= lines@.len(),
            all == views(lines@),
            pats == exclusion_patterns(excl),
            taxa@ == taxa@,
            entry_models(out@) == selected_entries(all.take(i as int), taxa@, pats),
        decreases lines@.len() - i,
    {
        let ghost before = entry_models(out@);
        let r = parse_koutput_line(lines[i].as_slice(), taxa, excl);
        proof {
            assert(all.take(i + 1).drop_last() =~= all.take(i as int));
            assert(all.take(i + 1).last() == all[i as int]);
        }
        match r {
            Some(e) => {
                out.push(e);
                proof {
                    assert(entry_models(out@) =~= before.push(e@));
                }
            },
            None => {},
        }
        i += 1;
    }
    proof {
        assert(all.take(lines@.len() as int) =~= all);
    }
    out
}

/// Parses a whole classification report and builds its selection map: split
/// into lines, select, and insert in order, the last writer winning on a
/// repeated read identifier.
pub fn parse_koutput(
    data: &[u8],
    taxa: &TaxonSet,
    excl: Option<&ExclusionMatcher>,
) -> (m: SelectionMap)
    ensures
        m@ == map_of(selected_entries(spec_lines(data@), taxa@, exclusion_patterns(excl))),
{
    let lines = split_lines(data);
    let entries = parse_koutput_lines(&lines, taxa, excl);
    SelectionMap::from_entries(entries)
}

}
