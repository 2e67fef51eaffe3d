//! Splitting a byte stream into separator-delimited pieces: tab-delimited
//! fields of a classification line, and newline-terminated lines of a text
//! stream (where trailing bytes without a final newline form a valid last
//! line).

use vstd::prelude::*;

use crate::scan::find_byte;
use crate::scan::first_byte_at;
use crate::scan::lemma_first_byte_at;
use crate::scan::lemma_first_byte_at_unique;
use vstd::slice::slice_subrange;
use vstd::slice::slice_to_vec;

verus! {

/// The views of a sequence of byte vectors.
pub open spec fn views(vs: Seq<Vec<u8>>) -> Seq<Seq<u8>> {
    vs.map_values(|v: Vec<u8>| v@)
}

/// `s` split at every occurrence of `sep`; the separators themselves are
/// dropped. An empty input is one empty piece, and a trailing separator
/// yields a trailing empty piece.
pub open spec fn split_seq(s: Seq<u8>, sep: u8) -> Seq<Seq<u8>>
    decreases s.len(),
{
    let i = first_byte_at(s, sep);
    if 0 <= i && i < s.len() {
        seq![s.subrange(0, i)] + split_seq(s.subrange(i + 1, s.len() as int), sep)
    } else {
        seq![s]
    }
}

/// The lines of a byte stream: pieces delimited by newline bytes, where a
/// final newline terminates the last line rather than opening an empty one.
pub open spec fn spec_lines(data: Seq<u8>) -> Seq<Seq<u8>> {
    if data.len() == 0 {
        Seq::empty()
    } else if data.last() == 10 {
        split_seq(data.drop_last(), 10)
    } else {
        split_seq(data, 10)
    }
}

/// A piece without the separator splits into itself alone.
pub proof fn lemma_split_single(a: Seq<u8>, sep: u8)
    requires
        forall|j: int| 0 <= j < a.len() ==> a[j] != sep,
    ensures
        split_seq(a, sep) == seq![a],
{
    lemma_first_byte_at(a, sep);
    if first_byte_at(a, sep) < a.len() {
        assert(a[first_byte_at(a, sep)] == sep);
    }
}

/// Splitting distributes over a separator that follows a separator-free
/// prefix.
pub proof fn lemma_split_concat(a: Seq<u8>, b: Seq<u8>, sep: u8)
    requires
        forall|j: int| 0 <= j < a.len() ==> a[j] != sep,
    ensures
        split_seq(a + seq![sep] + b, sep) == seq![a] + split_seq(b, sep),
{
    let s = a + seq![sep] + b;
    assert forall|j: int| 0 <= j < a.len() implies s[j] != sep by {
        assert(s[j] == a[j]);
    }
    lemma_first_byte_at_unique(s, sep, a.len() as int);
    assert(s.subrange(0, a.len() as int) =~= a);
    assert(s.subrange(a.len() as int + 1, s.len() as int) =~= b);
}

/// Splits `data` at every occurrence of `sep`.
pub fn split_on(data: &[u8], sep: u8) -> (r: Vec<Vec<u8>>)
    ensures
        views(r@) == split_seq(data@, sep),
{
    let mut out: Vec<Vec<u8>> = Vec::new();
    let mut pos: usize = 0;
    let n = data.len();
    assert(data@.subrange(0, data@.len() as int) =~= data@);
    assert(views(out@) + split_seq(data@, sep) =~= split_seq(data@, sep));
    loop
        invariant
            n == data@.len(),
            pos <= data@.len(),
            split_seq(data@, sep) == views(out@) + split_seq(data@.subrange(pos as int, data@.len() as int), sep),
        decreases data@.len() - pos + 1,
    {
        let ghost rest = data@.subrange(pos as int, data@.len() as int);
        match find_byte(data, pos, sep) {
            Some(i) => {
                let piece = slice_to_vec(slice_subrange(data, pos, i));
                proof {
                    assert forall|j: int| 0 <= j < i - pos implies rest[j] != sep by {
                        assert(rest[j] == data@[pos + j]);
                    }
                    assert(rest[i - pos] == sep);
                    lemma_first_byte_at_unique(rest, sep, i - pos);
                    assert(rest.subrange(0, i - pos) =~= data@.subrange(pos as int, i as int));
                    assert(rest.subrange(i - pos + 1, rest.len() as int) =~= data@.subrange(
                        i + 1,
                        data@.len() as int,
                    ));
                    assert(views(out@.push(piece)) =~= views(out@) + seq![piece@]);
                    assert(views(out@) + split_seq(rest, sep) =~= (views(out@) + seq![piece@])
                        + split_seq(data@.subrange(i + 1, data@.len() as int), sep));
                }
                out.push(piece);
                pos = i + 1;
            },
            None => {
                let piece = slice_to_vec(slice_subrange(data, pos, data.len()));
                proof {
                    assert forall|j: int| 0 <= j < rest.len() implies rest[j] != sep by {
                        assert(rest[j] == data@[pos + j]);
                    }
                    lemma_split_single(rest, sep);
                    assert(views(out@.push(piece)) =~= views(out@) + seq![piece@]);
                    assert(views(out@) + split_seq(rest, sep) =~= views(out@.push(piece)));
                }
                out.push(piece);
                return out;
            },
        }
    }
}

/// Splits `data` into its newline-terminated lines; bytes after the last
/// newline form a final line of their own.
pub fn split_lines(data: &[u8]) -> (r: Vec<Vec<u8>>)
    ensures
        views(r@) == spec_lines(data@),
{
    if data.len() == 0 {
        let r: Vec<Vec<u8>> = Vec::new();
        assert(views(r@) =~= spec_lines(data@));
        return r;
    }
    if data[data.len() - 1] == 10 {
        let body = slice_subrange(data, 0, data.len() - 1);
        assert(body@ =~= data@.drop_last());
        split_on(body, 10)
    } else {
        split_on(data, 10)
    }
}

}
