//! Byte-level scanning primitives: first occurrence of a byte, of a
//! whitespace byte, and of a byte subsequence, each with a spec-level
//! counterpart and a characterization lemma.

use vstd::prelude::*;

verus! {

/// True when the needle `n` occurs in `h` starting at index `i`.
pub open spec fn is_match_at(h: Seq<u8>, n: Seq<u8>, i: int) -> bool {
    0 <= i && i + n.len() <= h.len() && h.subrange(i, i + n.len()) == n
}

/// True when the needle `n` occurs somewhere in `h` as a contiguous run.
pub open spec fn contains_bytes(h: Seq<u8>, n: Seq<u8>) -> bool {
    exists|i: int| is_match_at(h, n, i)
}

/// ASCII whitespace as it delimits a read identifier in a FASTQ header.
pub open spec fn is_ws(b: u8) -> bool {
    b == 32 || b == 9
}

/// Index of the first occurrence of `b` in `s`, or `s.len()` if `b` does
/// not occur.
pub open spec fn first_byte_at(s: Seq<u8>, b: u8) -> int
    decreases s.len(),
{
    if s.len() == 0 {
        0
    } else if s[0] == b {
        0
    } else {
        1 + first_byte_at(s.drop_first(), b)
    }
}

/// Index of the first whitespace byte in `s`, or `s.len()` if none occurs.
pub open spec fn first_ws_at(s: Seq<u8>) -> int
    decreases s.len(),
{
    if s.len() == 0 {
        0
    } else if is_ws(s[0]) {
        0
    } else {
        1 + first_ws_at(s.drop_first())
    }
}

/// What `first_byte_at` returns: the position of the first occurrence.
pub proof fn lemma_first_byte_at(s: Seq<u8>, b: u8)
    ensures
        0 <= first_byte_at(s, b) <= s.len(),
        first_byte_at(s, b) < s.len() ==> s[first_byte_at(s, b)] == b,
        forall|j: int| 0 <= j < first_byte_at(s, b) ==> s[j] != b,
    decreases s.len(),
{
    if s.len() != 0 && s[0] != b {
        let t = s.drop_first();
        lemma_first_byte_at(t, b);
        assert forall|j: int| 0 <= j < first_byte_at(s, b) implies s[j] != b by {
            if j >= 1 {
                assert(s[j] == t[j - 1]);
            }
        }
    }
}

/// `first_byte_at` is pinned down by the properties of `lemma_first_byte_at`.
pub proof fn lemma_first_byte_at_unique(s: Seq<u8>, b: u8, i: int)
    requires
        0 <= i <= s.len(),
        i < s.len() ==> s[i] == b,
        forall|j: int| 0 <= j < i ==> s[j] != b,
    ensures
        first_byte_at(s, b) == i,
    decreases s.len(),
{
    if s.len() != 0 && s[0] != b {
        lemma_first_byte_at_unique(s.drop_first(), b, i - 1);
    }
}

/// What `first_ws_at` returns: the position of the first whitespace byte.
pub proof fn lemma_first_ws_at(s: Seq<u8>)
    ensures
        0 <= first_ws_at(s) <= s.len(),
        first_ws_at(s) < s.len() ==> is_ws(s[first_ws_at(s)]),
        forall|j: int| 0 <= j < first_ws_at(s) ==> !is_ws(s[j]),
    decreases s.len(),
{
    if s.len() != 0 && !is_ws(s[0]) {
        let t = s.drop_first();
        lemma_first_ws_at(t);
        assert forall|j: int| 0 <= j < first_ws_at(s) implies !is_ws(s[j]) by {
            if j >= 1 {
                assert(s[j] == t[j - 1]);
            }
        }
    }
}

/// `first_ws_at` is pinned down by the properties of `lemma_first_ws_at`.
pub proof fn lemma_first_ws_at_unique(s: Seq<u8>, i: int)
    requires
        0 <= i <= s.len(),
        i < s.len() ==> is_ws(s[i]),
        forall|j: int| 0 <= j < i ==> !is_ws(s[j]),
    ensures
        first_ws_at(s) == i,
    decreases s.len(),
{
    if s.len() != 0 && !is_ws(s[0]) {
        lemma_first_ws_at_unique(s.drop_first(), i - 1);
    }
}

/// Index of the first occurrence of the subsequence `n` in `h`, if any.
pub open spec fn first_match(h: Seq<u8>, n: Seq<u8>) -> Option<int>
    decreases h.len(),
{
    if is_match_at(h, n, 0) {
        Some(0int)
    } else if h.len() == 0 {
        None
    } else {
        match first_match(h.drop_first(), n) {
            Some(i) => Some(i + 1),
            None => None,
        }
    }
}

/// What `first_match` returns: the position of the first occurrence of `n`,
/// or `None` when `n` does not occur at all.
pub proof fn lemma_first_match(h: Seq<u8>, n: Seq<u8>)
    ensures
        match first_match(h, n) {
            Some(i) => is_match_at(h, n, i) && forall|k: int| 0 <= k < i ==> !is_match_at(h, n, k),
            None => !contains_bytes(h, n),
        },
    decreases h.len(),
{
    if is_match_at(h, n, 0) {
    } else if h.len() == 0 {
        assert forall|i: int| !is_match_at(h, n, i) by {
            if is_match_at(h, n, i) {
                assert(i == 0);
            }
        }
    } else {
        lemma_first_match(h.drop_first(), n);
        let t = h.drop_first();
        assert forall|i: int| is_match_at(h, n, i) && i >= 1 implies is_match_at(t, n, i - 1) by {
            assert(t.subrange(i - 1, i - 1 + n.len() as int) =~= h.subrange(i, i + n.len() as int));
        }
        assert forall|i: int| is_match_at(t, n, i) implies is_match_at(h, n, i + 1) by {
            assert(h.subrange(i + 1, i + 1 + n.len() as int) =~= t.subrange(i, i + n.len() as int));
        }
        match first_match(t, n) {
            Some(i) => {
                assert(is_match_at(h, n, i + 1));
                assert forall|k: int| 0 <= k < i + 1 implies !is_match_at(h, n, k) by {
                    if k >= 1 && is_match_at(h, n, k) {
                        assert(is_match_at(t, n, k - 1));
                    }
                }
            },
            None => {
                assert forall|i: int| !is_match_at(h, n, i) by {
                    if is_match_at(h, n, i) {
                        assert(i >= 1);
                        assert(is_match_at(t, n, i - 1));
                        assert(contains_bytes(t, n));
                    }
                }
            },
        }
    }
}

/// `first_match` is pinned down by the properties of `lemma_first_match`.
pub proof fn lemma_first_match_unique(h: Seq<u8>, n: Seq<u8>, i: int)
    requires
        is_match_at(h, n, i),
        forall|k: int| 0 <= k < i ==> !is_match_at(h, n, k),
    ensures
        first_match(h, n) == Some(i),
{
    lemma_first_match(h, n);
    match first_match(h, n) {
        Some(j) => {
            if j < i {
                assert(!is_match_at(h, n, j));
            }
            if i < j {
                assert(!is_match_at(h, n, i));
            }
        },
        None => {
            assert(contains_bytes(h, n));
        },
    }
}

/// First occurrence of `b` in `data` at or after `start`.
pub fn find_byte(data: &[u8], start: usize, b: u8) -> (r: Option<usize>)
    requires
        start <= data@.len(),
    ensures
        match r {
            Some(i) => start <= i < data@.len() && data@[i as int] == b && forall|j: int|
                start <= j < i ==> data@[j] != b,
            None => forall|j: int| start <= j < data@.len() ==> data@[j] != b,
        },
{
    let mut i: usize = start;
    while i < data.len()
        invariant
            start <= i <= data@.len(),
            forall|j: int| start <= j < i ==> data@[j] != b,
        decreases data@.len() - i,
    {
        if data[i] == b {
            return Some(i);
        }
        i += 1;
    }
    None
}

/// First occurrence of a whitespace byte in `data`.
pub fn find_ws(data: &[u8]) -> (r: usize)
    ensures
        r == first_ws_at(data@),
{
    let mut i: usize = 0;
    while i < data.len()
        invariant
            i <= data@.len(),
            forall|j: int| 0 <= j < i ==> !is_ws(data@[j]),
        decreases data@.len() - i,
    {
        if data[i] == 32 || data[i] == 9 {
            proof {
                lemma_first_ws_at_unique(data@, i as int);
            }
            return i;
        }
        i += 1;
    }
    proof {
        lemma_first_ws_at_unique(data@, data@.len() as int);
    }
    i
}

/// Byte-slice equality, with an exact contract over the views.
pub fn bytes_eq(a: &[u8], b: &[u8]) -> (r: bool)
    ensures
        r == (a@ == b@),
{
    if a.len() != b.len() {
        assert(a@ != b@);
        return false;
    }
    let mut i: usize = 0;
    while i < a.len()
        invariant
            a@.len() == b@.len(),
            i <= a@.len(),
            forall|j: int| 0 <= j < i ==> a@[j] == b@[j],
        decreases a@.len() - i,
    {
        if a[i] != b[i] {
            return false;
        }
        i += 1;
    }
    assert(a@ =~= b@);
    true
}

/// First occurrence of the subsequence `needle` in `data`, if any.
pub fn find_sub(data: &[u8], needle: &[u8]) -> (r: Option<usize>)
    ensures
        match r {
            Some(i) => first_match(data@, needle@) == Some(i as int),
            None => first_match(data@, needle@) is None,
        },
{
    if needle.len() > data.len() {
        proof {
            lemma_first_match(data@, needle@);
            if first_match(data@, needle@) is Some {
                let i = first_match(data@, needle@).unwrap();
                assert(is_match_at(data@, needle@, i));
            }
        }
        return None;
    }
    let mut i: usize = 0;
    while i <= data.len() - needle.len()
        invariant
            data@.len() <= usize::MAX,
            needle@.len() <= data@.len(),
            i <= data@.len() - needle@.len() + 1,
            forall|k: int| 0 <= k < i ==> !is_match_at(data@, needle@, k),
        decreases data@.len() - i,
    {
        let mut j: usize = 0;
        let mut ok = true;
        while ok && j < needle.len()
            invariant
                data@.len() <= usize::MAX,
                i + needle@.len() <= data@.len(),
                j <= needle@.len(),
                ok ==> forall|t: int| 0 <= t < j ==> data@[i + t] == needle@[t],
                !ok ==> j < needle@.len() && data@[i + j] != needle@[j as int],
            decreases needle@.len() - j + (if ok { 1int } else { 0int }),
        {
            if data[i + j] != needle[j] {
                ok = false;
            } else {
                j += 1;
            }
        }
        if ok {
            proof {
                assert(data@.subrange(i as int, i + needle@.len()) =~= needle@);
                lemma_first_match_unique(data@, needle@, i as int);
            }
            return Some(i);
        }
        proof {
            assert(data@.subrange(i as int, i + needle@.len()) != needle@) by {
                assert(data@.subrange(i as int, i + needle@.len())[j as int] == data@[i + j]);
            }
        }
        assert(!is_match_at(data@, needle@, i as int));
        i += 1;
    }
    proof {
        assert forall|k: int| !is_match_at(data@, needle@, k) by {
            if is_match_at(data@, needle@, k) {
                assert(k < i);
            }
        }
        lemma_first_match(data@, needle@);
        if first_match(data@, needle@) is Some {
            let k = first_match(data@, needle@).unwrap();
            assert(is_match_at(data@, needle@, k));
        }
    }
    None
}

/// Appends every byte of `src` to `dst`.
pub fn push_bytes(dst: &mut Vec<u8>, src: &[u8])
    ensures
        final(dst)@ == old(dst)@ + src@,
{
    let mut i: usize = 0;
    while i < src.len()
        invariant
            i <= src@.len(),
            dst@ == old(dst)@ + src@.subrange(0, i as int),
        decreases src@.len() - i,
    {
        dst.push(src[i]);
        assert(old(dst)@ + src@.subrange(0, i as int) + seq![src@[i as int]] =~= old(dst)@
            + src@.subrange(0, i + 1));
        i += 1;
    }
    assert(old(dst)@ + src@.subrange(0, src@.len() as int) =~= old(dst)@ + src@);
}

}
