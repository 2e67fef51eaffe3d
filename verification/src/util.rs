//! Parsing an unsigned decimal from ASCII bytes, as configuration fields
//! arrive from the embedding host.

use vstd::prelude::*;

verus! {

/// ASCII whitespace as `trim` removes it: space, tab, newline, form feed,
/// carriage return.
pub open spec fn is_ascii_space(b: u8) -> bool {
    b == 32 || b == 9 || b == 10 || b == 12 || b == 13
}

/// `s` without its leading ASCII whitespace.
pub open spec fn trim_start(s: Seq<u8>) -> Seq<u8>
    decreases s.len(),
{
    if s.len() > 0 && is_ascii_space(s.first()) {
        trim_start(s.drop_first())
    } else {
        s
    }
}

/// `s` without its trailing ASCII whitespace.
pub open spec fn trim_end(s: Seq<u8>) -> Seq<u8>
    decreases s.len(),
{
    if s.len() > 0 && is_ascii_space(s.last()) {
        trim_end(s.drop_last())
    } else {
        s
    }
}

/// `s` without ASCII whitespace at either end.
pub open spec fn spec_trim_ascii(s: Seq<u8>) -> Seq<u8> {
    trim_end(trim_start(s))
}

/// An ASCII decimal digit.
pub open spec fn is_digit(b: u8) -> bool {
    48 <= b <= 57
}

/// Every byte of `s` is a decimal digit.
pub open spec fn all_digits(s: Seq<u8>) -> bool {
    forall|j: int| 0 <= j < s.len() ==> is_digit(#[trigger] s[j])
}

/// The value of a string of decimal digits, most significant first.
pub open spec fn digits_value(s: Seq<u8>) -> int
    decreases s.len(),
{
    if s.len() == 0 {
        0
    } else {
        digits_value(s.drop_last()) * 10 + (s.last() - 48)
    }
}

/// The digit string a trimmed numeric field carries: the field itself, or
/// the bytes after one leading `+` sign.
pub open spec fn spec_digits_of(s: Seq<u8>) -> Seq<u8> {
    let t = spec_trim_ascii(s);
    if t.len() > 0 && t[0] == 43 {
        t.drop_first()
    } else {
        t
    }
}

/// Whether a byte string parses as a `usize`: after trimming, a non-empty
/// run of decimal digits (optionally signed `+`) whose value fits.
pub open spec fn spec_parse_usize_ok(s: Seq<u8>) -> bool {
    let d = spec_digits_of(s);
    d.len() > 0 && all_digits(d) && digits_value(d) <= usize::MAX
}

/// The value of a digit-string prefix never exceeds the whole string's
/// value.
proof fn lemma_digits_value_prefix(s: Seq<u8>, i: int)
    requires
        all_digits(s),
        0 <= i <= s.len(),
    ensures
        digits_value(s.take(i)) <= digits_value(s),
        digits_value(s) >= 0,
    decreases s.len() - i,
{
    if i == s.len() {
        assert(s.take(i) =~= s);
        lemma_digits_value_nonneg(s);
    } else {
        lemma_digits_value_prefix(s, i + 1);
        assert(s.take(i + 1).drop_last() =~= s.take(i));
        assert(is_digit(s[i]));
        lemma_digits_value_nonneg(s.take(i));
    }
}

/// The value of a digit string is non-negative.
proof fn lemma_digits_value_nonneg(s: Seq<u8>)
    requires
        all_digits(s),
    ensures
        digits_value(s) >= 0,
    decreases s.len(),
{
    if s.len() > 0 {
        assert(all_digits(s.drop_last())) by {
            assert(forall|j: int| 0 <= j < s.len() - 1 ==> s.drop_last()[j] == s[j]);
        }
        lemma_digits_value_nonneg(s.drop_last());
        assert(is_digit(s.last()));
    }
}

/// Parses an ASCII decimal (optionally `+`-signed, surrounded by ASCII
/// whitespace) as a `usize`; `None` when the field is not such a number or
/// its value does not fit.
pub fn parse_usize(bytes: &[u8]) -> (r: Option<usize>)
    ensures
        match r {
            Some(n) => spec_parse_usize_ok(bytes@) && n == digits_value(spec_digits_of(bytes@)),
            None => !spec_parse_usize_ok(bytes@),
        },
{
    let n = bytes.len();
    let mut start: usize = 0;
    proof {
        assert(bytes@.skip(0) =~= bytes@);
    }
    while start < n && (bytes[start] == 32 || bytes[start] == 9 || bytes[start] == 10
        || bytes[start] == 12 || bytes[start] == 13)
        invariant
            n == bytes@.len(),
            start <= n,
            trim_start(bytes@) == trim_start(bytes@.skip(start as int)),
        decreases n - start,
    {
        proof {
            assert(bytes@.skip(start as int).drop_first() =~= bytes@.skip(start + 1));
        }
        start += 1;
    }
    let mut end: usize = n;
    proof {
        assert(trim_start(bytes@).len() == 0 || !is_ascii_space(trim_start(bytes@).first()))
            by {
            lemma_trim_start_head(bytes@);
        }
        assert(bytes@.skip(start as int).take((end - start) as int) =~= bytes@.skip(start as int));
    }
    while end > start && (bytes[end - 1] == 32 || bytes[end - 1] == 9 || bytes[end - 1] == 10
        || bytes[end - 1] == 12 || bytes[end - 1] == 13)
        invariant
            n == bytes@.len(),
            start <= end <= n,
            trim_start(bytes@) == bytes@.skip(start as int),
            spec_trim_ascii(bytes@) == trim_end(bytes@.skip(start as int).take((end - start) as int)),
        decreases end,
    {
        proof {
            let cur = bytes@.skip(start as int).take((end - start) as int);
            assert(cur.last() == bytes@[end - 1]);
            assert(cur.drop_last() =~= bytes@.skip(start as int).take((end - 1 - start as int)));
        }
        end -= 1;
    }
    proof {
        let cur = bytes@.skip(start as int).take((end - start) as int);
        if end > start {
            assert(cur.last() == bytes@[end - 1]);
        }
        assert(spec_trim_ascii(bytes@) == cur);
    }
    let ghost t = spec_trim_ascii(bytes@);
    let mut pos: usize = start;
    if end > start && bytes[start] == 43 {
        pos = start + 1;
        proof {
            assert(t.drop_first() =~= bytes@.skip(pos as int).take((end - pos) as int));
        }
    }
    let ghost d = spec_digits_of(bytes@);
    proof {
        assert(d =~= bytes@.skip(pos as int).take((end - pos) as int));
    }
    if pos == end {
        return None;
    }
    let mut acc: usize = 0;
    let mut i: usize = pos;
    while i < end
        invariant
            n == bytes@.len(),
            pos <= i <= end <= n,
            d == bytes@.skip(pos as int).take((end - pos) as int),
            d == spec_digits_of(bytes@),
            all_digits(d.take((i - pos) as int)),
            acc == digits_value(d.take((i - pos) as int)),
        decreases end - i,
    {
        let b = bytes[i];
        proof {
            assert(d[i - pos] == bytes@[i as int]);
            assert(d.take((i + 1 - pos) as int).drop_last() =~= d.take((i - pos) as int));
        }
        if b < 48 || b > 57 {
            proof {
                assert(!all_digits(d)) by {
                    assert(d[i - pos] == b);
                }
            }
            return None;
        }
        let digit = (b - 48) as usize;
        if acc > (usize::MAX - digit) / 10 {
            proof {
                assert(acc * 10 + digit > usize::MAX) by (nonlinear_arith)
                    requires
                        acc > (usize::MAX - digit) / 10,
                        digit <= 9,
                        acc >= 0,
                ;
                assert(all_digits(d.take((i + 1 - pos) as int)));
                assert(digits_value(d.take((i + 1 - pos) as int)) == acc * 10 + digit);
                if all_digits(d) {
                    lemma_digits_value_prefix(d, i + 1 - pos as int);
                }
            }
            return None;
        }
        assert(acc * 10 + digit <= usize::MAX) by (nonlinear_arith)
            requires
                acc <= (usize::MAX - digit) / 10,
                digit <= 9,
                acc >= 0,
        ;
        acc = acc * 10 + digit;
        i += 1;
    }
    proof {
        assert(d.take((end - pos) as int) =~= d);
    }
    Some(acc)
}

/// The result of `trim_start` never begins with whitespace.
proof fn lemma_trim_start_head(s: Seq<u8>)
    ensures
        trim_start(s).len() == 0 || !is_ascii_space(trim_start(s).first()),
    decreases s.len(),
{
    if s.len() > 0 && is_ascii_space(s.first()) {
        lemma_trim_start_head(s.drop_first());
    }
}

}
