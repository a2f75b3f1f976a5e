//! The decisions of reading a ZIF file over HTTP range requests: which
//! chunk a response carries.
use vstd::prelude::*;

use crate::error::Error;
use crate::model::{Chunk, Request};
use core::ops::Range;

verus! {

/// Whether `b` is an ASCII decimal digit.
pub open spec fn is_digit(b: u8) -> bool {
    48 <= b <= 57
}

/// The value of a string of decimal digits.
pub open spec fn digits_value(s: Seq<u8>) -> int
    decreases s.len(),
{
    if s.len() == 0 {
        0
    } else {
        digits_value(s.drop_last()) * 10 + (s.last() - 48)
    }
}

/// The value of `s` when it is a non-empty string of decimal digits whose
/// value fits in 64 bits.
pub open spec fn spec_parse_digits(s: Seq<u8>) -> Option<u64> {
    if s.len() > 0 && (forall|i: int| 0 <= i < s.len() ==> is_digit(#[trigger] s[i])) && digits_value(s) <= u64::MAX {
        Some(digits_value(s) as u64)
    } else {
        None
    }
}

/// What `u64::from_str` gives for `s`: an optional `+` followed by at least
/// one decimal digit, with a value that fits in 64 bits.
pub open spec fn spec_parse_u64(s: Seq<u8>) -> Option<u64> {
    if s.len() > 0 && s[0] == 43 {
        spec_parse_digits(s.subrange(1, s.len() as int))
    } else {
        spec_parse_digits(s)
    }
}

/// Index of the first `b` in `s` at or after `i`.
pub open spec fn find_from(s: Seq<u8>, b: u8, i: int) -> Option<int>
    decreases s.len() - i,
{
    if i < 0 || i >= s.len() {
        None
    } else if s[i] == b {
        Some(i)
    } else {
        find_from(s, b, i + 1)
    }
}

/// The bytes of `bytes ` that open a `Content-Range` value.
pub open spec fn bytes_unit() -> Seq<u8> {
    seq![98u8, 121, 116, 101, 115, 32]
}

/// The half-open byte range that a `Content-Range` value of the form
/// `bytes <first>-<last>/<length>` announces.
pub open spec fn spec_content_range(v: Seq<u8>) -> Option<(u64, u64)> {
    if v.len() >= 6 && v.subrange(0, 6) == bytes_unit() {
        let rest = v.subrange(6, v.len() as int);
        match find_from(rest, 47, 0) {
            None => None,
            Some(slash) => {
                let range = rest.subrange(0, slash);
                match find_from(range, 45, 0) {
                    None => None,
                    Some(dash) => match (
                        spec_parse_u64(range.subrange(0, dash)),
                        spec_parse_u64(range.subrange(dash + 1, range.len() as int)),
                    ) {
                        (Some(first), Some(last)) => if last < u64::MAX {
                            Some((first, (last + 1) as u64))
                        } else {
                            None
                        },
                        _ => None,
                    },
                }
            },
        }
    } else {
        None
    }
}

proof fn lemma_digits_prefix(s: Seq<u8>, i: int, j: int)
    requires
        0 <= i <= j <= s.len(),
        forall|k: int| 0 <= k < s.len() ==> is_digit(#[trigger] s[k]),
    ensures
        0 <= digits_value(s.take(i)) <= digits_value(s.take(j)),
    decreases j,
{
    if j > 0 {
        if i < j {
            lemma_digits_prefix(s, i, j - 1);
        } else {
            lemma_digits_prefix(s, j - 1, j - 1);
        }
        assert(s.take(j).drop_last() =~= s.take(j - 1));
        assert(is_digit(s[j - 1]));
    } else {
        assert(s.take(0) =~= Seq::<u8>::empty());
    }
}

fn find_byte(s: &[u8], b: u8) -> (r: Option<usize>)
    ensures
        r matches Some(i) ==> find_from(s@, b, 0) == Some(i as int) && i < s@.len(),
        r is None ==> find_from(s@, b, 0) is None,
{
    let mut i: usize = 0;
    while i < s.len()
        invariant
            i <= s@.len(),
            find_from(s@, b, 0) == find_from(s@, b, i as int),
        decreases s@.len() - i,
    {
        if s[i] == b {
            return Some(i);
        }
        i = i + 1;
    }
    None
}

fn parse_digits(s: &[u8]) -> (r: Option<u64>)
    ensures
        r == spec_parse_digits(s@),
{
    if s.len() == 0 {
        return None;
    }
    let mut v: u64 = 0;
    let mut i: usize = 0;
    while i < s.len()
        invariant
            i <= s@.len(),
            forall|k: int| 0 <= k < i ==> is_digit(#[trigger] s@[k]),
            v == digits_value(s@.take(i as int)),
        decreases s@.len() - i,
    {
        let c = s[i];
        if c < 48 || c > 57 {
            return None;
        }
        assert(s@.take(i + 1).drop_last() =~= s@.take(i as int));
        let d = (c - 48) as u64;
        let v10 = match v.checked_mul(10) {
            Some(x) => x,
            None => {
                proof {
                    if forall|k: int| 0 <= k < s@.len() ==> is_digit(#[trigger] s@[k]) {
                        lemma_digits_prefix(s@, i + 1, s@.len() as int);
                        assert(s@.take(s@.len() as int) =~= s@);
                    }
                }
                return None;
            },
        };
        v = match v10.checked_add(d) {
            Some(x) => x,
            None => {
                proof {
                    if forall|k: int| 0 <= k < s@.len() ==> is_digit(#[trigger] s@[k]) {
                        lemma_digits_prefix(s@, i + 1, s@.len() as int);
                        assert(s@.take(s@.len() as int) =~= s@);
                    }
                }
                return None;
            },
        };
        i = i + 1;
    }
    assert(s@.take(s@.len() as int) =~= s@);
    Some(v)
}

/// Parses a decimal `u64` as `u64::from_str` does.
pub fn parse_u64(s: &[u8]) -> (r: Option<u64>)
    ensures
        r == spec_parse_u64(s@),
{
    if s.len() > 0 && s[0] == 43 {
        let digits = vstd::slice::slice_subrange(s, 1, s.len());
        parse_digits(digits)
    } else {
        parse_digits(s)
    }
}

/// Parses a `Content-Range` value `bytes <first>-<last>/<length>` into the
/// half-open range it announces.
pub fn parse_content_range(value: &[u8]) -> (r: Option<Range<u64>>)
    ensures
        match spec_content_range(value@) {
            Some((start, end)) => r matches Some(range) && range.start == start && range.end == end,
            None => r is None,
        },
{
    if value.len() < 6 || value[0] != 98 || value[1] != 121 || value[2] != 116 || value[3] != 101 || value[4] != 115
        || value[5] != 32 {
        proof {
            if value@.len() >= 6 && value@.subrange(0, 6) == bytes_unit() {
                assert(value@.subrange(0, 6)[0] == 98u8);
                assert(value@.subrange(0, 6)[5] == 32u8);
            }
        }
        return None;
    }
    assert(value@.subrange(0, 6) =~= bytes_unit());
    let rest = vstd::slice::slice_subrange(value, 6, value.len());
    let slash = match find_byte(rest, 47) {
        Some(i) => i,
        None => return None,
    };
    let range = vstd::slice::slice_subrange(rest, 0, slash);
    let dash = match find_byte(range, 45) {
        Some(i) => i,
        None => return None,
    };
    let first = match parse_u64(vstd::slice::slice_subrange(range, 0, dash)) {
        Some(v) => v,
        None => return None,
    };
    let last = match parse_u64(vstd::slice::slice_subrange(range, dash + 1, range.len())) {
        Some(v) => v,
        None => return None,
    };
    if last == u64::MAX {
        return None;
    }
    Some(first..last + 1)
}

/// HTTP `200 OK`.
pub const STATUS_OK: u16 = 200;

/// HTTP `206 Partial Content`.
pub const STATUS_PARTIAL_CONTENT: u16 = 206;

/// The chunk that an HTTP response to a range request carries: a `206`
/// answer covers the range its `Content-Range` header announces (or, without
/// a usable header, bytes from the start of the file); a `200` answer is the
/// whole file, so it also gives the file's length; any other status is
/// refused.
pub fn chunk_from_response(status: u16, content_range: Option<&[u8]>, bytes: Vec<u8>) -> (r: Result<Chunk, Error>)
    ensures
        status != STATUS_OK && status != STATUS_PARTIAL_CONTENT ==> (r matches Err(e) && e is InvalidInput),
        status == STATUS_OK || status == STATUS_PARTIAL_CONTENT ==> match (if status == STATUS_PARTIAL_CONTENT {
            match content_range {
                Some(v) => spec_content_range(v@),
                None => None,
            }
        } else {
            None
        }) {
            Some((start, end)) => {
                &&& r is Ok <==> start <= end && end - start == bytes@.len()
                &&& r matches Ok(c) ==> c@.start == start && c@.end == end && c@.bytes == bytes@ && c@.file_len is None
                &&& r matches Err(e) ==> e is InvalidInput
            },
            None => {
                &&& r is Ok <==> bytes@.len() <= u64::MAX
                &&& r matches Ok(c) ==> c@.start == 0 && c@.end == bytes@.len() && c@.bytes == bytes@ && c@.file_len == (
                if status == STATUS_OK {
                    Some(bytes@.len() as u64)
                } else {
                    None
                })
                &&& r matches Err(e) ==> e is InvalidInput
            },
        },
{
    let range = if status == STATUS_OK {
        None
    } else if status == STATUS_PARTIAL_CONTENT {
        match content_range {
            Some(v) => parse_content_range(v),
            None => None,
        }
    } else {
        return Err(Error::InvalidInput("unexpected http status"));
    };
    match range {
        Some(r) => Chunk::new(r, bytes),
        None => if status == STATUS_OK {
            Chunk::whole_file(bytes)
        } else {
            Chunk::from_start(0, bytes)
        },
    }
}

/// The decimal digits of `v`, without leading zeros.
pub open spec fn decimal(v: nat) -> Seq<u8>
    decreases v,
{
    if v < 10 {
        seq![(48 + v) as u8]
    } else {
        decimal(v / 10).push((48 + v % 10) as u8)
    }
}

/// Decimal digits read back as the value they write.
pub proof fn lemma_decimal_reads_back(v: u64)
    ensures
        spec_parse_digits(decimal(v as nat)) == Some(v),
{
    lemma_decimal_digits(v as nat);
}

proof fn lemma_decimal_digits(v: nat)
    ensures
        decimal(v).len() > 0,
        forall|i: int| 0 <= i < decimal(v).len() ==> is_digit(#[trigger] decimal(v)[i]),
        digits_value(decimal(v)) == v,
    decreases v,
{
    if v >= 10 {
        lemma_decimal_digits(v / 10);
        let d = decimal(v);
        assert(d.drop_last() =~= decimal(v / 10));
        assert(v == (v / 10) * 10 + v % 10) by (nonlinear_arith);
        assert(0 <= v % 10 < 10);
        assert(d.last() == (48 + v % 10) as u8);
        assert(d.last() - 48 == v % 10);
        assert(digits_value(d) == digits_value(d.drop_last()) * 10 + (d.last() - 48));
        assert forall|i: int| 0 <= i < d.len() implies is_digit(#[trigger] d[i]) by {
            if i < d.len() - 1 {
                assert(d[i] == decimal(v / 10)[i]);
            }
        }
    } else {
        let d = decimal(v);
        assert(d.drop_last() =~= Seq::<u8>::empty());
        assert(d.last() - 48 == v);
        assert(digits_value(d) == digits_value(d.drop_last()) * 10 + (d.last() - 48));
    }
}

/// `bytes=`, which opens a `Range` header value.
pub open spec fn range_unit() -> Seq<u8> {
    seq![98u8, 121, 116, 101, 115, 61]
}

/// The `Range` header value that asks for the bytes `first..=last`.
pub open spec fn spec_range_header(first: u64, last: u64) -> Seq<u8> {
    range_unit() + decimal(first as nat) + seq![45u8] + decimal(last as nat)
}

fn push_decimal(out: &mut Vec<u8>, v: u64)
    ensures
        final(out)@ == old(out)@ + decimal(v as nat),
    decreases v,
{
    if v >= 10 {
        push_decimal(out, v / 10);
    }
    out.push(48 + (v % 10) as u8);
    assert(final(out)@ =~= old(out)@ + decimal(v as nat));
}

/// The `Range` header value for a request: `bytes=<first>-<last>` for the
/// bytes it covers, or none for an empty request, which needs no fetch.
pub fn range_header(req: &Request) -> (r: Option<Vec<u8>>)
    ensures
        r is None <==> req@.start == req@.end,
        r matches Some(b) ==> b@ == spec_range_header(req@.start, (req@.end - 1) as u64),
{
    let start = req.start();
    let end = req.end();
    if start >= end {
        proof {
            use_type_invariant(req);
        }
        return None;
    }
    let mut out: Vec<u8> = Vec::new();
    out.push(98);
    out.push(121);
    out.push(116);
    out.push(101);
    out.push(115);
    out.push(61);
    assert(out@ =~= range_unit());
    push_decimal(&mut out, start);
    out.push(45);
    push_decimal(&mut out, end - 1);
    assert(out@ =~= spec_range_header(start, (end - 1) as u64));
    Some(out)
}

} // verus!
