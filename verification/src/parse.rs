//! Record parsing: the temperature field of a line, decoded as decimal text
//! and parsed into a fixed-point value in tenths of a unit.
//!
//! Accepted text, after trimming surrounding ASCII whitespace: an optional
//! sign, one or more digits, optionally followed by a point and one or more
//! digits. The value is rounded to the nearest tenth, ties away from zero.
//! Anything else — and any magnitude beyond `TEMP_LIMIT` — is rejected, and
//! the caller silently drops the line.

use vstd::prelude::*;
use crate::records::TEMP_LIMIT;

verus! {

/// ASCII whitespace, as trimmed around the numeric field.
pub open spec fn spec_is_ws(b: u8) -> bool {
    b == 32 || b == 9 || b == 13 || b == 11 || b == 12
}

/// ASCII digit.
pub open spec fn spec_is_digit(b: u8) -> bool {
    48 <= b <= 57
}

/// The field with surrounding ASCII whitespace removed.
pub open spec fn spec_trim(s: Seq<u8>) -> Seq<u8>
    decreases s.len(),
{
    if s.len() > 0 && spec_is_ws(s[0]) {
        spec_trim(s.skip(1))
    } else if s.len() > 0 && spec_is_ws(s.last()) {
        spec_trim(s.drop_last())
    } else {
        s
    }
}

/// Every byte of `ds` is a digit.
pub open spec fn spec_all_digits(ds: Seq<u8>) -> bool {
    forall|i: int| 0 <= i < ds.len() ==> spec_is_digit(#[trigger] ds[i])
}

/// The value of a digit string, most significant digit first.
pub open spec fn spec_digits_val(ds: Seq<u8>) -> int
    decreases ds.len(),
{
    if ds.len() == 0 {
        0
    } else {
        spec_digits_val(ds.drop_last()) * 10 + (ds.last() - 48)
    }
}

/// Offset of the first decimal point at or after `i`, or the length if none.
pub open spec fn spec_dot_from(b: Seq<u8>, i: int) -> int
    decreases b.len() - i,
    when 0 <= i <= b.len()
{
    if i >= b.len() {
        b.len() as int
    } else if b[i] == 46 {
        i
    } else {
        spec_dot_from(b, i + 1)
    }
}

pub proof fn lemma_dot_characterizes(b: Seq<u8>, i: int)
    requires
        0 <= i <= b.len(),
    ensures
        ({
            let k = spec_dot_from(b, i);
            &&& i <= k <= b.len()
            &&& k < b.len() ==> b[k] == 46
            &&& forall|j: int| i <= j < k ==> b[j] != 46
        }),
    decreases b.len() - i,
{
    if i < b.len() && b[i] != 46 {
        lemma_dot_characterizes(b, i + 1);
    }
}

/// The scan that stops at the first decimal point is exact: a point with no
/// point before it is the first one.
proof fn lemma_dot_finds(b: Seq<u8>, p: int)
    requires
        0 <= p <= b.len(),
        p < b.len() ==> b[p] == 46,
        forall|j: int| 0 <= j < p ==> b[j] != 46,
        p == b.len() ==> forall|j: int| 0 <= j < b.len() ==> b[j] != 46,
    ensures
        spec_dot_from(b, 0) == p,
{
    lemma_dot_characterizes(b, 0);
    let k = spec_dot_from(b, 0);
    if k < p {
        assert(b[k] != 46);
    } else if p < k {
        assert(b[p] != 46);
    }
}

/// The parsed value of a trimmed field, in tenths, or `None` when the field
/// is rejected: empty, missing integer digits, a point with no digits after
/// it, any non-digit in either digit run, or magnitude above `TEMP_LIMIT`.
pub open spec fn spec_parse_trimmed(t: Seq<u8>) -> Option<int> {
    if t.len() == 0 {
        None
    } else {
        let neg = t[0] == 45;
        let body = if t[0] == 45 || t[0] == 43 {
            t.skip(1)
        } else {
            t
        };
        spec_parse_body(body, neg)
    }
}

/// The parsed value of the unsigned body of a trimmed field.
pub open spec fn spec_parse_body(body: Seq<u8>, neg: bool) -> Option<int> {
    let k = spec_dot_from(body, 0);
    let ip = body.subrange(0, k);
    let fr = if k < body.len() {
        body.subrange(k + 1, body.len() as int)
    } else {
        Seq::empty()
    };
    if ip.len() == 0 || !spec_all_digits(ip) {
        None
    } else if k < body.len() && (fr.len() == 0 || !spec_all_digits(fr)) {
        None
    } else {
        let d1: int = if fr.len() >= 1 { fr[0] - 48 } else { 0 };
        let ru: int = if fr.len() >= 2 && fr[1] >= 53 { 1 } else { 0 };
        let total = spec_digits_val(ip) * 10 + d1 + ru;
        if total > TEMP_LIMIT as int {
            None
        } else if neg {
            Some(-total)
        } else {
            Some(total)
        }
    }
}

/// What a temperature field parses to, in tenths, or `None` when the line is
/// to be dropped.
pub open spec fn spec_parse_temp(s: Seq<u8>) -> Option<int> {
    spec_parse_trimmed(spec_trim(s))
}

/// Digit-string values are nonnegative.
proof fn lemma_digits_val_nonneg(ds: Seq<u8>)
    requires
        spec_all_digits(ds),
    ensures
        spec_digits_val(ds) >= 0,
    decreases ds.len(),
{
    if ds.len() > 0 {
        assert(spec_all_digits(ds.drop_last())) by {
            assert(forall|i: int|
                0 <= i < ds.len() - 1 ==> spec_is_digit(#[trigger] ds.drop_last()[i]));
        }
        lemma_digits_val_nonneg(ds.drop_last());
    }
}

/// Extending a digit string never shrinks its value: once a prefix exceeds
/// a bound, the whole string does.
proof fn lemma_digits_val_prefix(ds: Seq<u8>, m: int)
    requires
        spec_all_digits(ds),
        0 <= m <= ds.len(),
    ensures
        spec_digits_val(ds.subrange(0, m)) <= spec_digits_val(ds),
    decreases ds.len() - m,
{
    if m < ds.len() {
        lemma_digits_val_prefix(ds, m + 1);
        let p = ds.subrange(0, m);
        let q = ds.subrange(0, m + 1);
        assert(q.drop_last() =~= p);
        assert(spec_all_digits(p)) by {
            assert(forall|i: int| 0 <= i < m ==> spec_is_digit(#[trigger] p[i]));
        }
        lemma_digits_val_nonneg(p);
        assert(spec_digits_val(q) == spec_digits_val(p) * 10 + (q.last() - 48));
        assert(spec_digits_val(p) * 10 >= spec_digits_val(p)) by (nonlinear_arith)
            requires
                spec_digits_val(p) >= 0,
        ;
    } else {
        assert(ds.subrange(0, m) =~= ds);
    }
}

fn is_ws(b: u8) -> (r: bool)
    ensures
        r == spec_is_ws(b),
{
    b == 32 || b == 9 || b == 13 || b == 11 || b == 12
}

/// Parse the temperature field of a line: trim ASCII whitespace, then read
/// an optionally signed decimal number into tenths of a unit, rounded to the
/// nearest tenth, ties away from zero. Returns `None` exactly when
/// `spec_parse_temp` rejects the field.
pub fn parse_temp(bytes: &[u8]) -> (r: Option<i64>)
    ensures
        match r {
            Some(v) => {
                &&& spec_parse_temp(bytes@) == Some(v as int)
                &&& -TEMP_LIMIT <= v <= TEMP_LIMIT
            },
            None => spec_parse_temp(bytes@).is_none(),
        },
{
    let len: usize = bytes.len();
    proof {
        assert(bytes@.subrange(0, len as int) =~= bytes@);
    }
    let mut lo: usize = 0;
    while lo < len && is_ws(*vstd::slice::slice_index_get(bytes, lo))
        invariant
            lo <= len,
            len == bytes@.len(),
            spec_trim(bytes@) == spec_trim(bytes@.subrange(lo as int, len as int)),
        decreases len - lo,
    {
        proof {
            let cur = bytes@.subrange(lo as int, len as int);
            assert(cur.skip(1) =~= bytes@.subrange(lo as int + 1, len as int));
        }
        lo = lo + 1;
    }
    let mut hi: usize = len;
    while hi > lo && is_ws(*vstd::slice::slice_index_get(bytes, hi - 1))
        invariant
            lo <= hi <= len,
            len == bytes@.len(),
            lo < len ==> !spec_is_ws(bytes@[lo as int]),
            spec_trim(bytes@) == spec_trim(bytes@.subrange(lo as int, hi as int)),
        decreases hi,
    {
        proof {
            let cur = bytes@.subrange(lo as int, hi as int);
            assert(cur.drop_last() =~= bytes@.subrange(lo as int, hi as int - 1));
        }
        hi = hi - 1;
    }
    let ghost t = bytes@.subrange(lo as int, hi as int);
    proof {
        assert(spec_trim(t) == t);
    }

    if lo == hi {
        proof {
            assert(t.len() == 0);
        }
        return None;
    }

    // Sign.
    let first: u8 = *vstd::slice::slice_index_get(bytes, lo);
    let neg: bool = first == 45;
    let mut pos: usize = lo;
    if first == 45 || first == 43 {
        pos = pos + 1;
    }
    let ghost body = bytes@.subrange(pos as int, hi as int);
    proof {
        if first == 45 || first == 43 {
            assert(body =~= t.skip(1));
        } else {
            assert(body =~= t);
        }
        assert(spec_parse_temp(bytes@) == spec_parse_body(body, neg));
    }
    let ghost bstart = pos as int;

    // Integer part: digits up to an optional decimal point.
    let mut acc: i64 = 0;
    while pos < hi
        invariant
            0 <= bstart <= pos as int <= hi as int <= len,
            len == bytes@.len(),
            body == bytes@.subrange(bstart, hi as int),
            spec_parse_temp(bytes@) == spec_parse_body(body, neg),
            0 <= acc <= TEMP_LIMIT,
            acc as int == spec_digits_val(body.subrange(0, pos as int - bstart)),
            spec_all_digits(body.subrange(0, pos as int - bstart)),
            forall|j: int| 0 <= j < pos as int - bstart ==> body[j] != 46,
        ensures
            pos as int == hi as int || body[pos as int - bstart] == 46,
        decreases hi - pos,
    {
        let b: u8 = *vstd::slice::slice_index_get(bytes, pos);
        if b == 46 {
            break ;
        }
        if b < 48 || b > 57 {
            proof {
                lemma_dot_characterizes(body, 0);
                let k = spec_dot_from(body, 0);
                let m: int = pos as int - bstart;
                assert(body[m] == b);
                if m < k {
                    let ip = body.subrange(0, k);
                    assert(ip[m] == b);
                    assert(!spec_all_digits(ip));
                } else {
                    // b is not the point, so the first point lies before m.
                    assert(k < m);
                    let fr = body.subrange(k + 1, body.len() as int);
                    assert(fr[m - k - 1] == b);
                    assert(!spec_all_digits(fr));
                    assert(fr.len() > 0);
                }
            }
            return None;
        }
        let ghost mprev = pos as int - bstart;
        let d: i64 = (b - 48) as i64;
        acc = acc * 10 + d;
        pos = pos + 1;
        proof {
            let m: int = pos as int - bstart;
            let p = body.subrange(0, mprev);
            let q = body.subrange(0, m);
            assert(q.drop_last() =~= p);
            assert(q.last() == b);
            assert(acc as int == spec_digits_val(q));
            assert(spec_all_digits(q)) by {
                assert(forall|i: int| 0 <= i < m ==> spec_is_digit(#[trigger] q[i]));
            }
        }
        if acc > TEMP_LIMIT {
            proof {
                lemma_dot_characterizes(body, 0);
                let k = spec_dot_from(body, 0);
                let m: int = pos as int - bstart;
                assert(m <= k);
                let ip = body.subrange(0, k);
                if spec_all_digits(ip) {
                    assert(body.subrange(0, m) =~= ip.subrange(0, m));
                    lemma_digits_val_prefix(ip, m);
                    lemma_digits_val_nonneg(ip);
                    assert(spec_digits_val(ip) * 10 >= spec_digits_val(ip)) by (nonlinear_arith)
                        requires
                            spec_digits_val(ip) >= 0,
                    ;
                }
            }
            return None;
        }
    }

    let ghost k = pos as int - bstart;
    proof {
        lemma_dot_finds(body, k);
    }
    let ghost ip = body.subrange(0, k);

    if pos == bstart_exec(lo, first) {
        // No integer digits at all.
        proof {
            assert(ip.len() == 0);
        }
        return None;
    }

    let mut d1: i64 = 0;
    let mut ru: i64 = 0;
    if pos < hi {
        // A decimal point: at least one digit must follow, and every byte to
        // the end must be a digit.
        let ghost fr = body.subrange(k + 1, body.len() as int);
        if pos + 1 == hi {
            proof {
                assert(fr.len() == 0);
            }
            return None;
        }
        let mut q: usize = pos + 1;
        while q < hi
            invariant
                0 <= bstart <= pos as int,
                pos as int + 1 <= q as int <= hi as int <= len,
                len == bytes@.len(),
                body == bytes@.subrange(bstart, hi as int),
                spec_parse_temp(bytes@) == spec_parse_body(body, neg),
                k == pos as int - bstart,
                spec_dot_from(body, 0) == k,
                fr == body.subrange(k + 1, body.len() as int),
                forall|j: int|
                    0 <= j < q as int - (pos as int + 1) ==> spec_is_digit(#[trigger] fr[j]),
        decreases hi - q,
        {
            let b: u8 = *vstd::slice::slice_index_get(bytes, q);
            if b < 48 || b > 57 {
                proof {
                    assert(fr[q as int - (pos as int + 1)] == b);
                    assert(!spec_all_digits(fr));
                }
                return None;
            }
            proof {
                assert(fr[q as int - (pos as int + 1)] == b);
            }
            q = q + 1;
        }
        proof {
            assert(fr.len() == hi as int - (pos as int + 1));
            assert(spec_all_digits(fr)) by {
                assert(forall|j: int| 0 <= j < fr.len() ==> spec_is_digit(#[trigger] fr[j]));
            }
        }
        d1 = (*vstd::slice::slice_index_get(bytes, pos + 1) - 48) as i64;
        proof {
            assert(fr[0] == bytes@[pos as int + 1]);
        }
        if pos + 2 < hi {
            if *vstd::slice::slice_index_get(bytes, pos + 2) >= 53 {
                ru = 1;
            }
            proof {
                assert(fr[1] == bytes@[pos as int + 2]);
            }
        }
    }

    let total: i64 = acc * 10 + d1 + ru;
    if total > TEMP_LIMIT {
        return None;
    }
    if neg {
        Some(-total)
    } else {
        Some(total)
    }
}

/// Where the unsigned body of the field begins.
fn bstart_exec(lo: usize, first: u8) -> (r: usize)
    requires
        lo < usize::MAX,
    ensures
        r == if first == 45 || first == 43 {
            lo + 1
        } else {
            lo as int
        },
{
    if first == 45 || first == 43 {
        lo + 1
    } else {
        lo
    }
}

} // verus!
