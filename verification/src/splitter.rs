//! Vectorized-style newline locator: fixed-width 64-byte lanes, each reduced
//! to a match bitmask, with a scalar byte-by-byte fallback for the tail.
//!
//! The lane scan is proved to return exactly the same offset as a pure
//! byte-by-byte scan on every buffer.

use vstd::prelude::*;

verus! {

/// Newline byte.
pub const NEWLINE: u8 = 10;

/// A pure byte-by-byte scan: the offset of the first newline at or after
/// position `i`, or `None` if there is none.
pub open spec fn spec_scalar_scan(s: Seq<u8>, i: int) -> Option<int>
    decreases s.len() - i,
    when 0 <= i <= s.len()
{
    if i >= s.len() {
        None
    } else if s[i] == NEWLINE {
        Some(i)
    } else {
        spec_scalar_scan(s, i + 1)
    }
}

/// The byte-by-byte scan finds the least newline offset at or after `i`.
pub proof fn lemma_scalar_scan_characterizes(s: Seq<u8>, i: int)
    requires
        0 <= i <= s.len(),
    ensures
        match spec_scalar_scan(s, i) {
            Some(p) => {
                &&& i <= p < s.len()
                &&& s[p] == NEWLINE
                &&& forall|j: int| i <= j < p ==> s[j] != NEWLINE
            },
            None => forall|j: int| i <= j < s.len() ==> s[j] != NEWLINE,
        },
    decreases s.len() - i,
{
    if i < s.len() && s[i] != NEWLINE {
        lemma_scalar_scan_characterizes(s, i + 1);
    }
}

/// A position that is a newline with none before it is exactly what the
/// byte-by-byte scan returns.
pub proof fn lemma_scan_finds(s: Seq<u8>, p: int)
    requires
        0 <= p < s.len(),
        s[p] == NEWLINE,
        forall|j: int| 0 <= j < p ==> s[j] != NEWLINE,
    ensures
        spec_scalar_scan(s, 0) == Some(p),
{
    lemma_scalar_scan_characterizes(s, 0);
    match spec_scalar_scan(s, 0) {
        Some(q) => {
            if q < p {
                assert(s[q] != NEWLINE);
            } else if p < q {
                assert(s[p] != NEWLINE);
            }
        },
        None => {
            assert(s[p] == NEWLINE);
        },
    }
}

/// A buffer without a newline is exactly where the byte-by-byte scan
/// returns nothing.
pub proof fn lemma_scan_misses(s: Seq<u8>)
    requires
        forall|j: int| 0 <= j < s.len() ==> s[j] != NEWLINE,
    ensures
        spec_scalar_scan(s, 0).is_none(),
{
    lemma_scalar_scan_characterizes(s, 0);
    match spec_scalar_scan(s, 0) {
        Some(q) => {
            assert(s[q] != NEWLINE);
        },
        None => {},
    }
}

/// Width of one lane, in bytes.
pub const LANE_WIDTH: usize = 64;

/// Offset of the first newline in `buffer`, or `None` if the buffer holds no
/// newline. Whole 64-byte lanes are reduced to a match bitmask first; the
/// remaining tail is scanned byte by byte. The result is identical to a pure
/// byte-by-byte scan of the whole buffer.
pub fn find_next_newline_simd(buffer: &[u8]) -> (r: Option<usize>)
    ensures
        ({
            let sc = spec_scalar_scan(buffer@, 0);
            match r {
                Some(p) => sc == Some(p as int),
                None => sc.is_none(),
            }
        }),
        match r {
            Some(p) => {
                &&& p < buffer@.len()
                &&& buffer@[p as int] == NEWLINE
                &&& forall|j: int| 0 <= j < p ==> buffer@[j] != NEWLINE
            },
            None => forall|j: int| 0 <= j < buffer@.len() ==> buffer@[j] != NEWLINE,
        },
{
    let len: usize = buffer.len();
    let mut index: usize = 0;

    while index < len && len - index >= LANE_WIDTH
        invariant
            index <= len,
            len == buffer@.len(),
            forall|k: int| 0 <= k < index ==> buffer@[k] != NEWLINE,
        decreases len - index,
    {
        let mut mask: u64 = 0;
        let mut first: usize = LANE_WIDTH;
        let mut j: usize = 0;
        while j < LANE_WIDTH
            invariant
                j <= LANE_WIDTH,
                index + LANE_WIDTH <= len,
                len == buffer@.len(),
                first <= LANE_WIDTH,
                (mask != 0) <==> (first < LANE_WIDTH),
                first < LANE_WIDTH ==> {
                    &&& first < j
                    &&& buffer@[index + first] == NEWLINE
                    &&& forall|k: int| 0 <= k < first ==> buffer@[#[trigger] (index + k)] != NEWLINE
                },
                first == LANE_WIDTH ==> forall|k: int|
                    0 <= k < j ==> buffer@[#[trigger] (index + k)] != NEWLINE,
            decreases LANE_WIDTH - j,
        {
            let b: u8 = *vstd::slice::slice_index_get(buffer, index + j);
            if b == NEWLINE {
                let shift: u64 = j as u64;
                let bit: u64 = 1u64 << shift;
                assert(1u64 << shift != 0u64) by (bit_vector)
                    requires
                        shift < 64u64,
                ;
                assert(mask | bit != 0u64) by (bit_vector)
                    requires
                        bit != 0u64,
                ;
                mask = mask | bit;
                if first == LANE_WIDTH {
                    first = j;
                }
            }
            j = j + 1;
        }
        if mask != 0 {
            proof {
                assert forall|jj: int| 0 <= jj < index + first implies buffer@[jj] != NEWLINE by {
                    if jj >= index {
                        assert(buffer@[index + (jj - index)] != NEWLINE);
                    }
                }
                lemma_scan_finds(buffer@, index + first);
            }
            return Some(index + first);
        }
        proof {
            assert forall|jj: int| 0 <= jj < index + LANE_WIDTH implies buffer@[jj] != NEWLINE by {
                if jj >= index {
                    assert(buffer@[index + (jj - index)] != NEWLINE);
                }
            }
        }
        index = index + LANE_WIDTH;
    }

    let mut i: usize = index;
    while i < len
        invariant
            index <= i <= len,
            len == buffer@.len(),
            forall|k: int| 0 <= k < i ==> buffer@[k] != NEWLINE,
        decreases len - i,
    {
        if *vstd::slice::slice_index_get(buffer, i) == NEWLINE {
            proof {
                lemma_scan_finds(buffer@, i as int);
            }
            return Some(i);
        }
        i = i + 1;
    }

    proof {
        lemma_scan_misses(buffer@);
    }
    None
}

} // verus!
