//! Delimiter scans over byte buffers, done by the `memchr` crate, with
//! contracts stating exactly which occurrence each call returns.

use vstd::prelude::*;

verus! {

/// Relies on memchr::memchr: returns the index of the first occurrence of
/// `needle` in `haystack`, or `None` if the byte does not occur.
pub assume_specification[ memchr::memchr ](needle: u8, haystack: &[u8]) -> (r: Option<usize>)
    ensures
        match r {
            Some(i) => {
                &&& i < haystack@.len()
                &&& haystack@[i as int] == needle
                &&& forall|j: int| 0 <= j < i ==> haystack@[j] != needle
            },
            None => forall|j: int| 0 <= j < haystack@.len() ==> haystack@[j] != needle,
        },
;

/// Relies on memchr::memrchr: returns the index of the last occurrence of
/// `needle` in `haystack`, or `None` if the byte does not occur.
pub assume_specification[ memchr::memrchr ](needle: u8, haystack: &[u8]) -> (r: Option<usize>)
    ensures
        match r {
            Some(i) => {
                &&& i < haystack@.len()
                &&& haystack@[i as int] == needle
                &&& forall|j: int| i < j < haystack@.len() ==> haystack@[j] != needle
            },
            None => forall|j: int| 0 <= j < haystack@.len() ==> haystack@[j] != needle,
        },
;

/// Offset of the first occurrence of `b` at or after `i`, or the length if
/// the byte does not occur there.
pub open spec fn spec_find_byte(s: Seq<u8>, b: u8, i: int) -> int
    decreases s.len() - i,
    when 0 <= i <= s.len()
{
    if i >= s.len() {
        s.len() as int
    } else if s[i] == b {
        i
    } else {
        spec_find_byte(s, b, i + 1)
    }
}

pub proof fn lemma_find_byte_characterizes(s: Seq<u8>, b: u8, i: int)
    requires
        0 <= i <= s.len(),
    ensures
        ({
            let k = spec_find_byte(s, b, i);
            &&& i <= k <= s.len()
            &&& k < s.len() ==> s[k] == b
            &&& forall|j: int| i <= j < k ==> s[j] != b
        }),
    decreases s.len() - i,
{
    if i < s.len() && s[i] != b {
        lemma_find_byte_characterizes(s, b, i + 1);
    }
}

/// A position holding `b` with no earlier occurrence is exactly the first
/// occurrence; absence everywhere means the scan runs to the length.
pub proof fn lemma_find_byte_unique(s: Seq<u8>, b: u8, p: int)
    requires
        0 <= p <= s.len(),
        p < s.len() ==> s[p] == b,
        forall|j: int| 0 <= j < p ==> s[j] != b,
    ensures
        spec_find_byte(s, b, 0) == p,
{
    lemma_find_byte_characterizes(s, b, 0);
    let k = spec_find_byte(s, b, 0);
    if k < p {
        assert(s[k] != b);
    } else if p < k {
        assert(s[p] != b);
    }
}

} // verus!
