//! Chunk reading geometry: the byte range a worker reads for a chunk, and the
//! correction of that range to line boundaries.
//!
//! A chunk nominally covers `[chunk_start, chunk_start + chunk_size)`. The
//! read adds a look-back margin of up to `overlap` bytes before the start.
//! The first complete line of the chunk begins just after the last newline in
//! the look-back window; if the window holds no newline the chunk is
//! abandoned (a documented limitation for lines longer than the overlap).
//! The region ends just before the last newline of the buffer; the truncated
//! suffix is recovered by the next chunk's own look-back.

use vstd::prelude::*;
use crate::splitter::NEWLINE;

verus! {

/// Where the read for a chunk begins: up to `overlap` bytes before the
/// chunk's nominal start, clamped at the start of the file.
pub open spec fn spec_read_start(chunk_start: int, overlap: int) -> int {
    if chunk_start < overlap {
        0
    } else {
        chunk_start - overlap
    }
}

/// Where the read for a chunk ends: the chunk's nominal end, clamped at the
/// end of the file.
pub open spec fn spec_read_end(chunk_start: int, chunk_size: int, file_size: int) -> int {
    if chunk_start + chunk_size < file_size {
        chunk_start + chunk_size
    } else {
        file_size
    }
}

/// The read range `[read_start, read_end)` for one chunk.
pub fn chunk_read_range(chunk_start: u64, chunk_size: u64, overlap: u64, file_size: u64) -> (r: (
    u64,
    u64,
))
    requires
        chunk_start < file_size,
        chunk_size >= 1,
    ensures
        r.0 == spec_read_start(chunk_start as int, overlap as int),
        r.1 == spec_read_end(chunk_start as int, chunk_size as int, file_size as int),
        r.0 <= chunk_start < r.1 <= file_size,
{
    let read_start: u64 = if chunk_start < overlap {
        0
    } else {
        chunk_start - overlap
    };
    let read_end: u64 = if file_size - chunk_start < chunk_size {
        file_size
    } else {
        chunk_start + chunk_size
    };
    (read_start, read_end)
}

/// No newline anywhere in `s[lo..hi)`.
pub open spec fn spec_no_nl(s: Seq<u8>, lo: int, hi: int) -> bool {
    forall|j: int| lo <= j < hi ==> s[j] != NEWLINE
}

/// Correct a chunk's buffer to line boundaries. `look_back` is the number of
/// leading buffer bytes that lie before the chunk's nominal start.
///
/// Returns the half-open region `[s, e)` of the buffer to process: `s` is
/// just after the last newline of the look-back window (or `0` for the
/// file's first chunk), and `e` is the buffer's last newline (or its length
/// if it holds none after `s`). Returns `None` — the chunk is abandoned —
/// exactly when a nonzero look-back window holds no newline.
pub fn correct_chunk(buffer: &[u8], look_back: usize) -> (r: Option<(usize, usize)>)
    requires
        look_back <= buffer@.len(),
    ensures
        match r {
            None => look_back > 0 && spec_no_nl(buffer@, 0, look_back as int),
            Some((s, e)) => {
                &&& s <= e <= buffer@.len()
                &&& (look_back == 0 ==> s == 0)
                &&& (look_back > 0 ==> 1 <= s <= look_back && buffer@[s as int - 1] == NEWLINE
                    && spec_no_nl(buffer@, s as int, look_back as int))
                &&& (e < buffer@.len() ==> buffer@[e as int] == NEWLINE && spec_no_nl(
                    buffer@,
                    e as int + 1,
                    buffer@.len() as int,
                ))
                &&& (e == buffer@.len() ==> spec_no_nl(buffer@, s as int, buffer@.len() as int))
            },
        },
{
    let len: usize = buffer.len();
    let mut s: usize = 0;
    if look_back > 0 {
        let window = vstd::slice::slice_subrange(buffer, 0, look_back);
        match memchr::memrchr(NEWLINE, window) {
            Some(p) => {
                s = p + 1;
                proof {
                    assert(buffer@[p as int] == window@[p as int]);
                    assert forall|j: int| s as int <= j < look_back as int implies buffer@[j]
                        != NEWLINE by {
                        assert(window@[j] != NEWLINE);
                    }
                }
            },
            None => {
                proof {
                    assert forall|j: int| 0 <= j < look_back as int implies buffer@[j]
                        != NEWLINE by {
                        assert(window@[j] != NEWLINE);
                    }
                }
                return None;
            },
        }
    }
    let tail = vstd::slice::slice_subrange(buffer, s, len);
    let e: usize = match memchr::memrchr(NEWLINE, tail) {
        Some(q) => {
            proof {
                assert(buffer@[s as int + q as int] == tail@[q as int]);
                assert forall|j: int| s as int + q as int + 1 <= j < len as int implies buffer@[j]
                    != NEWLINE by {
                    assert(tail@[j - s as int] != NEWLINE);
                }
            }
            s + q
        },
        None => {
            proof {
                assert forall|j: int| s as int <= j < len as int implies buffer@[j] != NEWLINE by {
                    assert(tail@[j - s as int] != NEWLINE);
                }
            }
            len
        },
    };
    Some((s, e))
}

/// The absolute region `[s, e)` of the file that the chunk starting at
/// `chunk_start` processes, as `correct_chunk` computes it over the read
/// range's bytes.
pub open spec fn spec_chunk_region(
    f: Seq<u8>,
    chunk_size: int,
    overlap: int,
    chunk_start: int,
    s: int,
    e: int,
) -> bool {
    let rs = spec_read_start(chunk_start, overlap);
    let re = spec_read_end(chunk_start, chunk_size, f.len() as int);
    &&& s <= e <= re
    &&& (chunk_start == 0 ==> s == 0)
    &&& (chunk_start > 0 ==> rs < s <= chunk_start && f[s - 1] == NEWLINE && spec_no_nl(
        f,
        s,
        chunk_start,
    ))
    &&& (e < re ==> f[e] == NEWLINE && spec_no_nl(f, e + 1, re))
    &&& (e == re ==> spec_no_nl(f, s, re))
}

/// What `correct_chunk` returns over a chunk's read bytes, translated to
/// absolute file positions, is a chunk region in the sense of
/// `spec_chunk_region`: the tiling lemmas below therefore speak about the
/// executable correction.
pub proof fn lemma_corrected_region_absolute(
    f: Seq<u8>,
    chunk_size: int,
    overlap: int,
    chunk_start: int,
    bs: int,
    be: int,
)
    requires
        1 <= chunk_size,
        1 <= overlap,
        0 <= chunk_start < f.len(),
        ({
            let rs = spec_read_start(chunk_start, overlap);
            let re = spec_read_end(chunk_start, chunk_size, f.len() as int);
            let buf = f.subrange(rs, re);
            let lb = chunk_start - rs;
            &&& 0 <= bs <= be <= buf.len()
            &&& (lb == 0 ==> bs == 0)
            &&& (lb > 0 ==> 1 <= bs <= lb && buf[bs - 1] == NEWLINE && spec_no_nl(buf, bs, lb))
            &&& (be < buf.len() ==> buf[be] == NEWLINE && spec_no_nl(buf, be + 1, buf.len() as int))
            &&& (be == buf.len() ==> spec_no_nl(buf, bs, buf.len() as int))
        }),
    ensures
        spec_chunk_region(
            f,
            chunk_size,
            overlap,
            chunk_start,
            spec_read_start(chunk_start, overlap) + bs,
            spec_read_start(chunk_start, overlap) + be,
        ),
{
    let rs = spec_read_start(chunk_start, overlap);
    let re = spec_read_end(chunk_start, chunk_size, f.len() as int);
    let buf = f.subrange(rs, re);
    let lb = chunk_start - rs;
    assert(chunk_start == 0 ==> lb == 0);
    assert(chunk_start > 0 ==> lb >= 1);
    assert(forall|j: int| 0 <= j < buf.len() ==> buf[j] == f[rs + j]);
    if chunk_start > 0 {
        assert(f[rs + bs - 1] == buf[bs - 1]);
        assert forall|j: int| rs + bs <= j < chunk_start implies f[j] != NEWLINE by {
            assert(buf[j - rs] != NEWLINE);
        }
    }
    if be < buf.len() {
        assert(f[rs + be] == buf[be]);
        assert forall|j: int| rs + be + 1 <= j < re implies f[j] != NEWLINE by {
            assert(buf[j - rs] != NEWLINE);
        }
    } else {
        assert forall|j: int| rs + bs <= j < re implies f[j] != NEWLINE by {
            assert(buf[j - rs] != NEWLINE);
        }
    }
}

/// Consecutive chunks meet exactly at a newline: the region of the chunk at
/// `chunk_start` ends at the newline just before where the next chunk's
/// region begins. Lines are therefore processed exactly once each, in file
/// order, with no duplication or omission — provided each look-back window
/// holds a newline (no boundary line longer than the overlap).
pub proof fn lemma_chunks_tile(
    f: Seq<u8>,
    chunk_size: int,
    overlap: int,
    chunk_start: int,
    s1: int,
    e1: int,
    s2: int,
    e2: int,
)
    requires
        1 <= overlap <= chunk_size,
        0 <= chunk_start,
        chunk_start + chunk_size < f.len(),
        spec_chunk_region(f, chunk_size, overlap, chunk_start, s1, e1),
        spec_chunk_region(f, chunk_size, overlap, chunk_start + chunk_size, s2, e2),
    ensures
        s2 == e1 + 1,
        f[e1] == NEWLINE,
{
    let cs2 = chunk_start + chunk_size;
    let re1 = spec_read_end(chunk_start, chunk_size, f.len() as int);
    assert(re1 == cs2);
    // The next chunk's boundary newline at s2 - 1 lies inside this chunk's
    // processed range, so the end trim cannot have stopped before it.
    assert(s1 <= s2 - 1 < re1);
    if e1 == re1 {
        assert(f[s2 - 1] == NEWLINE);
        assert(false);
    }
    // e1 is the last newline before re1 = cs2, and s2 - 1 is a newline with
    // none after it up to cs2: they coincide.
    if e1 < s2 - 1 {
        assert(f[s2 - 1] != NEWLINE);
    }
    if s2 - 1 < e1 {
        assert(f[e1] != NEWLINE);
    }
}

/// Adjacent corrected chunks account for their lines exactly once: the two
/// regions abut at a newline, so aggregating each and merging the tables
/// pointwise equals aggregating the two regions as one — no line is split,
/// duplicated, or lost at the boundary.
pub proof fn lemma_adjacent_chunks_aggregate(
    f: Seq<u8>,
    chunk_size: int,
    overlap: int,
    chunk_start: int,
    s1: int,
    e1: int,
    s2: int,
    e2: int,
)
    requires
        1 <= overlap <= chunk_size,
        0 <= chunk_start,
        chunk_start + chunk_size < f.len(),
        spec_chunk_region(f, chunk_size, overlap, chunk_start, s1, e1),
        spec_chunk_region(f, chunk_size, overlap, chunk_start + chunk_size, s2, e2),
    ensures
        crate::aggregate::spec_map_merge(
            crate::aggregate::spec_aggregate(f.subrange(s1, e1)),
            crate::aggregate::spec_aggregate(f.subrange(s2, e2)),
        ) == crate::aggregate::spec_aggregate(f.subrange(s1, e2)),
{
    lemma_chunks_tile(f, chunk_size, overlap, chunk_start, s1, e1, s2, e2);
    assert(f.subrange(s1, e2) =~= f.subrange(s1, e1) + seq![NEWLINE] + f.subrange(s2, e2));
    crate::aggregate::lemma_aggregate_split_merge(f.subrange(s1, e1), f.subrange(s2, e2));
}

/// The file's last chunk ends just before the file's final newline: together
/// with the chain of `lemma_chunks_tile` boundaries this closes the
/// partition of the file's lines.
pub proof fn lemma_last_chunk_ends(
    f: Seq<u8>,
    chunk_size: int,
    overlap: int,
    chunk_start: int,
    s: int,
    e: int,
)
    requires
        1 <= overlap <= chunk_size,
        0 <= chunk_start < f.len(),
        chunk_start + chunk_size >= f.len(),
        f.len() > 0,
        f.last() == NEWLINE,
        spec_chunk_region(f, chunk_size, overlap, chunk_start, s, e),
    ensures
        e == f.len() - 1,
{
    let n = f.len() as int;
    let re = spec_read_end(chunk_start, chunk_size, n);
    assert(re == n);
    if e == n {
        assert(s <= chunk_start < n);
        assert(f[n - 1] == NEWLINE);
        assert(false);
    }
    if e < n - 1 {
        assert(f[n - 1] != NEWLINE);
    }
}

/// Every chunk's region, by chunk index: chunk `k` starts at `k * chunk_size`.
pub open spec fn spec_regions_valid(
    f: Seq<u8>,
    chunk_size: int,
    overlap: int,
    parts: Seq<(int, int)>,
) -> bool {
    forall|k: int|
        0 <= k < parts.len() ==> spec_chunk_region(
            f,
            chunk_size,
            overlap,
            k * chunk_size,
            (#[trigger] parts[k]).0,
            parts[k].1,
        )
}

/// The pointwise merge of the first `k + 1` chunks' tables, in chunk order.
pub open spec fn spec_merge_prefix(f: Seq<u8>, parts: Seq<(int, int)>, k: int) -> Map<
    Seq<u8>,
    crate::records::RecordsModel,
>
    decreases k,
    when 0 <= k < parts.len()
{
    if k == 0 {
        crate::aggregate::spec_aggregate(f.subrange(parts[0].0, parts[0].1))
    } else {
        crate::aggregate::spec_map_merge(
            spec_merge_prefix(f, parts, k - 1),
            crate::aggregate::spec_aggregate(f.subrange(parts[k].0, parts[k].1)),
        )
    }
}

proof fn lemma_partition_prefix(
    f: Seq<u8>,
    chunk_size: int,
    overlap: int,
    parts: Seq<(int, int)>,
    k: int,
)
    requires
        1 <= overlap <= chunk_size,
        0 <= k < parts.len(),
        (parts.len() - 1) * chunk_size < f.len(),
        spec_regions_valid(f, chunk_size, overlap, parts),
    ensures
        spec_merge_prefix(f, parts, k) == crate::aggregate::spec_aggregate(
            f.subrange(0, parts[k].1),
        ),
    decreases k,
{
    if k == 0 {
        assert(spec_chunk_region(f, chunk_size, overlap, 0 * chunk_size, parts[0].0, parts[0].1));
        assert(0 * chunk_size == 0) by (nonlinear_arith);
        assert(parts[0].0 == 0);
    } else {
        lemma_partition_prefix(f, chunk_size, overlap, parts, k - 1);
        let cs = (k - 1) * chunk_size;
        assert((k - 1) * chunk_size + chunk_size == k * chunk_size) by (nonlinear_arith);
        assert(k * chunk_size <= (parts.len() - 1) * chunk_size) by (nonlinear_arith)
            requires
                k <= parts.len() - 1,
                chunk_size >= 1,
        ;
        assert((k - 1) * chunk_size >= 0) by (nonlinear_arith)
            requires
                k >= 1,
                chunk_size >= 1,
        ;
        assert(spec_chunk_region(f, chunk_size, overlap, (k - 1) * chunk_size, parts[k - 1].0, parts[k - 1].1));
        assert(spec_chunk_region(f, chunk_size, overlap, k * chunk_size, parts[k].0, parts[k].1));
        lemma_chunks_tile(
            f,
            chunk_size,
            overlap,
            cs,
            parts[k - 1].0,
            parts[k - 1].1,
            parts[k].0,
            parts[k].1,
        );
        assert(f.subrange(0, parts[k].1) =~= f.subrange(0, parts[k - 1].1) + seq![NEWLINE]
            + f.subrange(parts[k].0, parts[k].1));
        crate::aggregate::lemma_aggregate_split_merge(
            f.subrange(0, parts[k - 1].1),
            f.subrange(parts[k].0, parts[k].1),
        );
    }
}

/// The partition law for a whole run: when the file ends with a newline and
/// every chunk's look-back window holds one, the corrected chunk regions
/// cover the file's lines exactly once each, in order — merging every
/// chunk's table, in chunk order, equals aggregating the entire file as one
/// region. No line is duplicated or omitted.
pub proof fn lemma_chunks_partition_file(
    f: Seq<u8>,
    chunk_size: int,
    overlap: int,
    parts: Seq<(int, int)>,
)
    requires
        1 <= overlap <= chunk_size,
        f.len() > 0,
        f.last() == NEWLINE,
        parts.len() >= 1,
        (parts.len() - 1) * chunk_size < f.len() <= parts.len() * chunk_size,
        spec_regions_valid(f, chunk_size, overlap, parts),
    ensures
        spec_merge_prefix(f, parts, parts.len() - 1) == crate::aggregate::spec_aggregate(
            f.subrange(0, f.len() - 1),
        ),
{
    let last = parts.len() - 1;
    lemma_partition_prefix(f, chunk_size, overlap, parts, last);
    let cs = (parts.len() - 1) * chunk_size;
    assert((parts.len() - 1) * chunk_size + chunk_size == parts.len() * chunk_size)
        by (nonlinear_arith);
    assert((parts.len() - 1) * chunk_size >= 0) by (nonlinear_arith)
        requires
            parts.len() >= 1,
            chunk_size >= 1,
    ;
    assert(spec_chunk_region(f, chunk_size, overlap, last * chunk_size, parts[last].0, parts[last].1));
    assert(last * chunk_size == cs);
    lemma_last_chunk_ends(f, chunk_size, overlap, cs, parts[last].0, parts[last].1);
}

} // verus!
