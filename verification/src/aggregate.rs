//! Chunk-local aggregation: split a corrected chunk into lines, parse each
//! line's station and temperature, and fold them into a per-chunk table.
//!
//! A line without a delimiter, with an undecodable temperature field, or with
//! a temperature beyond the accepted magnitude is silently dropped: malformed
//! rows never abort the run and leave no trace.

use vstd::prelude::*;
use crate::parse::{parse_temp, spec_parse_temp};
use crate::records::{Records, RecordsModel, spec_merge, spec_single, spec_update};
use crate::scan::{lemma_find_byte_characterizes, lemma_find_byte_unique, spec_find_byte};
use crate::splitter::{find_next_newline_simd, NEWLINE};
use crate::table::{lemma_entries_map_index, StationMap};

verus! {

/// Field delimiter between station and temperature.
pub const DELIMITER: u8 = 59;

/// The map after one line: no delimiter or unparseable temperature leaves the
/// map unchanged; otherwise the station's summary is created or updated.
pub open spec fn spec_line_apply(
    m: Map<Seq<u8>, RecordsModel>,
    line: Seq<u8>,
) -> Map<Seq<u8>, RecordsModel> {
    let p = spec_find_byte(line, DELIMITER, 0);
    if p == line.len() {
        m
    } else {
        let station = line.subrange(0, p);
        let vtxt = line.subrange(p + 1, line.len() as int);
        match spec_parse_temp(vtxt) {
            None => m,
            Some(v) => if m.dom().contains(station) {
                m.insert(station, spec_update(m[station], v))
            } else {
                m.insert(station, spec_single(v))
            },
        }
    }
}

/// The map after every line of `s`: lines are the maximal newline-free
/// segments, and a trailing segment without a newline is a line too.
pub open spec fn spec_aggregate_from(
    m: Map<Seq<u8>, RecordsModel>,
    s: Seq<u8>,
) -> Map<Seq<u8>, RecordsModel>
    decreases s.len(),
    via spec_aggregate_from_decreases
{
    if s.len() == 0 {
        m
    } else {
        let e = spec_find_byte(s, NEWLINE, 0);
        if e == s.len() {
            spec_line_apply(m, s)
        } else {
            spec_aggregate_from(spec_line_apply(m, s.subrange(0, e)), s.subrange(e + 1, s.len() as int))
        }
    }
}

#[via_fn]
proof fn spec_aggregate_from_decreases(m: Map<Seq<u8>, RecordsModel>, s: Seq<u8>) {
    if s.len() > 0 {
        lemma_find_byte_characterizes(s, NEWLINE, 0);
    }
}

/// The table described by a whole byte region.
pub open spec fn spec_aggregate(s: Seq<u8>) -> Map<Seq<u8>, RecordsModel> {
    spec_aggregate_from(Map::empty(), s)
}

/// The pointwise combination of two tables: summaries of stations both
/// tables hold are merged; the rest are taken as they are.
pub open spec fn spec_map_merge(
    m1: Map<Seq<u8>, RecordsModel>,
    m2: Map<Seq<u8>, RecordsModel>,
) -> Map<Seq<u8>, RecordsModel> {
    Map::new(
        |k: Seq<u8>| m1.dom().contains(k) || m2.dom().contains(k),
        |k: Seq<u8>|
            if m1.dom().contains(k) && m2.dom().contains(k) {
                spec_merge(m1[k], m2[k])
            } else if m2.dom().contains(k) {
                m2[k]
            } else {
                m1[k]
            },
    )
}

/// Applying one line to a table is merging in that line's own table.
proof fn lemma_line_apply_is_merge(m: Map<Seq<u8>, RecordsModel>, line: Seq<u8>)
    ensures
        spec_line_apply(m, line) == spec_map_merge(m, spec_line_apply(Map::empty(), line)),
{
    let l = spec_line_apply(Map::empty(), line);
    let p = spec_find_byte(line, DELIMITER, 0);
    if p == line.len() {
        assert(spec_map_merge(m, Map::empty()) =~= m);
    } else {
        let station = line.subrange(0, p);
        let vtxt = line.subrange(p + 1, line.len() as int);
        match spec_parse_temp(vtxt) {
            None => {
                assert(spec_map_merge(m, Map::empty()) =~= m);
            },
            Some(v) => {
                crate::records::lemma_update_is_merge_single(
                    if m.dom().contains(station) {
                        m[station]
                    } else {
                        spec_single(v)
                    },
                    v,
                );
                assert(spec_line_apply(m, line) =~= spec_map_merge(m, l));
            },
        }
    }
}

/// Pointwise merging of tables is commutative, because merging summaries
/// is: with the tiling of chunk regions, the final table does not depend on
/// the order in which workers deliver their chunks.
pub proof fn lemma_map_merge_comm(
    m1: Map<Seq<u8>, RecordsModel>,
    m2: Map<Seq<u8>, RecordsModel>,
)
    ensures
        spec_map_merge(m1, m2) == spec_map_merge(m2, m1),
{
    let lhs = spec_map_merge(m1, m2);
    let rhs = spec_map_merge(m2, m1);
    assert forall|k: Seq<u8>| lhs.dom().contains(k) implies lhs[k] == rhs[k] by {
        if m1.dom().contains(k) && m2.dom().contains(k) {
            crate::records::lemma_merge_comm(m1[k], m2[k]);
        }
    }
    assert(lhs =~= rhs);
}

/// Pointwise merging of tables is associative, because merging summaries is.
pub proof fn lemma_map_merge_assoc(
    m1: Map<Seq<u8>, RecordsModel>,
    m2: Map<Seq<u8>, RecordsModel>,
    m3: Map<Seq<u8>, RecordsModel>,
)
    ensures
        spec_map_merge(spec_map_merge(m1, m2), m3) == spec_map_merge(m1, spec_map_merge(m2, m3)),
{
    let lhs = spec_map_merge(spec_map_merge(m1, m2), m3);
    let rhs = spec_map_merge(m1, spec_map_merge(m2, m3));
    assert forall|k: Seq<u8>| lhs.dom().contains(k) implies lhs[k] == rhs[k] by {
        if m1.dom().contains(k) && m2.dom().contains(k) && m3.dom().contains(k) {
            crate::records::lemma_merge_assoc(m1[k], m2[k], m3[k]);
        }
    }
    assert(lhs =~= rhs);
}

/// Aggregating into a table equals aggregating from nothing and merging the
/// result in: chunk-local work owes nothing to the table it later joins.
proof fn lemma_aggregate_from_is_merge(m: Map<Seq<u8>, RecordsModel>, s: Seq<u8>)
    ensures
        spec_aggregate_from(m, s) == spec_map_merge(m, spec_aggregate(s)),
    decreases s.len(),
{
    if s.len() == 0 {
        assert(spec_map_merge(m, Map::empty()) =~= m);
    } else {
        lemma_find_byte_characterizes(s, NEWLINE, 0);
        let e = spec_find_byte(s, NEWLINE, 0);
        if e == s.len() {
            lemma_line_apply_is_merge(m, s);
            lemma_line_apply_is_merge(Map::empty(), s);
            assert(spec_map_merge(Map::empty(), spec_line_apply(Map::empty(), s))
                =~= spec_line_apply(Map::empty(), s));
        } else {
            let line = s.subrange(0, e);
            let rest = s.subrange(e + 1, s.len() as int);
            let l = spec_line_apply(Map::empty(), line);
            lemma_aggregate_from_is_merge(spec_line_apply(m, line), rest);
            lemma_aggregate_from_is_merge(spec_line_apply(Map::empty(), line), rest);
            lemma_line_apply_is_merge(m, line);
            lemma_map_merge_assoc(m, l, spec_aggregate(rest));
        }
    }
}

/// Splitting a region at a newline splits its aggregation: the second part
/// continues where the first left off.
proof fn lemma_aggregate_from_split(m: Map<Seq<u8>, RecordsModel>, a: Seq<u8>, b: Seq<u8>)
    ensures
        spec_aggregate_from(m, a + seq![NEWLINE] + b) == spec_aggregate_from(
            spec_aggregate_from(m, a),
            b,
        ),
    decreases a.len(),
{
    let s = a + seq![NEWLINE] + b;
    lemma_find_byte_characterizes(a, NEWLINE, 0);
    let e = spec_find_byte(a, NEWLINE, 0);
    if e == a.len() {
        // The first newline of the joined region is the seam itself.
        lemma_find_byte_unique(s, NEWLINE, a.len() as int);
        assert(s.subrange(0, a.len() as int) =~= a);
        assert(s.subrange(a.len() as int + 1, s.len() as int) =~= b);
        if a.len() == 0 {
            assert(spec_line_apply(m, s.subrange(0, 0)) == m) by {
                assert(s.subrange(0, 0) =~= Seq::<u8>::empty());
            }
        }
    } else {
        // Both sides consume the same first line of `a`.
        lemma_find_byte_unique(s, NEWLINE, e);
        assert(s.subrange(0, e) =~= a.subrange(0, e));
        assert(s.subrange(e + 1, s.len() as int) =~= a.subrange(e + 1, a.len() as int)
            + seq![NEWLINE] + b);
        lemma_aggregate_from_split(
            spec_line_apply(m, a.subrange(0, e)),
            a.subrange(e + 1, a.len() as int),
            b,
        );
    }
}

/// Aggregating two regions separated by a newline and merging the two tables
/// pointwise gives exactly the aggregation of the whole: chunk-local tables
/// merged equal the table of the full, unchunked data, for any split.
pub proof fn lemma_aggregate_split_merge(a: Seq<u8>, b: Seq<u8>)
    ensures
        spec_aggregate(a + seq![NEWLINE] + b) == spec_map_merge(
            spec_aggregate(a),
            spec_aggregate(b),
        ),
{
    lemma_aggregate_from_split(Map::empty(), a, b);
    lemma_aggregate_from_is_merge(spec_aggregate(a), b);
}

/// Aggregate one corrected chunk: every line's observation folded into a
/// fresh table keyed by the raw station bytes.
pub fn process_chunk(chunk: &[u8]) -> (m: StationMap)
    ensures
        m.wf(),
        m@ == spec_aggregate(chunk@),
{
    let mut map = StationMap::new();
    let len: usize = chunk.len();
    let mut start: usize = 0;

    proof {
        assert(chunk@.subrange(0, len as int) =~= chunk@);
    }

    while start < len
        invariant
            start <= len,
            len == chunk@.len(),
            map.wf(),
            forall|j: int|
                0 <= j < map.entries@.len() ==> (#[trigger] map.entries@[j]).1.count as int
                    <= start as int,
            spec_aggregate_from(map@, chunk@.subrange(start as int, len as int))
                == spec_aggregate(chunk@),
        decreases len - start,
    {
        let ghost suffix = chunk@.subrange(start as int, len as int);
        let rest = vstd::slice::slice_subrange(chunk, start, len);
        let nl = find_next_newline_simd(rest);
        let end: usize = match nl {
            Some(p) => start + p,
            None => len,
        };
        proof {
            match nl {
                Some(p) => {
                    lemma_find_byte_unique(suffix, NEWLINE, p as int);
                },
                None => {
                    lemma_find_byte_unique(suffix, NEWLINE, suffix.len() as int);
                },
            }
            assert(spec_find_byte(suffix, NEWLINE, 0) == end as int - start as int);
        }
        let line = vstd::slice::slice_subrange(chunk, start, end);
        proof {
            assert(line@ =~= suffix.subrange(0, end as int - start as int));
        }

        let ghost m0 = map@;
        let sep = memchr::memchr(DELIMITER, line);
        match sep {
            Some(p) => {
                proof {
                    lemma_find_byte_unique(line@, DELIMITER, p as int);
                }
                let station = vstd::slice::slice_subrange(line, 0, p);
                let vtxt = vstd::slice::slice_subrange(line, p + 1, line.len());
                match parse_temp(vtxt) {
                    Some(v) => {
                        match map.find(station) {
                            Some(i) => {
                                map.update_at(i, v);
                            },
                            None => {
                                proof {
                                    assert forall|j: int|
                                        0 <= j < map.entries@.len() implies (
                                    #[trigger] map.entries@[j]).0@ != station@ by {
                                        if map.entries@[j].0@ == station@ {
                                            lemma_entries_map_index(map.entries@, j);
                                        }
                                    }
                                }
                                let key = vstd::slice::slice_to_vec(station);
                                map.push_pair(key, Records::new(v));
                            },
                        }
                    },
                    None => {},
                }
            },
            None => {
                proof {
                    lemma_find_byte_unique(line@, DELIMITER, line@.len() as int);
                }
            },
        }
        proof {
            assert(map@ == spec_line_apply(m0, line@));
        }

        let ghost line_done = line@;
        proof {
            // The table now reflects this line.
            assert(spec_aggregate_from(map@, chunk@.subrange(
                if end as int + 1 <= len as int { end as int + 1 } else { len as int },
                len as int,
            )) == spec_aggregate(chunk@)) by {
                if end < len {
                    assert(suffix.subrange(end as int - start as int + 1, suffix.len() as int)
                        =~= chunk@.subrange(end as int + 1, len as int));
                } else {
                    assert(line_done =~= suffix);
                    assert(chunk@.subrange(len as int, len as int) =~= Seq::<u8>::empty());
                }
            }
        }
        if end < len {
            start = end + 1;
        } else {
            start = len;
        }
    }
    proof {
        assert(chunk@.subrange(len as int, len as int) =~= Seq::<u8>::empty());
    }
    map
}

} // verus!
