//! The mergeable per-station running summary: count, minimum, maximum, sum.
//!
//! Values are temperatures in tenths of a unit. The magnitude of every
//! accepted temperature is bounded by `TEMP_LIMIT`, which keeps the running
//! sum provably inside `i128`.

use vstd::prelude::*;

verus! {

/// Largest accepted temperature magnitude, in tenths of a unit.
pub const TEMP_LIMIT: i64 = 1_000_000_000_000_000;

/// Mathematical model of a summary: unbounded integers.
pub struct RecordsModel {
    pub count: int,
    pub min: int,
    pub max: int,
    pub sum: int,
}

/// The summary of a single observation.
pub open spec fn spec_single(v: int) -> RecordsModel {
    RecordsModel { count: 1, min: v, max: v, sum: v }
}

/// The summary after one more observation.
pub open spec fn spec_update(r: RecordsModel, v: int) -> RecordsModel {
    RecordsModel {
        count: r.count + 1,
        min: if v < r.min { v } else { r.min },
        max: if v > r.max { v } else { r.max },
        sum: r.sum + v,
    }
}

/// The combination of two summaries of disjoint observation sequences.
pub open spec fn spec_merge(a: RecordsModel, b: RecordsModel) -> RecordsModel {
    RecordsModel {
        count: a.count + b.count,
        min: if b.min < a.min { b.min } else { a.min },
        max: if b.max > a.max { b.max } else { a.max },
        sum: a.sum + b.sum,
    }
}

/// The summary of a whole nonempty sequence of observations.
pub open spec fn spec_records_of(vs: Seq<int>) -> RecordsModel
    recommends
        vs.len() > 0,
    decreases vs.len(),
{
    if vs.len() <= 1 {
        spec_single(vs[0])
    } else {
        spec_update(spec_records_of(vs.drop_last()), vs.last())
    }
}

/// Mean in tenths, rounded to the nearest integer, ties away from zero.
pub open spec fn spec_mean(r: RecordsModel) -> int
    recommends
        r.count > 0,
{
    let a = if r.sum < 0 { -r.sum } else { r.sum };
    let q = a / r.count;
    let rounded = if 2 * (a % r.count) >= r.count { q + 1 } else { q };
    if r.sum < 0 { -rounded } else { rounded }
}

/// The running summary for one station.
#[derive(Clone, Copy)]
pub struct Records {
    pub count: u64,
    pub min: i64,
    pub max: i64,
    pub sum: i128,
}

impl Records {
    pub open spec fn view(self) -> RecordsModel {
        RecordsModel {
            count: self.count as int,
            min: self.min as int,
            max: self.max as int,
            sum: self.sum as int,
        }
    }

    /// Well-formedness: at least one observation, ordered extrema within the
    /// accepted magnitude, and a sum bounded by `count * TEMP_LIMIT`.
    pub open spec fn wf(self) -> bool {
        &&& 1 <= self.count
        &&& -TEMP_LIMIT <= self.min <= self.max <= TEMP_LIMIT
        &&& -(self.count as int * TEMP_LIMIT as int) <= self.sum as int
            <= self.count as int * TEMP_LIMIT as int
    }

    /// A fresh summary from a first observation.
    pub fn new(temp: i64) -> (r: Records)
        requires
            -TEMP_LIMIT <= temp <= TEMP_LIMIT,
        ensures
            r.wf(),
            r@ == spec_single(temp as int),
    {
        Records { count: 1, min: temp, max: temp, sum: temp as i128 }
    }

    /// Fold one more observation into the summary.
    pub fn update(&mut self, temp: i64)
        requires
            old(self).wf(),
            old(self).count < u64::MAX,
            -TEMP_LIMIT <= temp <= TEMP_LIMIT,
        ensures
            final(self).wf(),
            final(self)@ == spec_update(old(self)@, temp as int),
    {
        proof {
            lemma_sum_bound(old(self).count as int, TEMP_LIMIT as int, old(self).sum as int);
        }
        self.count = self.count + 1;
        self.sum = self.sum + temp as i128;
        if temp < self.min {
            self.min = temp;
        }
        if temp > self.max {
            self.max = temp;
        }
        proof {
            lemma_sum_bound_back(
                old(self).count as int,
                temp as int,
                TEMP_LIMIT as int,
                self.sum as int,
            );
        }
    }

    /// Combine another station summary into this one.
    pub fn merge(&mut self, other: &Records)
        requires
            old(self).wf(),
            other.wf(),
            old(self).count as int + other.count as int <= u64::MAX as int,
        ensures
            final(self).wf(),
            final(self)@ == spec_merge(old(self)@, other@),
    {
        proof {
            lemma_sum_bound(old(self).count as int, TEMP_LIMIT as int, old(self).sum as int);
            lemma_sum_bound(other.count as int, TEMP_LIMIT as int, other.sum as int);
            lemma_merge_sum_bound(
                old(self).count as int,
                other.count as int,
                TEMP_LIMIT as int,
                old(self).sum as int,
                other.sum as int,
            );
        }
        self.count = self.count + other.count;
        self.sum = self.sum + other.sum;
        if other.min < self.min {
            self.min = other.min;
        }
        if other.max > self.max {
            self.max = other.max;
        }
    }

    /// Mean in tenths, rounded to the nearest tenth, ties away from zero.
    pub fn mean_tenths(&self) -> (r: i64)
        requires
            self.wf(),
        ensures
            r as int == spec_mean(self@),
            -TEMP_LIMIT <= r <= TEMP_LIMIT,
    {
        let neg: bool = self.sum < 0;
        let a: u128 = if neg { (-self.sum) as u128 } else { self.sum as u128 };
        let d: u128 = self.count as u128;
        let q: u128 = a / d;
        let rem: u128 = a % d;
        proof {
            lemma_div_rounded_bound(a as int, d as int, TEMP_LIMIT as int);
        }
        let rounded: u128 = if 2 * rem >= d { q + 1 } else { q };
        if neg {
            -(rounded as i64)
        } else {
            rounded as i64
        }
    }
}

/// If `1 <= c` and `|s| <= c * lim` with `c <= u64::MAX` and `lim = TEMP_LIMIT`,
/// then `|s|` is far below `i128` overflow even after adding one more bounded
/// observation or a second such sum.
proof fn lemma_sum_bound(c: int, lim: int, s: int)
    requires
        1 <= c <= u64::MAX as int,
        lim == TEMP_LIMIT as int,
        -(c * lim) <= s <= c * lim,
    ensures
        -(u64::MAX as int * lim) <= s <= u64::MAX as int * lim,
{
    assert(c * lim <= u64::MAX as int * lim) by (nonlinear_arith)
        requires
            1 <= c <= u64::MAX as int,
            lim > 0,
    ;
}

proof fn lemma_sum_bound_back(c0: int, v: int, lim: int, s: int)
    requires
        1 <= c0,
        lim > 0,
        -(c0 * lim) <= s - v <= c0 * lim,
        -lim <= v <= lim,
    ensures
        -((c0 + 1) * lim) <= s <= (c0 + 1) * lim,
{
    assert((c0 + 1) * lim == c0 * lim + lim) by (nonlinear_arith);
}

proof fn lemma_merge_sum_bound(c1: int, c2: int, lim: int, s1: int, s2: int)
    requires
        1 <= c1,
        1 <= c2,
        lim > 0,
        -(c1 * lim) <= s1 <= c1 * lim,
        -(c2 * lim) <= s2 <= c2 * lim,
    ensures
        -((c1 + c2) * lim) <= s1 + s2 <= (c1 + c2) * lim,
{
    assert((c1 + c2) * lim == c1 * lim + c2 * lim) by (nonlinear_arith);
}

/// For a nonnegative dividend `a <= d * lim`, the quotient rounded to the
/// nearest integer (ties up) is at most `lim`.
proof fn lemma_div_rounded_bound(a: int, d: int, lim: int)
    requires
        0 <= a,
        1 <= d,
        lim > 0,
        a <= d * lim,
    ensures
        a / d <= lim,
        2 * (a % d) >= d ==> a / d + 1 <= lim,
        0 <= a / d,
        0 <= a % d < d,
{
    assert(a / d <= lim && (2 * (a % d) >= d ==> a / d + 1 <= lim) && 0 <= a / d && 0 <= a % d
        < d) by (nonlinear_arith)
        requires
            0 <= a,
            1 <= d,
            lim > 0,
            a <= d * lim,
    ;
}

/// Merging is commutative: the combined summary does not depend on which
/// side each part came from.
pub proof fn lemma_merge_comm(a: RecordsModel, b: RecordsModel)
    ensures
        spec_merge(a, b) == spec_merge(b, a),
{
}

/// Merging is associative: the combined summary does not depend on grouping.
pub proof fn lemma_merge_assoc(a: RecordsModel, b: RecordsModel, c: RecordsModel)
    ensures
        spec_merge(spec_merge(a, b), c) == spec_merge(a, spec_merge(b, c)),
{
}

/// Updating a summary with one observation is merging with that observation's
/// singleton summary.
pub proof fn lemma_update_is_merge_single(r: RecordsModel, v: int)
    ensures
        spec_update(r, v) == spec_merge(r, spec_single(v)),
{
}

/// Summarizing a concatenation equals merging the two parts' summaries:
/// chunk-local summaries merged give exactly the summary of the full,
/// unchunked observation sequence.
pub proof fn lemma_records_of_concat(a: Seq<int>, b: Seq<int>)
    requires
        a.len() > 0,
        b.len() > 0,
    ensures
        spec_records_of(a + b) == spec_merge(spec_records_of(a), spec_records_of(b)),
    decreases b.len(),
{
    if b.len() == 1 {
        assert((a + b).drop_last() =~= a);
        assert((a + b).last() == b[0]);
        assert((a + b).len() == a.len() + 1);
        assert(spec_records_of(a + b) == spec_update(spec_records_of(a), b[0]));
        assert(spec_records_of(b) == spec_single(b[0]));
    } else {
        let b0 = b.drop_last();
        lemma_records_of_concat(a, b0);
        assert((a + b).drop_last() =~= a + b0);
        assert(spec_records_of(a + b) == spec_update(spec_records_of(a + b0), b.last()));
        assert(spec_records_of(b) == spec_update(spec_records_of(b0), b.last()));
        lemma_merge_assoc(spec_records_of(a), spec_records_of(b0), spec_single(b.last()));
        lemma_update_is_merge_single(spec_records_of(a + b0), b.last());
        lemma_update_is_merge_single(spec_records_of(b0), b.last());
    }
}

/// The concatenation of a sequence of observation chunks.
pub open spec fn spec_concat_all(parts: Seq<Seq<int>>) -> Seq<int>
    decreases parts.len(),
{
    if parts.len() == 0 {
        Seq::empty()
    } else {
        spec_concat_all(parts.drop_last()) + parts.last()
    }
}

/// The merge of all chunk-local summaries, in chunk order.
pub open spec fn spec_merge_all(parts: Seq<Seq<int>>) -> RecordsModel
    recommends
        parts.len() > 0,
    decreases parts.len(),
{
    if parts.len() <= 1 {
        spec_records_of(parts[0])
    } else {
        spec_merge(spec_merge_all(parts.drop_last()), spec_records_of(parts.last()))
    }
}

/// Splitting a station's observations into nonempty chunks, summarizing each
/// chunk locally, and merging the local summaries yields exactly the summary
/// of the full, unchunked sequence — however the sequence was chunked.
pub proof fn lemma_merge_of_chunks(parts: Seq<Seq<int>>)
    requires
        parts.len() > 0,
        forall|i: int| 0 <= i < parts.len() ==> #[trigger] parts[i].len() > 0,
    ensures
        spec_merge_all(parts) == spec_records_of(spec_concat_all(parts)),
    decreases parts.len(),
{
    if parts.len() == 1 {
        assert(spec_concat_all(parts.drop_last()) =~= Seq::<int>::empty());
        assert(spec_concat_all(parts) =~= parts[0]);
    } else {
        let p0 = parts.drop_last();
        lemma_merge_of_chunks(p0);
        lemma_concat_all_nonempty(p0);
        lemma_records_of_concat(spec_concat_all(p0), parts.last());
    }
}

proof fn lemma_concat_all_nonempty(parts: Seq<Seq<int>>)
    requires
        parts.len() > 0,
        forall|i: int| 0 <= i < parts.len() ==> #[trigger] parts[i].len() > 0,
    ensures
        spec_concat_all(parts).len() > 0,
    decreases parts.len(),
{
    if parts.len() > 1 {
        lemma_concat_all_nonempty(parts.drop_last());
    }
}

} // verus!
