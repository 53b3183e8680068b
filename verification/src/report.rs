//! The reporter: the final table rendered as one line per station,
//! `station;min;mean;max`, stations in ascending byte order, each value with
//! exactly one decimal digit.
//!
//! The output is a function of the final table alone: the strictly sorted
//! entry sequence of a map is unique, so rendering it is deterministic.

use vstd::prelude::*;
use crate::records::{spec_mean, Records, RecordsModel, TEMP_LIMIT};
use crate::table::{
    lemma_entries_map_absent, lemma_entries_map_index, spec_entries_map, spec_keys_unique,
    StationMap,
};

verus! {

/// Strict lexicographic byte order.
pub open spec fn spec_lex_less(a: Seq<u8>, b: Seq<u8>) -> bool
    decreases a.len(),
{
    if b.len() == 0 {
        false
    } else if a.len() == 0 {
        true
    } else if a[0] < b[0] {
        true
    } else if a[0] > b[0] {
        false
    } else {
        spec_lex_less(a.skip(1), b.skip(1))
    }
}

/// The order is irreflexive.
pub proof fn lemma_lex_irrefl(a: Seq<u8>)
    ensures
        !spec_lex_less(a, a),
    decreases a.len(),
{
    if a.len() > 0 {
        lemma_lex_irrefl(a.skip(1));
    }
}

/// The order is asymmetric.
pub proof fn lemma_lex_asym(a: Seq<u8>, b: Seq<u8>)
    requires
        spec_lex_less(a, b),
    ensures
        !spec_lex_less(b, a),
    decreases a.len(),
{
    if a.len() > 0 && b.len() > 0 && a[0] == b[0] {
        lemma_lex_asym(a.skip(1), b.skip(1));
    }
}

/// Any two byte strings are ordered or equal.
pub proof fn lemma_lex_trichotomy(a: Seq<u8>, b: Seq<u8>)
    ensures
        spec_lex_less(a, b) || spec_lex_less(b, a) || a == b,
    decreases a.len(),
{
    if a.len() > 0 && b.len() > 0 && a[0] == b[0] {
        lemma_lex_trichotomy(a.skip(1), b.skip(1));
        if a.skip(1) == b.skip(1) {
            assert(a.len() == b.len());
            assert forall|j: int| 0 <= j < a.len() implies a[j] == b[j] by {
                if j > 0 {
                    assert(a.skip(1)[j - 1] == b.skip(1)[j - 1]);
                }
            }
            assert(a =~= b);
        }
    }
}

/// Compare two station keys in byte order.
pub fn lex_less(a: &Vec<u8>, b: &Vec<u8>) -> (r: bool)
    ensures
        r == spec_lex_less(a@, b@),
{
    let alen: usize = a.len();
    let blen: usize = b.len();
    let mut i: usize = 0;
    proof {
        assert(a@.skip(0) =~= a@);
        assert(b@.skip(0) =~= b@);
    }
    while i < alen && i < blen
        invariant
            i <= alen,
            i <= blen,
            alen == a@.len(),
            blen == b@.len(),
            spec_lex_less(a@, b@) == spec_lex_less(a@.skip(i as int), b@.skip(i as int)),
        decreases alen - i,
    {
        let x: u8 = a[i];
        let y: u8 = b[i];
        let ghost asuf = a@.skip(i as int);
        let ghost bsuf = b@.skip(i as int);
        proof {
            assert(asuf[0] == x);
            assert(bsuf[0] == y);
        }
        if x < y {
            return true;
        }
        if x > y {
            return false;
        }
        proof {
            assert(asuf.skip(1) =~= a@.skip(i as int + 1));
            assert(bsuf.skip(1) =~= b@.skip(i as int + 1));
        }
        i = i + 1;
    }
    proof {
        assert(a@.skip(i as int).len() == alen - i);
        assert(b@.skip(i as int).len() == blen - i);
    }
    alen < blen
}

/// Keys strictly ascending.
pub open spec fn spec_sorted_strict(es: Seq<(Vec<u8>, Records)>) -> bool {
    forall|i: int, j: int|
        0 <= i < j < es.len() ==> spec_lex_less((#[trigger] es[i]).0@, (#[trigger] es[j]).0@)
}

/// Decimal digits of `n`, most significant first.
pub open spec fn spec_digits_seq(n: nat) -> Seq<u8>
    decreases n,
{
    if n < 10 {
        seq![(48 + n) as u8]
    } else {
        spec_digits_seq(n / 10).push((48 + n % 10) as u8)
    }
}

/// A value in tenths rendered with one decimal digit: optional minus sign,
/// the whole part, a point, the tenths digit.
pub open spec fn spec_fmt_tenths(v: int) -> Seq<u8> {
    let a = if v < 0 { -v } else { v };
    let sign: Seq<u8> = if v < 0 { seq![45u8] } else { Seq::empty() };
    sign + spec_digits_seq((a / 10) as nat) + seq![46u8, (48 + a % 10) as u8]
}

/// One output row.
pub open spec fn spec_line(k: Seq<u8>, m: RecordsModel) -> Seq<u8> {
    k + seq![59u8] + spec_fmt_tenths(m.min) + seq![59u8] + spec_fmt_tenths(spec_mean(m)) + seq![
        59u8,
    ] + spec_fmt_tenths(m.max) + seq![10u8]
}

/// The rendering of an entry sequence, one row per entry, in order.
pub open spec fn spec_render(es: Seq<(Vec<u8>, Records)>) -> Seq<u8>
    decreases es.len(),
{
    if es.len() == 0 {
        Seq::empty()
    } else {
        spec_render(es.drop_last()) + spec_line(es.last().0@, es.last().1@)
    }
}

/// The report of a table: the rendering of its strictly sorted entry
/// sequence. By `lemma_render_deterministic` any such sequence renders the
/// same bytes, so this is a function of the mapping alone.
pub open spec fn spec_report(m: Map<Seq<u8>, RecordsModel>) -> Seq<u8> {
    spec_render(
        choose|es: Seq<(Vec<u8>, Records)>|
            spec_sorted_strict(es) && spec_entries_map(es) == m,
    )
}

/// A strictly sorted sequence has unique keys.
pub proof fn lemma_sorted_unique(es: Seq<(Vec<u8>, Records)>)
    requires
        spec_sorted_strict(es),
    ensures
        spec_keys_unique(es),
{
    assert forall|i: int, j: int| 0 <= i < j < es.len() implies (#[trigger] es[i]).0@ != (
    #[trigger] es[j]).0@ by {
        lemma_lex_irrefl(es[i].0@);
    }
}

/// Every key of the described map is some entry's key.
pub proof fn lemma_entries_map_dom(es: Seq<(Vec<u8>, Records)>, k: Seq<u8>)
    requires
        spec_entries_map(es).dom().contains(k),
    ensures
        exists|i: int| 0 <= i < es.len() && (#[trigger] es[i]).0@ == k,
    decreases es.len(),
{
    if es.len() > 0 {
        if es.last().0@ == k {
            assert(es[es.len() - 1].0@ == k);
        } else {
            lemma_entries_map_dom(es.drop_last(), k);
            let i = choose|i: int| 0 <= i < es.len() - 1 && (#[trigger] es.drop_last()[i]).0@ == k;
            assert(es[i].0@ == k);
        }
    }
}

/// Two strictly sorted entry sequences describing the same map render the
/// same bytes: the report is determined by the final table, so repeated runs
/// over the same data emit byte-identical output.
pub proof fn lemma_render_deterministic(es1: Seq<(Vec<u8>, Records)>, es2: Seq<(Vec<u8>, Records)>)
    requires
        spec_sorted_strict(es1),
        spec_sorted_strict(es2),
        spec_entries_map(es1) == spec_entries_map(es2),
    ensures
        spec_render(es1) == spec_render(es2),
    decreases es1.len(),
{
    lemma_sorted_unique(es1);
    lemma_sorted_unique(es2);
    let m = spec_entries_map(es1);
    if es1.len() == 0 {
        if es2.len() > 0 {
            lemma_entries_map_index(es2, es2.len() - 1);
            lemma_entries_map_absent(es1, es2.last().0@);
        }
    } else if es2.len() == 0 {
        lemma_entries_map_index(es1, es1.len() - 1);
        lemma_entries_map_absent(es2, es1.last().0@);
    } else {
        let k1 = es1.last().0@;
        let k2 = es2.last().0@;
        // Each last key is the greatest of the shared domain, so they agree.
        lemma_entries_map_index(es1, es1.len() - 1);
        lemma_entries_map_index(es2, es2.len() - 1);
        lemma_entries_map_dom(es1, k2);
        lemma_entries_map_dom(es2, k1);
        let i1 = choose|i: int| 0 <= i < es1.len() && (#[trigger] es1[i]).0@ == k2;
        let i2 = choose|i: int| 0 <= i < es2.len() && (#[trigger] es2[i]).0@ == k1;
        if i1 < es1.len() - 1 && i2 < es2.len() - 1 {
            lemma_lex_asym(k2, k1);
            assert(false);
        }
        assert(k1 == k2);
        // Same last summaries.
        assert(es1.last().1@ == m[k1]);
        assert(es2.last().1@ == m[k1]);
        // The rest describes the map without the last key.
        lemma_entries_map_absent_prefix(es1);
        lemma_entries_map_absent_prefix(es2);
        assert(spec_entries_map(es1.drop_last()) =~= m.remove(k1));
        assert(spec_entries_map(es2.drop_last()) =~= m.remove(k1));
        assert(spec_sorted_strict(es1.drop_last())) by {
            assert(forall|i: int, j: int|
                0 <= i < j < es1.len() - 1 ==> spec_lex_less(
                    (#[trigger] es1.drop_last()[i]).0@,
                    (#[trigger] es1.drop_last()[j]).0@,
                ));
        }
        assert(spec_sorted_strict(es2.drop_last())) by {
            assert(forall|i: int, j: int|
                0 <= i < j < es2.len() - 1 ==> spec_lex_less(
                    (#[trigger] es2.drop_last()[i]).0@,
                    (#[trigger] es2.drop_last()[j]).0@,
                ));
        }
        lemma_render_deterministic(es1.drop_last(), es2.drop_last());
    }
}

/// Dropping the last entry removes exactly its key from the described map.
proof fn lemma_entries_map_absent_prefix(es: Seq<(Vec<u8>, Records)>)
    requires
        spec_keys_unique(es),
        es.len() > 0,
    ensures
        spec_entries_map(es.drop_last()) == spec_entries_map(es).remove(es.last().0@),
{
    let k = es.last().0@;
    assert(forall|i: int| 0 <= i < es.len() - 1 ==> (#[trigger] es.drop_last()[i]).0@ != k);
    lemma_entries_map_absent(es.drop_last(), k);
    assert(spec_entries_map(es.drop_last()) =~= spec_entries_map(es).remove(k));
}

/// A sequence whose entries all agree with `m`, and whose keys cover `m`'s
/// domain, describes exactly `m`.
proof fn lemma_entries_map_determined(es: Seq<(Vec<u8>, Records)>, m: Map<Seq<u8>, RecordsModel>)
    requires
        spec_keys_unique(es),
        forall|i: int|
            0 <= i < es.len() ==> m.dom().contains((#[trigger] es[i]).0@) && m[es[i].0@]
                == es[i].1@,
        forall|k: Seq<u8>|
            m.dom().contains(k) ==> exists|i: int| 0 <= i < es.len() && (#[trigger] es[i]).0@ == k,
    ensures
        spec_entries_map(es) == m,
    decreases es.len(),
{
    if es.len() == 0 {
        assert forall|k: Seq<u8>| !m.dom().contains(k) by {
            if m.dom().contains(k) {
                let i = choose|i: int| 0 <= i < es.len() && (#[trigger] es[i]).0@ == k;
            }
        }
        assert(spec_entries_map(es) =~= m);
    } else {
        let k = es.last().0@;
        let m0 = m.remove(k);
        let es0 = es.drop_last();
        assert(forall|i: int| 0 <= i < es0.len() ==> #[trigger] es0[i] == es[i]);
        assert forall|kk: Seq<u8>| m0.dom().contains(kk) implies exists|i: int|
            0 <= i < es0.len() && (#[trigger] es0[i]).0@ == kk by {
            let i = choose|i: int| 0 <= i < es.len() && (#[trigger] es[i]).0@ == kk;
            assert(i < es.len() - 1);
            assert(es0[i].0@ == kk);
        }
        lemma_entries_map_determined(es0, m0);
        assert(spec_entries_map(es) =~= m);
    }
}

/// Append the decimal digits of `n`.
fn push_digits(out: &mut Vec<u8>, n: u64)
    ensures
        final(out)@ == old(out)@ + spec_digits_seq(n as nat),
    decreases n,
{
    if n < 10 {
        out.push(48 + n as u8);
        proof {
            assert(final(out)@ =~= old(out)@ + spec_digits_seq(n as nat));
        }
    } else {
        push_digits(out, n / 10);
        out.push(48 + (n % 10) as u8);
        proof {
            assert(final(out)@ =~= old(out)@ + spec_digits_seq(n as nat));
        }
    }
}

/// Append a value in tenths, formatted with one decimal digit.
fn push_tenths(out: &mut Vec<u8>, v: i64)
    requires
        -TEMP_LIMIT <= v <= TEMP_LIMIT,
    ensures
        final(out)@ == old(out)@ + spec_fmt_tenths(v as int),
{
    if v < 0 {
        out.push(45);
    }
    let a: u64 = if v < 0 {
        (-v) as u64
    } else {
        v as u64
    };
    push_digits(out, a / 10);
    out.push(46);
    out.push(48 + (a % 10) as u8);
    proof {
        assert(final(out)@ =~= old(out)@ + spec_fmt_tenths(v as int));
    }
}

/// Render the final table: one `station;min;mean;max` row per station, in
/// ascending byte order of the station names, values with one decimal digit.
/// The output is `spec_report` of the table's mapping — a function of the
/// mapping alone.
pub fn report(g: StationMap) -> (out: Vec<u8>)
    requires
        g.wf(),
    ensures
        out@ == spec_report(g@),
        exists|es: Seq<(Vec<u8>, Records)>|
            {
                &&& #[trigger] spec_sorted_strict(es)
                &&& spec_entries_map(es) == g@
                &&& out@ == spec_render(es)
            },
{
    let mut rem = g;
    let mut out: Vec<u8> = Vec::new();
    let ghost mut done: Seq<(Vec<u8>, Records)> = Seq::empty();
    let ghost goal = g@;

    proof {
        assert forall|k: Seq<u8>| goal.dom().contains(k) implies exists|i: int|
            0 <= i < rem.entries@.len() && (#[trigger] rem.entries@[i]).0@ == k by {
            lemma_entries_map_dom(rem.entries@, k);
        }
        assert forall|i: int| 0 <= i < rem.entries@.len() implies goal.dom().contains(
            (#[trigger] rem.entries@[i]).0@,
        ) && goal[rem.entries@[i].0@] == rem.entries@[i].1@ by {
            lemma_entries_map_index(rem.entries@, i);
        }
    }

    while rem.entries.len() > 0
        invariant
            rem.wf(),
            out@ == spec_render(done),
            spec_sorted_strict(done),
            spec_keys_unique(done),
            forall|a: int, b: int|
                0 <= a < done.len() && 0 <= b < rem.entries@.len() ==> spec_lex_less(
                    (#[trigger] done[a]).0@,
                    (#[trigger] rem.entries@[b]).0@,
                ),
            forall|a: int|
                0 <= a < done.len() ==> goal.dom().contains((#[trigger] done[a]).0@) && goal[
                    done[a].0@
                ] == done[a].1@,
            forall|k: Seq<u8>|
                goal.dom().contains(k) ==> (exists|i: int|
                    0 <= i < done.len() && (#[trigger] done[i]).0@ == k) || (exists|i: int|
                    0 <= i < rem.entries@.len() && (#[trigger] rem.entries@[i]).0@ == k),
            forall|i: int|
                0 <= i < rem.entries@.len() ==> goal.dom().contains(
                    (#[trigger] rem.entries@[i]).0@,
                ) && goal[rem.entries@[i].0@] == rem.entries@[i].1@,
        decreases rem.entries@.len(),
    {
        // Index of the least remaining key.
        let n: usize = rem.entries.len();
        let mut mi: usize = 0;
        let mut idx: usize = 1;
        proof {
            lemma_lex_irrefl(rem.entries@[0].0@);
        }
        while idx < n
            invariant
                mi < idx <= n,
                n == rem.entries@.len(),
                rem.wf(),
                forall|b: int|
                    0 <= b < idx ==> !spec_lex_less(
                        (#[trigger] rem.entries@[b]).0@,
                        rem.entries@[mi as int].0@,
                    ),
            decreases n - idx,
        {
            if lex_less(&rem.entries[idx].0, &rem.entries[mi].0) {
                proof {
                    assert forall|b: int|
                        0 <= b < idx + 1 implies !spec_lex_less(
                        (#[trigger] rem.entries@[b]).0@,
                        rem.entries@[idx as int].0@,
                    ) by {
                        lemma_lex_irrefl(rem.entries@[idx as int].0@);
                        if b < idx && spec_lex_less(
                            rem.entries@[b].0@,
                            rem.entries@[idx as int].0@,
                        ) {
                            lemma_lex_trichotomy(rem.entries@[b].0@, rem.entries@[mi as int].0@);
                            lemma_lex_transitive_helper(
                                rem.entries@[mi as int].0@,
                                rem.entries@[b].0@,
                                rem.entries@[idx as int].0@,
                            );
                            lemma_lex_asym(
                                rem.entries@[idx as int].0@,
                                rem.entries@[mi as int].0@,
                            );
                        }
                    }
                }
                mi = idx;
            } else {
                proof {
                    assert forall|b: int|
                        0 <= b < idx + 1 implies !spec_lex_less(
                        (#[trigger] rem.entries@[b]).0@,
                        rem.entries@[mi as int].0@,
                    ) by {}
                }
            }
            idx = idx + 1;
        }

        // Remove it, render its row, and append it to the finished prefix.
        let ghost rem_before = rem.entries@;
        let ghost m_before = spec_entries_map(rem_before);
        proof {
            lemma_entries_map_index(rem_before, mi as int);
        }
        let (k, r) = rem.remove_entry(mi);
        proof {
            assert(r.wf());
            assert forall|b: int|
                0 <= b < rem.entries@.len() implies spec_lex_less(
                k@,
                (#[trigger] rem.entries@[b]).0@,
            ) by {
                let ob: int = if b < mi as int {
                    b
                } else {
                    b + 1
                };
                assert(rem.entries@[b] == rem_before[ob]);
                lemma_lex_trichotomy(k@, rem_before[ob].0@);
            }
        }
        let mean: i64 = r.mean_tenths();
        out.extend_from_slice(k.as_slice());
        out.push(59);
        push_tenths(&mut out, r.min);
        out.push(59);
        push_tenths(&mut out, mean);
        out.push(59);
        push_tenths(&mut out, r.max);
        out.push(10);

        proof {
            let e = (k, r);
            let ghost done0 = done;
            assert(done.push(e).drop_last() =~= done);
            assert(out@ =~= spec_render(done) + spec_line(k@, r@));
            done = done.push(e);

            // The finished prefix stays sorted: everything in it is below the
            // key just appended, which was below everything left.
            assert(e.0@ == rem_before[mi as int].0@);
            assert forall|i: int, j: int| 0 <= i < j < done.len() implies spec_lex_less(
                (#[trigger] done[i]).0@,
                (#[trigger] done[j]).0@,
            ) by {
                if j == done.len() - 1 {
                    assert(done[i] == done0[i]);
                    assert(spec_lex_less(done0[i].0@, rem_before[mi as int].0@));
                } else {
                    assert(done[i] == done0[i] && done[j] == done0[j]);
                }
            }
            lemma_sorted_unique(done);

            // The finished prefix stays below everything still remaining.
            assert forall|a: int, b: int|
                0 <= a < done.len() && 0 <= b < rem.entries@.len() implies spec_lex_less(
                (#[trigger] done[a]).0@,
                (#[trigger] rem.entries@[b]).0@,
            ) by {
                let ob: int = if b < mi as int {
                    b
                } else {
                    b + 1
                };
                assert(rem.entries@[b] == rem_before[ob]);
                if a < done.len() - 1 {
                    assert(done[a] == done0[a]);
                    assert(spec_lex_less(done0[a].0@, rem_before[ob].0@));
                } else {
                    assert(done[a] == e);
                    assert(spec_lex_less(e.0@, rem.entries@[b].0@));
                }
            }

            // The finished prefix agrees with the goal mapping.
            assert(goal.dom().contains(e.0@) && goal[e.0@] == e.1@) by {
                assert(rem_before[mi as int].1@ == e.1@);
            }
            assert forall|a: int| 0 <= a < done.len() implies goal.dom().contains(
                (#[trigger] done[a]).0@,
            ) && goal[done[a].0@] == done[a].1@ by {
                if a < done.len() - 1 {
                    assert(done[a] == done0[a]);
                }
            }

            // Every goal key is still in the finished prefix or remaining.
            assert forall|kk: Seq<u8>| goal.dom().contains(kk) implies ((exists|i: int|
                0 <= i < done.len() && (#[trigger] done[i]).0@ == kk) || (exists|i: int|
                0 <= i < rem.entries@.len() && (#[trigger] rem.entries@[i]).0@ == kk)) by {
                if exists|i: int| 0 <= i < done0.len() && (#[trigger] done0[i]).0@ == kk {
                    let i = choose|i: int| 0 <= i < done0.len() && (#[trigger] done0[i]).0@ == kk;
                    assert(done[i].0@ == kk);
                } else {
                    let i = choose|i: int|
                        0 <= i < rem_before.len() && (#[trigger] rem_before[i]).0@ == kk;
                    if i == mi as int {
                        assert(done[done.len() - 1].0@ == kk);
                    } else if i < mi as int {
                        assert(rem.entries@[i].0@ == kk);
                    } else {
                        assert(rem.entries@[i - 1] == rem_before[i]);
                        assert(rem.entries@[i - 1].0@ == kk);
                    }
                }
            }

            // The remaining entries still agree with the goal mapping.
            assert forall|i: int| 0 <= i < rem.entries@.len() implies goal.dom().contains(
                (#[trigger] rem.entries@[i]).0@,
            ) && goal[rem.entries@[i].0@] == rem.entries@[i].1@ by {
                let oi: int = if i < mi as int {
                    i
                } else {
                    i + 1
                };
                assert(rem.entries@[i] == rem_before[oi]);
            }
        }
    }

    proof {
        // Everything is in `done`, which therefore describes the whole table.
        assert forall|kk: Seq<u8>| goal.dom().contains(kk) implies exists|i: int|
            0 <= i < done.len() && (#[trigger] done[i]).0@ == kk by {}
        lemma_entries_map_determined(done, goal);
        // The chosen sorted sequence renders the same bytes.
        let es_c = choose|es: Seq<(Vec<u8>, Records)>|
            spec_sorted_strict(es) && spec_entries_map(es) == goal;
        assert(spec_sorted_strict(done) && spec_entries_map(done) == goal);
        lemma_render_deterministic(done, es_c);
    }
    out
}

/// Transitivity in the form the minimum scan needs: below-or-equal composed
/// with strictly-below is strictly-below.
proof fn lemma_lex_transitive_helper(a: Seq<u8>, b: Seq<u8>, c: Seq<u8>)
    requires
        spec_lex_less(a, b) || a == b,
        spec_lex_less(b, c),
    ensures
        spec_lex_less(a, c),
    decreases a.len() + b.len() + c.len(),
{
    if a == b {
    } else {
        lemma_lex_transitive(a, b, c);
    }
}

/// The byte order is transitive.
pub proof fn lemma_lex_transitive(a: Seq<u8>, b: Seq<u8>, c: Seq<u8>)
    requires
        spec_lex_less(a, b),
        spec_lex_less(b, c),
    ensures
        spec_lex_less(a, c),
    decreases a.len(),
{
    if a.len() == 0 {
        if c.len() == 0 {
            assert(b.len() > 0);
        }
    } else {
        assert(b.len() > 0);
        assert(c.len() > 0);
        if a[0] == b[0] && b[0] == c[0] {
            lemma_lex_transitive(a.skip(1), b.skip(1), c.skip(1));
        }
    }
}

} // verus!
