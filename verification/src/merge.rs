//! The global merge: after a chunk is aggregated, its local table is folded
//! into the shared global table, entry by entry. Station bytes are decoded to
//! text — lossily, so invalid byte sequences are replaced rather than
//! rejected — only at this boundary.

use vstd::prelude::*;
use crate::records::{spec_merge, RecordsModel};
use crate::records::Records;
use crate::table::{lemma_entries_map_index, StationMap};

verus! {

/// What `String::from_utf8_lossy` returns for given station bytes,
/// re-encoded as UTF-8 bytes: a function of the input bytes alone.
pub uninterp spec fn lossy_of(s: Seq<u8>) -> Seq<u8>;

/// Relies on String::from_utf8_lossy: the decoding depends on the input
/// bytes alone, and ASCII bytes pass through unchanged (ASCII is valid
/// UTF-8, and valid UTF-8 is returned as is).
#[verifier::external_body]
fn decode_station(bytes: &Vec<u8>) -> (r: Vec<u8>)
    ensures
        r@ == lossy_of(bytes@),
        (forall|i: int| 0 <= i < bytes@.len() ==> bytes@[i] < 128) ==> r@ == bytes@,
{
    String::from_utf8_lossy(bytes.as_slice()).into_owned().into_bytes()
}

/// The global table after folding in the local entries in order, keyed by
/// the decoded station text. `None` when some station's combined observation
/// count would not fit in a `u64`.
pub open spec fn spec_merge_entries(
    g: Map<Seq<u8>, RecordsModel>,
    es: Seq<(Vec<u8>, Records)>,
) -> Option<Map<Seq<u8>, RecordsModel>>
    decreases es.len(),
{
    if es.len() == 0 {
        Some(g)
    } else {
        let k = lossy_of(es[0].0@);
        let r = es[0].1@;
        if g.dom().contains(k) {
            if g[k].count + r.count > u64::MAX as int {
                None
            } else {
                spec_merge_entries(g.insert(k, spec_merge(g[k], r)), es.skip(1))
            }
        } else {
            spec_merge_entries(g.insert(k, r), es.skip(1))
        }
    }
}

/// Fold one chunk's local table into the global table. Returns `false` —
/// with the global table only partially updated — exactly when some
/// station's combined count would overflow; otherwise the global table
/// afterwards is the fold of the local entries into it.
pub fn merge_into_global(global: &mut StationMap, local: &StationMap) -> (ok: bool)
    requires
        old(global).wf(),
        local.wf(),
    ensures
        final(global).wf(),
        match spec_merge_entries(old(global)@, local.entries@) {
            Some(m) => ok && final(global)@ == m,
            None => !ok,
        },
{
    let n: usize = local.len();
    let mut i: usize = 0;
    proof {
        assert(local.entries@.skip(0) =~= local.entries@);
    }
    while i < n
        invariant
            i <= n,
            n == local.entries@.len(),
            global.wf(),
            local.wf(),
            spec_merge_entries(global@, local.entries@.skip(i as int)) == spec_merge_entries(
                old(global)@,
                local.entries@,
            ),
        decreases n - i,
    {
        let ghost suffix = local.entries@.skip(i as int);
        proof {
            assert(suffix[0] == local.entries@[i as int]);
            assert(local.entries@[i as int].1.wf());
        }
        let key = decode_station(&local.entries[i].0);
        let rec: Records = local.entries[i].1;
        match global.find(key.as_slice()) {
            Some(j) => {
                let gcount: u64 = global.entries[j].1.count;
                proof {
                    assert(global.entries@[j as int].1.wf());
                }
                if u64::MAX - gcount < rec.count {
                    proof {
                        assert(spec_merge_entries(global@, suffix).is_none());
                    }
                    return false;
                }
                global.merge_at(j, &rec);
            },
            None => {
                proof {
                    assert forall|j: int|
                        0 <= j < global.entries@.len() implies (
                    #[trigger] global.entries@[j]).0@ != key@ by {
                        if global.entries@[j].0@ == key@ {
                            lemma_entries_map_index(global.entries@, j);
                        }
                    }
                }
                global.push_pair(key, rec);
            },
        }
        i = i + 1;
        proof {
            assert(local.entries@.skip(i as int) =~= suffix.skip(1));
        }
    }
    proof {
        assert(local.entries@.skip(n as int) =~= Seq::<(Vec<u8>, Records)>::empty());
    }
    true
}

} // verus!
