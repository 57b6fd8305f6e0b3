//! Partition registry: deterministic assignment of each partition to
//! exactly one primary worker.
//!
//! Every worker reports which partitions it can host; the reports are
//! broadcast so each worker sees them all. Assignment is then a pure
//! function of the reports and the worker count, so every worker computes
//! the same primaries without further coordination: the hash of the key
//! picks a target worker, and when the target did not report the key, the
//! smallest reporting worker stands in.

use vstd::prelude::*;

use crate::keys::StateKey;
use crate::keys::WorkerCount;
use crate::keys::WorkerIndex;
use crate::sorted::has_key;
use crate::sorted::insert_key;
use crate::sorted::keys_sorted;

verus! {

/// Deterministic 64-bit mix of a partition key (an xorshift step sequence);
/// a pure function, so every worker agrees on it.
pub open spec fn key_mix(k: u64) -> u64 {
    let a = k ^ (k << 13);
    let b = a ^ (a >> 7);
    b ^ (b << 17)
}

/// Executable form of `key_mix`.
pub fn hash_key(key: StateKey) -> (h: u64)
    ensures
        h == key_mix(key.0),
{
    let a = key.0 ^ (key.0 << 13u64);
    let b = a ^ (a >> 7u64);
    b ^ (b << 17u64)
}

/// Worker `w` reported that it can host partition `k`.
pub open spec fn reported(reports: Seq<(StateKey, WorkerIndex)>, k: u64, w: u64) -> bool {
    exists|j: int|
        0 <= j < reports.len() && #[trigger] reports[j] == (StateKey(k), WorkerIndex(w))
}

/// Some worker reported partition `k`.
pub open spec fn key_reported(reports: Seq<(StateKey, WorkerIndex)>, k: u64) -> bool {
    exists|j: int| 0 <= j < reports.len() && (#[trigger] reports[j]).0.0 == k
}

/// Worker `w` is the primary for partition `k`: the hash target when it
/// reported the key, otherwise the smallest worker that reported it.
pub open spec fn is_primary(
    reports: Seq<(StateKey, WorkerIndex)>,
    count: u64,
    k: u64,
    w: u64,
) -> bool {
    let target = key_mix(k) % count;
    if reported(reports, k, target) {
        w == target
    } else {
        reported(reports, k, w) && (forall|w2: u64| w2 < w ==> !#[trigger] reported(reports, k, w2))
    }
}

/// Assign each reported partition to its primary worker. The result lists
/// every reported key exactly once, in increasing key order, paired with
/// the worker `is_primary` designates.
pub fn assign_primaries(reports: &Vec<(StateKey, WorkerIndex)>, count: WorkerCount) -> (out: Vec<
    (StateKey, WorkerIndex),
>)
    requires
        count.0 > 0,
    ensures
        forall|i: int, j: int|
            0 <= i < j < out@.len() ==> (#[trigger] out@[i]).0.0 < (#[trigger] out@[j]).0.0,
        forall|i: int| 0 <= i < out@.len() ==> key_reported(reports@, (#[trigger] out@[i]).0.0),
        forall|k: u64|
            #[trigger] key_reported(reports@, k) ==> exists|i: int|
                0 <= i < out@.len() && (#[trigger] out@[i]).0.0 == k,
        forall|i: int|
            0 <= i < out@.len() ==> is_primary(
                reports@,
                count.0,
                (#[trigger] out@[i]).0.0,
                out@[i].1.0,
            ),
{
    let n_reports = reports.len();

    // The union of reported keys, in order.
    let mut keys: Vec<StateKey> = Vec::new();
    let mut r: usize = 0;
    while r < n_reports
        invariant
            n_reports == reports@.len(),
            0 <= r <= n_reports,
            keys_sorted(keys@),
            forall|x: u64| #[trigger] has_key(keys@, x) ==> key_reported(reports@, x),
            forall|j: int| 0 <= j < r ==> has_key(keys@, (#[trigger] reports@[j]).0.0),
        decreases n_reports - r,
    {
        let k = reports[r].0;
        proof {
            assert(reports@[r as int].0 == k);
            assert(key_reported(reports@, k.0));
        }
        insert_key(&mut keys, k);
        r = r + 1;
    }

    // Pick each key's primary.
    let mut out: Vec<(StateKey, WorkerIndex)> = Vec::new();
    let n_keys = keys.len();
    let mut i: usize = 0;
    while i < n_keys
        invariant
            count.0 > 0,
            n_reports == reports@.len(),
            n_keys == keys@.len(),
            0 <= i <= n_keys,
            keys_sorted(keys@),
            forall|x: u64| #[trigger] has_key(keys@, x) ==> key_reported(reports@, x),
            forall|j: int|
                0 <= j < n_reports ==> has_key(keys@, (#[trigger] reports@[j]).0.0),
            out@.len() == i,
            forall|m: int| 0 <= m < i ==> (#[trigger] out@[m]).0 == keys@[m],
            forall|m: int|
                0 <= m < i ==> is_primary(
                    reports@,
                    count.0,
                    (#[trigger] out@[m]).0.0,
                    out@[m].1.0,
                ),
        decreases n_keys - i,
    {
        let k = keys[i];
        proof {
            assert(keys@[i as int] == k);
            assert(has_key(keys@, k.0));
        }
        let target = hash_key(k) % count.0;
        let mut target_reported = false;
        let mut best: u64 = 0;
        let mut have_best = false;
        let mut j: usize = 0;
        while j < n_reports
            invariant
                n_reports == reports@.len(),
                0 <= j <= n_reports,
                target_reported <==> exists|jj: int|
                    0 <= jj < j && #[trigger] reports@[jj] == (k, WorkerIndex(target)),
                have_best ==> (exists|jj: int|
                    0 <= jj < j && #[trigger] reports@[jj] == (k, WorkerIndex(best))),
                forall|jj: int|
                    0 <= jj < j && (#[trigger] reports@[jj]).0 == k ==> have_best
                        && best <= reports@[jj].1.0,
            decreases n_reports - j,
        {
            let (rk, rw) = reports[j];
            proof {
                assert(reports@[j as int] == (rk, rw));
            }
            if rk.0 == k.0 {
                proof {
                    assert(rk == k);
                }
                if rw.0 == target {
                    target_reported = true;
                    proof {
                        assert(reports@[j as int] == (k, WorkerIndex(target)));
                    }
                }
                if !have_best || rw.0 < best {
                    best = rw.0;
                    have_best = true;
                    proof {
                        assert(reports@[j as int] == (k, WorkerIndex(best)));
                    }
                }
            }
            j = j + 1;
        }
        proof {
            // The key came from some report, so a best reporter exists.
            assert(key_reported(reports@, k.0));
            let w = choose|w: int| 0 <= w < reports@.len() && (#[trigger] reports@[w]).0.0 == k.0;
            assert(reports@[w].0 == k);
            assert(have_best);
            assert(target_reported == reported(reports@, k.0, target));
            if !target_reported {
                assert(reported(reports@, k.0, best));
                assert forall|w2: u64| w2 < best implies !reported(reports@, k.0, w2) by {
                    if reported(reports@, k.0, w2) {
                        let jj = choose|jj: int|
                            0 <= jj < reports@.len() && #[trigger] reports@[jj] == (
                            StateKey(k.0),
                            WorkerIndex(w2),
                            );
                        assert(reports@[jj].0 == k);
                        assert(best <= w2);
                    }
                }
            }
        }
        let primary = if target_reported {
            target
        } else {
            best
        };
        proof {
            assert(is_primary(reports@, count.0, k.0, primary));
        }
        out.push((k, WorkerIndex(primary)));
        i = i + 1;
    }
    proof {
        assert forall|k: u64| #[trigger] key_reported(reports@, k) implies exists|i2: int|
            0 <= i2 < out@.len() && (#[trigger] out@[i2]).0.0 == k by {
            let j = choose|j: int| 0 <= j < reports@.len() && (#[trigger] reports@[j]).0.0 == k;
            assert(has_key(keys@, k));
            let m = choose|m: int| 0 <= m < keys@.len() && (#[trigger] keys@[m]).0 == k;
            assert(out@[m].0.0 == k);
        }
    }
    out
}

} // verus!
