//! Sorted, duplicate-free vectors of partition keys, used as small ordered
//! sets by the registry and the partitioned input operator.

use vstd::prelude::*;

use crate::keys::StateKey;

verus! {

/// `k` is one of the keys in `s`.
pub open spec fn has_key(s: Seq<StateKey>, k: u64) -> bool {
    exists|i: int| 0 <= i < s.len() && (#[trigger] s[i]).0 == k
}

/// Keys in strictly increasing order, hence duplicate-free.
pub open spec fn keys_sorted(s: Seq<StateKey>) -> bool {
    forall|i: int, j: int| 0 <= i < j < s.len() ==> (#[trigger] s[i]).0 < (#[trigger] s[j]).0
}

/// Insert `k` in order; no effect when already present.
pub fn insert_key(v: &mut Vec<StateKey>, k: StateKey)
    requires
        keys_sorted(old(v)@),
    ensures
        keys_sorted(final(v)@),
        forall|x: u64|
            #![trigger has_key(final(v)@, x)]
            #![trigger has_key(old(v)@, x)]
            has_key(final(v)@, x) <==> (has_key(old(v)@, x) || x == k.0),
{
    let len = v.len();
    let mut j: usize = 0;
    while j < len && v[j].0 < k.0
        invariant
            *v == *old(v),
            len == v@.len(),
            0 <= j <= len,
            forall|m: int| 0 <= m < j ==> (#[trigger] v@[m]).0 < k.0,
        decreases len - j,
    {
        j = j + 1;
    }
    if j < len {
        let e = v[j];
        if e.0 == k.0 {
            proof {
                assert(has_key(v@, k.0));
            }
            return ;
        }
    }
    let ghost prev = v@;
    v.insert(j, k);
    proof {
        let s = v@;
        assert(s == prev.insert(j as int, k));
        assert(forall|m: int| 0 <= m < j ==> s[m] == prev[m]);
        assert(forall|m: int| j < m < s.len() ==> s[m] == prev[m - 1]);
        assert(s[j as int] == k);
        assert(forall|m: int| j <= m < prev.len() ==> (#[trigger] prev[m]).0 > k.0);
        assert forall|x: u64| has_key(s, x) implies (has_key(prev, x) || x == k.0) by {
            let w = choose|w: int| 0 <= w < s.len() && (#[trigger] s[w]).0 == x;
            if w < j {
                assert(prev[w].0 == x);
            } else if w > j {
                assert(prev[w - 1].0 == x);
            }
        }
        assert forall|x: u64| has_key(prev, x) implies has_key(s, x) by {
            let w = choose|w: int| 0 <= w < prev.len() && (#[trigger] prev[w]).0 == x;
            if w < j {
                assert(s[w].0 == x);
            } else {
                assert(s[w + 1].0 == x);
            }
        }
        assert(has_key(s, k.0));
    }
}

} // verus!
