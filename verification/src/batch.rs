//! The lane-level operations of the vectorized bulk-update path: compacting
//! finished lanes to the front, and suppressing all but the leftmost of the
//! lanes that would commit to the same slot in one step.
//!
//! On vector hardware these are realized with permutes and a fixed series of
//! rotated comparisons; here they are specified and computed lane by lane.

use vstd::prelude::*;

verus! {

/// Whether bit `i` of `mask` is set: lane `i` still carries a live probe.
pub open spec fn mask_bit(mask: u8, i: int) -> bool {
    mask >> (i as u8) & 1 == 1
}

/// The number of clear bits of `mask` among the first `n` lanes.
pub open spec fn count_clear(mask: u8, n: nat) -> nat
    decreases n,
{
    if n == 0 {
        0nat
    } else {
        count_clear(mask, (n - 1) as nat) + if mask_bit(mask, n - 1) {
            0nat
        } else {
            1nat
        }
    }
}

/// The lane operations of the bulk path.
pub struct Operations;

impl Operations {
    /// The permutation that compacts finished lanes (clear mask bits) to the
    /// front, keeping both groups in ascending lane order.
    pub fn reorder(mask: u8, lanes: usize) -> (r: Vec<u8>)
        requires
            lanes <= 8,
        ensures
            r@.len() == lanes,
            forall|j: int| 0 <= j < r@.len() ==> 0 <= #[trigger] r@[j] < lanes,
            forall|j: int|
                0 <= j < count_clear(mask, lanes as nat) ==> !mask_bit(mask, (#[trigger] r@[j]) as int),
            forall|j: int|
                count_clear(mask, lanes as nat) <= j < r@.len() ==> mask_bit(
                    mask,
                    (#[trigger] r@[j]) as int,
                ),
            forall|j1: int, j2: int|
                0 <= j1 < j2 < count_clear(mask, lanes as nat) ==> #[trigger] r@[j1]
                    < #[trigger] r@[j2],
            forall|j1: int, j2: int|
                count_clear(mask, lanes as nat) <= j1 < j2 < r@.len() ==> #[trigger] r@[j1]
                    < #[trigger] r@[j2],
    {
        let mut r: Vec<u8> = Vec::new();
        let mut i: usize = 0;
        while i < lanes
            invariant
                lanes <= 8,
                i <= lanes,
                r@.len() == count_clear(mask, i as nat),
                forall|j: int| 0 <= j < r@.len() ==> 0 <= #[trigger] r@[j] < i,
                forall|j: int| 0 <= j < r@.len() ==> !mask_bit(mask, (#[trigger] r@[j]) as int),
                forall|j1: int, j2: int|
                    0 <= j1 < j2 < r@.len() ==> #[trigger] r@[j1] < #[trigger] r@[j2],
            decreases lanes - i,
        {
            let sh = i as u8;
            let b = (mask >> sh) & 1;
            proof {
                assert((mask >> sh) & 1 == 0 || (mask >> sh) & 1 == 1) by (bit_vector);
                assert((b == 1) == mask_bit(mask, i as int));
            }
            if b == 0 {
                r.push(i as u8);
            }
            proof {
                assert(count_clear(mask, (i + 1) as nat) == count_clear(mask, i as nat)
                    + if mask_bit(mask, i as int) {
                    0nat
                } else {
                    1nat
                });
                assert(r@.len() == count_clear(mask, (i + 1) as nat));
            }
            i = i + 1;
        }
        proof {
            assert(r@.len() == count_clear(mask, lanes as nat));
        }
        let ghost split = r@.len() as int;
        let mut i2: usize = 0;
        while i2 < lanes
            invariant
                lanes <= 8,
                i2 <= lanes,
                split == count_clear(mask, lanes as nat),
                r@.len() == split + (i2 - count_clear(mask, i2 as nat)),
                forall|j: int| 0 <= j < r@.len() ==> 0 <= #[trigger] r@[j] < lanes,
                forall|j: int| 0 <= j < split ==> !mask_bit(mask, (#[trigger] r@[j]) as int),
                forall|j: int| split <= j < r@.len() ==> mask_bit(mask, (#[trigger] r@[j]) as int),
                forall|j: int| split <= j < r@.len() ==> #[trigger] r@[j] < i2,
                forall|j1: int, j2: int|
                    0 <= j1 < j2 < split ==> #[trigger] r@[j1] < #[trigger] r@[j2],
                forall|j1: int, j2: int|
                    split <= j1 < j2 < r@.len() ==> #[trigger] r@[j1] < #[trigger] r@[j2],
            decreases lanes - i2,
        {
            let sh = i2 as u8;
            let b = (mask >> sh) & 1;
            proof {
                assert((mask >> sh) & 1 == 0 || (mask >> sh) & 1 == 1) by (bit_vector);
                assert((b == 1) == mask_bit(mask, i2 as int));
            }
            if b == 1 {
                let ghost r0 = r@;
                r.push(i2 as u8);
                proof {
                    lemma_count_clear_bound(mask, i2 as nat);
                    assert(r0.len() == r@.len() - 1);
                    assert(split <= r0.len());
                    assert forall|j: int| 0 <= j < split implies !mask_bit(
                        mask,
                        (#[trigger] r@[j]) as int,
                    ) by {
                        assert(r@[j] == r0[j]);
                    }
                    assert forall|j: int| split <= j < r@.len() implies mask_bit(
                        mask,
                        (#[trigger] r@[j]) as int,
                    ) && #[trigger] r@[j] < i2 + 1 by {
                        if j < r@.len() - 1 {
                            assert(r@[j] == r0[j]);
                        }
                    }
                    assert forall|j1: int, j2: int| 0 <= j1 < j2 < split implies #[trigger] r@[j1]
                        < #[trigger] r@[j2] by {
                        assert(r@[j1] == r0[j1] && r@[j2] == r0[j2]);
                    }
                    assert forall|j1: int, j2: int|
                        split <= j1 < j2 < r@.len() implies #[trigger] r@[j1]
                        < #[trigger] r@[j2] by {
                        assert(r@[j1] == r0[j1]);
                        if j2 < r@.len() - 1 {
                            assert(r@[j2] == r0[j2]);
                        }
                    }
                }
            }
            proof {
                assert(count_clear(mask, (i2 + 1) as nat) == count_clear(mask, i2 as nat)
                    + if mask_bit(mask, i2 as int) {
                    0nat
                } else {
                    1nat
                });
            }
            i2 = i2 + 1;
        }
        proof {
            assert(count_clear(mask, lanes as nat) <= lanes as nat) by {
                lemma_count_clear_bound(mask, lanes as nat);
            }
        }
        r
    }

    /// Conflict suppression: a lane survives when it carries a live probe
    /// and no earlier live lane probes the same slot, so exactly one lane
    /// per distinct slot commits in a step, the leftmost.
    pub fn conflict_detection(idx: &Vec<u64>, mask: &Vec<bool>) -> (r: Vec<bool>)
        requires
            idx@.len() == mask@.len(),
        ensures
            r@.len() == mask@.len(),
            forall|i: int|
                0 <= i < r@.len() ==> (#[trigger] r@[i] <==> (mask@[i] && forall|j: int|
                    0 <= j < i ==> !(mask@[j] && idx@[j] == idx@[i]))),
    {
        let n = idx.len();
        let mut r: Vec<bool> = Vec::new();
        let mut i: usize = 0;
        while i < n
            invariant
                n == idx@.len(),
                idx@.len() == mask@.len(),
                i <= n,
                r@.len() == i,
                forall|i2: int|
                    0 <= i2 < i ==> (#[trigger] r@[i2] <==> (mask@[i2] && forall|j: int|
                        0 <= j < i2 ==> !(mask@[j] && idx@[j] == idx@[i2]))),
            decreases n - i,
        {
            let mut live = mask[i];
            let mut j: usize = 0;
            while j < i
                invariant
                    n == idx@.len(),
                    idx@.len() == mask@.len(),
                    i < n,
                    j <= i,
                    live == (mask@[i as int] && forall|j2: int|
                        0 <= j2 < j ==> !(mask@[j2] && idx@[j2] == idx@[i as int])),
                decreases i - j,
            {
                if mask[j] && idx[j] == idx[i] {
                    live = false;
                }
                j = j + 1;
            }
            r.push(live);
            i = i + 1;
        }
        r
    }
}

proof fn lemma_count_clear_bound(mask: u8, n: nat)
    ensures
        count_clear(mask, n) <= n,
    decreases n,
{
    if n > 0 {
        lemma_count_clear_bound(mask, (n - 1) as nat);
    }
}

} // verus!
