//! Adapter-chain statistics.
//!
//! Each adapter has a rating; walking the ratings upward from zero, the
//! chain uses every rating in the bag, and the answer counts the gaps of
//! exactly one and exactly three between consecutive used ratings. The
//! final built-in gap of three is counted from the start.

use std::collections::HashSet;
use vstd::prelude::*;

verus! {

/// The largest rating in the bag, or zero for an empty bag.
pub open spec fn seq_max(s: Seq<u32>) -> int
    decreases s.len(),
{
    if s.len() == 0 {
        0
    } else if s.last() > seq_max(s.drop_last()) {
        s.last() as int
    } else {
        seq_max(s.drop_last())
    }
}

/// The gap tally after checking ratings `0` up to `i - 1`: gaps of one,
/// gaps of three (one for the built-in adapter), and the last rating used.
pub open spec fn spec_jumps_at(s: Seq<u32>, i: nat) -> (int, int, int)
    decreases i,
{
    if i == 0 {
        (0, 1, 0)
    } else {
        let prev = spec_jumps_at(s, (i - 1) as nat);
        let ones = prev.0;
        let threes = prev.1;
        let last = prev.2;
        let j = i - 1;
        if s.contains(j as u32) {
            if j - last == 1 {
                (ones + 1, threes, j)
            } else if j - last == 3 {
                (ones, threes + 1, j)
            } else {
                (ones, threes, j)
            }
        } else {
            (ones, threes, last)
        }
    }
}

/// The largest rating is bounded by the ratings themselves.
pub proof fn lemma_seq_max_bound(s: Seq<u32>)
    requires
        forall|k: int| 0 <= k < s.len() ==> #[trigger] s[k] <= 0xFFFFFFFD,
    ensures
        0 <= seq_max(s) <= 0xFFFFFFFD,
    decreases s.len(),
{
    if s.len() > 0 {
        lemma_seq_max_bound(s.drop_last());
    }
}

/// Counts the gaps of one and of three jolts over the whole bag.
pub fn count_jumps(joltages: &Vec<u32>) -> (r: (u32, u32))
    requires
        forall|i: int| 0 <= i < joltages@.len() ==> #[trigger] joltages@[i] <= 0xFFFFFFFD,
    ensures
        r.0 == spec_jumps_at(joltages@, (seq_max(joltages@) + 1) as nat).0,
        r.1 == spec_jumps_at(joltages@, (seq_max(joltages@) + 1) as nat).1,
{
    broadcast use vstd::std_specs::hash::group_hash_axioms;

    let ghost s = joltages@;
    let mut joltage_bag: HashSet<u32> = HashSet::new();
    let mut max_joltage: u32 = 0;
    let mut i: usize = 0;
    proof {
        assert(s.take(0) =~= Seq::<u32>::empty());
    }
    while i < joltages.len()
        invariant
            s == joltages@,
            i <= s.len(),
            forall|k: int| 0 <= k < s.len() ==> #[trigger] s[k] <= 0xFFFFFFFD,
            forall|x: u32| joltage_bag@.contains(x) <==> s.take(i as int).contains(x),
            max_joltage == seq_max(s.take(i as int)),
        decreases s.len() - i,
    {
        let joltage = joltages[i];
        joltage_bag.insert(joltage);
        if joltage > max_joltage {
            max_joltage = joltage;
        }
        proof {
            assert(s.take(i + 1).drop_last() =~= s.take(i as int));
            assert(s.take(i + 1).last() == s[i as int]);
            assert forall|x: u32| joltage_bag@.contains(x) implies s.take(i + 1).contains(x) by {
                if x == s[i as int] {
                    assert(s.take(i + 1)[i as int] == x);
                } else {
                    let k = choose|k: int| 0 <= k < i && (#[trigger] s.take(i as int)[k]) == x;
                    assert(s.take(i + 1)[k] == x);
                }
            }
            assert forall|x: u32| s.take(i + 1).contains(x) implies joltage_bag@.contains(x) by {
                let k = choose|k: int| 0 <= k < i + 1 && (#[trigger] s.take(i + 1)[k]) == x;
                if k < i {
                    assert(s.take(i as int)[k] == x);
                }
            }
        }
        i = i + 1;
    }
    proof {
        assert(s.take(s.len() as int) =~= s);
    }
    let mut num_one_jumps: u32 = 0;
    let mut num_three_jumps: u32 = 1;
    let mut prev_joltage: u32 = 0;
    let mut j: u32 = 0;
    let end = max_joltage;
    proof {
        lemma_seq_max_bound(s);
    }
    while j <= end
        invariant
            s == joltages@,
            end == seq_max(s),
            end <= 0xFFFFFFFD,
            forall|k: int| 0 <= k < s.len() ==> #[trigger] s[k] <= 0xFFFFFFFD,
            j <= end + 1,
            forall|x: u32| joltage_bag@.contains(x) <==> s.contains(x),
            (num_one_jumps as int, num_three_jumps as int, prev_joltage as int) == spec_jumps_at(
                s,
                j as nat,
            ),
            num_one_jumps <= j,
            num_three_jumps <= j + 1,
            prev_joltage <= j,
        decreases end + 1 - j,
    {
        if joltage_bag.contains(&j) {
            let diff = j - prev_joltage;
            if diff == 1 {
                num_one_jumps = num_one_jumps + 1;
            } else if diff == 3 {
                num_three_jumps = num_three_jumps + 1;
            }
            prev_joltage = j;
        }
        j = j + 1;
    }
    (num_one_jumps, num_three_jumps)
}

} // verus!
