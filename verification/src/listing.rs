//! The listing query: every persisted run, most recent first.
//!
//! The embedding program enumerates the run directories and loads each
//! configuration; this module owns the ordering rule. Runs are sorted
//! by start time, descending; runs with equal start times keep no
//! specified relative order.

use vstd::prelude::*;
use vstd::multiset::Multiset;
use crate::config::RunConfig;

verus! {

/// Sorts loaded runs by start time, most recent first. The result is a
/// permutation of the input: no run appears, vanishes, or changes.
pub fn list_runs(runs: Vec<(Vec<u8>, RunConfig)>) -> (r: Vec<(Vec<u8>, RunConfig)>)
    ensures
        r@.to_multiset() == runs@.to_multiset(),
        r@.len() == runs@.len(),
        forall|i: int, j: int| 0 <= i < j < r@.len()
            ==> (#[trigger] r@[i]).1.start_time >= (#[trigger] r@[j]).1.start_time,
{
    broadcast use vstd::seq_lib::group_to_multiset_ensures;

    let mut src = runs;
    let mut out: Vec<(Vec<u8>, RunConfig)> = Vec::new();
    proof {
        assert(out@.to_multiset().add(src@.to_multiset()) =~= runs@.to_multiset());
    }
    while src.len() > 0
        invariant
            out@.to_multiset().add(src@.to_multiset()) == runs@.to_multiset(),
            out@.len() + src@.len() == runs@.len(),
            forall|i: int, j: int| 0 <= i < j < out@.len()
                ==> (#[trigger] out@[i]).1.start_time >= (#[trigger] out@[j]).1.start_time,
            forall|i: int, j: int| 0 <= i < out@.len() && 0 <= j < src@.len()
                ==> (#[trigger] out@[i]).1.start_time >= (#[trigger] src@[j]).1.start_time,
        decreases src@.len(),
    {
        let mut m: usize = 0;
        let mut k: usize = 1;
        while k < src.len()
            invariant
                0 <= m < src@.len(),
                1 <= k <= src@.len(),
                forall|j: int| 0 <= j < k
                    ==> (#[trigger] src@[j]).1.start_time <= src@[m as int].1.start_time,
            decreases src@.len() - k,
        {
            if src[k].1.start_time > src[m].1.start_time {
                m = k;
            }
            k = k + 1;
        }
        let ghost old_out = out@;
        let ghost old_src = src@;
        let x = src.remove(m);
        out.push(x);
        proof {
            broadcast use vstd::seq_lib::group_to_multiset_ensures;

            assert(out@ == old_out.push(x));
            assert(src@ == old_src.remove(m as int));
            assert(out@.to_multiset() =~= old_out.to_multiset().insert(x));
            assert(src@.to_multiset() =~= old_src.to_multiset().remove(x));
            assert(old_src.to_multiset().count(x) >= 1) by {
                assert(old_src.contains(x));
            }
            assert(out@.to_multiset().add(src@.to_multiset())
                =~= old_out.to_multiset().add(old_src.to_multiset()));
            // every element still waiting was no younger than the one taken
            assert forall|j: int| 0 <= j < src@.len()
                implies (#[trigger] src@[j]).1.start_time <= x.1.start_time by {
                if j < m {
                    assert(src@[j] == old_src[j]);
                } else {
                    assert(src@[j] == old_src[j + 1]);
                }
            }
        }
    }
    proof {
        assert(src@ =~= Seq::<(Vec<u8>, RunConfig)>::empty());
        assert(src@.to_multiset() =~= Multiset::<(Vec<u8>, RunConfig)>::empty());
        assert(out@.to_multiset().add(src@.to_multiset()) =~= out@.to_multiset());
    }
    out
}

} // verus!
