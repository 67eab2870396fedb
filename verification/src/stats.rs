//! Ranking of latency samples: the percentile pick among sorted
//! samples. Aggregation around it (collecting, sorting, printing) is
//! plain I/O glue and lives with the caller.

use vstd::prelude::*;

verus! {

/// The index of the `pct`-th percentile among `len` sorted samples:
/// the nearest rank, rounding half up, clamped to the last sample.
pub open spec fn percentile_index(len: int, pct: int) -> int {
    let raw = (pct * (len - 1) + 50) / 100;
    if raw > len - 1 {
        len - 1
    } else {
        raw
    }
}

/// The `pct`-th percentile of an ascending-sorted sample list: the
/// sample at the nearest rank; zero when there are no samples.
pub fn percentile(sorted: &Vec<i64>, pct: u64) -> (r: i64)
    requires
        pct <= 100,
    ensures
        sorted@.len() == 0 ==> r == 0,
        sorted@.len() > 0 ==> 0 <= percentile_index(sorted@.len() as int, pct as int)
            < sorted@.len() && r == sorted@[percentile_index(sorted@.len() as int, pct as int)],
{
    let len = sorted.len();
    if len == 0 {
        return 0;
    }
    proof {
        assert(0 <= pct as int * ((len - 1) as int) <= 100 * ((len - 1) as int))
            by (nonlinear_arith)
            requires
                0 <= pct as int <= 100,
                (len - 1) as int >= 0,
        ;
    }
    let mut pos: u128 = (pct as u128 * ((len - 1) as u128) + 50) / 100;
    if pos > (len - 1) as u128 {
        pos = (len - 1) as u128;
    }
    let idx = pos as usize;
    sorted[idx]
}

} // verus!
