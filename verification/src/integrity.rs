use vstd::prelude::*;

use crate::record::{contiguous, models, Record, StoreError};

verus! {

/// Walks the records in file order, checking that the stored indexes form
/// exactly the sequence 1..=N. On success returns the next free index
/// (N + 1), which the append operation uses to assign new indexes without
/// a second scan. On the first mismatch, fails with the integrity error.
pub fn check_records(records: &Vec<Record>) -> (r: Result<u32, StoreError>)
    requires
        records@.len() < u32::MAX,
    ensures
        match r {
            Ok(next) => contiguous(models(records@)) && next as int == records@.len() + 1,
            Err(e) => !contiguous(models(records@)) && e == StoreError::IndexIntegrity,
        },
{
    let mut expected: u32 = 1;
    let mut j: usize = 0;
    while j < records.len()
        invariant
            records@.len() < u32::MAX,
            j <= records@.len(),
            expected as int == j + 1,
            forall|k: int| 0 <= k < j ==> models(records@)[k].index == k + 1,
        decreases records@.len() - j,
    {
        if records[j].index != expected {
            assert(models(records@)[j as int].index != j + 1);
            return Err(StoreError::IndexIntegrity);
        }
        assert(models(records@)[j as int].index == j + 1);
        expected = expected + 1;
        j = j + 1;
    }
    Ok(expected)
}

} // verus!
