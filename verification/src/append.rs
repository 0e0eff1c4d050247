use vstd::prelude::*;

use crate::record::{models, Record};

verus! {

/// Builds the records that an append adds to the store: one record per
/// task text, all not done, indexes assigned consecutively in input order
/// starting at `start` (the next free index the integrity check returned).
pub fn make_new_records(actions: &Vec<String>, start: u32) -> (out: Vec<Record>)
    requires
        1 <= start,
        start + actions@.len() <= u32::MAX,
    ensures
        out@.len() == actions@.len(),
        forall|k: int| 0 <= k < out@.len() ==> {
            &&& #[trigger] models(out@)[k].index == start + k
            &&& models(out@)[k].action == actions@[k]@
            &&& !models(out@)[k].done
        },
{
    let mut out: Vec<Record> = Vec::new();
    let mut last: u32 = start;
    let mut j: usize = 0;
    while j < actions.len()
        invariant
            start + actions@.len() <= u32::MAX,
            j <= actions@.len(),
            last as int == start + j,
            out@.len() == j,
            forall|k: int| 0 <= k < j ==> {
                &&& #[trigger] models(out@)[k].index == start + k
                &&& models(out@)[k].action == actions@[k]@
                &&& !models(out@)[k].done
            },
        decreases actions@.len() - j,
    {
        let ghost prev = out@;
        out.push(Record { index: last, action: actions[j].clone(), done: false });
        last = last + 1;
        j = j + 1;
        proof {
            assert forall|k: int| 0 <= k < j implies {
                &&& (#[trigger] models(out@)[k]).index == start + k
                &&& models(out@)[k].action == actions@[k]@
                &&& !models(out@)[k].done
            } by {
                assert(models(out@)[k] == out@[k]@);
                if k < j - 1 {
                    assert(models(prev)[k] == prev[k]@);
                    assert(out@[k] == prev[k]);
                }
            }
        }
    }
    out
}

} // verus!
