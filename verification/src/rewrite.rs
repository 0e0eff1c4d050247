use vstd::prelude::*;

use crate::record::{models, Record, RecordModel};

verus! {

/// What the rewrite engine does to a selected record: drop it from the
/// store, or keep it with the completion flag forced to the given value.
#[derive(Clone, Copy, Debug, PartialEq, Eq, Structural)]
pub enum RowTransform {
    /// Drop the selected record; the survivors close the gap.
    Discard,
    /// Keep the selected record, text unchanged, flag set as given.
    SetDone(bool),
}

/// The set of store indexes named by a sequence of requested values.
pub open spec fn target_set(v: Seq<u32>) -> Set<int> {
    Set::new(|i: int| exists|k: int| 0 <= k < v.len() && v[k] as int == i)
}

/// What one selected record becomes under a transform: `None` drops it,
/// `Some` keeps it renumbered to `next` with the flag forced.
pub open spec fn apply_transform(t: RowTransform, next: int, r: RecordModel) -> Option<RecordModel> {
    match t {
        RowTransform::Discard => None,
        RowTransform::SetDone(d) => Some(RecordModel { index: next, action: r.action, done: d }),
    }
}

/// One pass of the selective rewrite engine over the decoded records.
///
/// A record is selected iff `all` is set, or its stored index is still
/// among the targets; a matched index is consumed, so each requested
/// index applies to at most the first record carrying it. Selected
/// records go through the transform; unselected ones pass through with
/// their content kept. Every written record takes the running counter as
/// its index, and the counter skips nothing, so the output is renumbered
/// consecutively from `next` whatever the input looked like.
pub open spec fn rewrite_spec(
    recs: Seq<RecordModel>,
    targets: Set<int>,
    all: bool,
    t: RowTransform,
    next: int,
) -> Seq<RecordModel>
    decreases recs.len(),
{
    if recs.len() == 0 {
        Seq::empty()
    } else {
        let r = recs[0];
        let rest = recs.drop_first();
        if all || targets.contains(r.index) {
            let remaining = if all {
                targets
            } else {
                targets.remove(r.index)
            };
            match apply_transform(t, next, r) {
                None => rewrite_spec(rest, remaining, all, t, next),
                Some(nr) => seq![nr] + rewrite_spec(rest, remaining, all, t, next + 1),
            }
        } else {
            seq![RecordModel { index: next, action: r.action, done: r.done }]
                + rewrite_spec(rest, targets, all, t, next + 1)
        }
    }
}

/// The records dropped on a remove pass over `s` with these targets.
pub open spec fn rm_spec(s: Seq<RecordModel>, targets: Set<int>) -> Seq<RecordModel> {
    rewrite_spec(s, targets, false, RowTransform::Discard, 1)
}

/// The records after a mark-done pass over `s`.
pub open spec fn mark_spec(s: Seq<RecordModel>, targets: Set<int>, all: bool) -> Seq<RecordModel> {
    rewrite_spec(s, targets, all, RowTransform::SetDone(true), 1)
}

/// The records after a mark-not-done pass over `s`.
pub open spec fn unmark_spec(s: Seq<RecordModel>, targets: Set<int>, all: bool) -> Seq<RecordModel> {
    rewrite_spec(s, targets, all, RowTransform::SetDone(false), 1)
}

/// The records after a reset: select everything, drop everything.
pub open spec fn reset_spec(s: Seq<RecordModel>) -> Seq<RecordModel> {
    rewrite_spec(s, Set::empty(), true, RowTransform::Discard, 1)
}

/// Tests whether `x` is one of the remaining target values and, if so,
/// consumes it: afterwards the values name the target set less `x`.
fn take_target(v: &mut Vec<u32>, x: u32) -> (found: bool)
    ensures
        found == target_set(old(v)@).contains(x as int),
        target_set(final(v)@) == target_set(old(v)@).remove(x as int),
{
    let mut out: Vec<u32> = Vec::new();
    let mut found = false;
    let mut j: usize = 0;
    while j < v.len()
        invariant
            j <= v@.len(),
            v@ == old(v)@,
            found == exists|k: int| 0 <= k < j && v@[k] == x,
            forall|m: int| 0 <= m < out@.len() ==> #[trigger] out@[m] != x,
            forall|m: int|
                0 <= m < out@.len() ==> exists|k: int| 0 <= k < j && v@[k] == #[trigger] out@[m],
            forall|k: int|
                0 <= k < j && #[trigger] v@[k] != x ==> exists|m: int|
                    0 <= m < out@.len() && out@[m] == v@[k],
        decreases v@.len() - j,
    {
        let y = v[j];
        if y == x {
            found = true;
        } else {
            let ghost prevout = out@;
            out.push(y);
            proof {
                assert forall|k: int| 0 <= k < j + 1 && #[trigger] v@[k] != x implies exists|m: int|
                    0 <= m < out@.len() && out@[m] == v@[k] by {
                    if k < j {
                        let m = choose|m: int| 0 <= m < prevout.len() && prevout[m] == v@[k];
                        assert(out@[m] == v@[k]);
                    } else {
                        assert(out@[out@.len() - 1] == v@[k]);
                    }
                }
                assert forall|m: int| 0 <= m < out@.len() implies exists|k: int|
                    0 <= k < j + 1 && v@[k] == #[trigger] out@[m] by {
                    if m < out@.len() - 1 {
                        assert(out@[m] == prevout[m]);
                        let k = choose|k: int| 0 <= k < j && v@[k] == prevout[m];
                        assert(v@[k] == out@[m]);
                    } else {
                        assert(v@[j as int] == out@[m]);
                    }
                }
            }
        }
        j = j + 1;
    }
    proof {
        assert(found == target_set(v@).contains(x as int)) by {
            if found {
                let k = choose|k: int| 0 <= k < v@.len() && v@[k] == x;
                assert(v@[k] as int == x as int);
            }
            if target_set(v@).contains(x as int) {
                let k = choose|k: int| 0 <= k < v@.len() && v@[k] as int == x as int;
                assert(v@[k] == x);
            }
        }
        assert(target_set(out@) =~= target_set(v@).remove(x as int)) by {
            assert forall|i: int| target_set(out@).contains(i) implies target_set(v@).remove(
                x as int,
            ).contains(i) by {
                let m = choose|m: int| 0 <= m < out@.len() && out@[m] as int == i;
                let k = choose|k: int| 0 <= k < v@.len() && v@[k] == out@[m];
                assert(v@[k] as int == i);
            }
            assert forall|i: int| target_set(v@).remove(x as int).contains(i) implies target_set(
                out@,
            ).contains(i) by {
                let k = choose|k: int| 0 <= k < v@.len() && v@[k] as int == i;
                assert(v@[k] != x);
                let m = choose|m: int| 0 <= m < out@.len() && out@[m] == v@[k];
                assert(out@[m] as int == i);
            }
        }
    }
    *v = out;
    found
}

/// Runs one selective rewrite pass: drops, re-flags or passes through
/// each record as the transform and the selection dictate, renumbering
/// every kept record consecutively from 1.
pub fn rewrite_records(records: &Vec<Record>, targets: Vec<u32>, all: bool, t: RowTransform) -> (out:
    Vec<Record>)
    requires
        records@.len() < u32::MAX,
    ensures
        models(out@) == rewrite_spec(models(records@), target_set(targets@), all, t, 1),
{
    let ghost goal = rewrite_spec(models(records@), target_set(targets@), all, t, 1);
    let mut remaining = targets;
    let mut out: Vec<Record> = Vec::new();
    let mut next: u32 = 1;
    let mut j: usize = 0;
    proof {
        assert(models(records@).skip(0) =~= models(records@));
        assert(models(out@) =~= Seq::<RecordModel>::empty());
        assert(models(out@) + rewrite_spec(models(records@), target_set(remaining@), all, t, 1)
            =~= rewrite_spec(models(records@), target_set(targets@), all, t, 1));
    }
    while j < records.len()
        invariant
            records@.len() < u32::MAX,
            j <= records@.len(),
            next as int == out@.len() + 1,
            out@.len() <= j,
            goal == models(out@) + rewrite_spec(
                models(records@).skip(j as int),
                target_set(remaining@),
                all,
                t,
                next as int,
            ),
            goal == rewrite_spec(models(records@), target_set(targets@), all, t, 1),
        decreases records@.len() - j,
    {
        let ghost suffix = models(records@).skip(j as int);
        let ghost pre_targets = target_set(remaining@);
        let ghost pre_out = models(out@);
        proof {
            assert(suffix.len() > 0);
            assert(suffix[0] == models(records@)[j as int]);
            assert(models(records@)[j as int] == records@[j as int]@);
            assert(suffix.drop_first() =~= models(records@).skip(j as int + 1));
        }
        let rec = &records[j];
        let selected = if all {
            true
        } else {
            take_target(&mut remaining, rec.index)
        };
        proof {
            assert(selected == (all || pre_targets.contains(suffix[0].index)));
            if !all && !selected {
                assert(target_set(remaining@) =~= pre_targets);
            }
        }
        if selected {
            match t {
                RowTransform::Discard => {
                    proof {
                        assert(pre_out + rewrite_spec(suffix, pre_targets, all, t, next as int)
                            =~= models(out@) + rewrite_spec(
                            suffix.drop_first(),
                            target_set(remaining@),
                            all,
                            t,
                            next as int,
                        ));
                    }
                },
                RowTransform::SetDone(d) => {
                    let ghost prev = out@;
                    out.push(Record { index: next, action: rec.action.clone(), done: d });
                    proof {
                        assert(models(out@) =~= models(prev).push(out@.last()@));
                        assert(apply_transform(t, next as int, suffix[0]) == Some(out@.last()@));
                        assert(pre_out + rewrite_spec(
                            suffix,
                            pre_targets,
                            all,
                            t,
                            next as int,
                        ) =~= models(out@) + rewrite_spec(
                            suffix.drop_first(),
                            target_set(remaining@),
                            all,
                            t,
                            next as int + 1,
                        ));
                    }
                    next = next + 1;
                },
            }
        } else {
            let ghost prev = out@;
            out.push(Record { index: next, action: rec.action.clone(), done: rec.done });
            proof {
                assert(models(out@) =~= models(prev).push(out@.last()@));
                assert(out@.last()@ == RecordModel {
                    index: next as int,
                    action: suffix[0].action,
                    done: suffix[0].done,
                });
                assert(pre_out + rewrite_spec(suffix, pre_targets, all, t, next as int) =~= models(
                    out@,
                ) + rewrite_spec(
                    suffix.drop_first(),
                    target_set(remaining@),
                    all,
                    t,
                    next as int + 1,
                ));
            }
            next = next + 1;
        }
        j = j + 1;
    }
    proof {
        assert(models(records@).skip(records@.len() as int) =~= Seq::<RecordModel>::empty());
        assert(goal =~= models(out@));
    }
    out
}

/// Remove: drops every record whose stored index is among the requested
/// values; the survivors keep their relative order and are renumbered
/// from 1, closing the gap.
pub fn rm_records(records: &Vec<Record>, indexes: Vec<u32>) -> (out: Vec<Record>)
    requires
        records@.len() < u32::MAX,
    ensures
        models(out@) == rm_spec(models(records@), target_set(indexes@)),
{
    rewrite_records(records, indexes, false, RowTransform::Discard)
}

/// Mark done: keeps every record, forces the flag to true on the
/// requested ones (or on all of them when `all` is set).
pub fn mark_records(records: &Vec<Record>, indexes: Vec<u32>, all: bool) -> (out: Vec<Record>)
    requires
        records@.len() < u32::MAX,
    ensures
        models(out@) == mark_spec(models(records@), target_set(indexes@), all),
{
    rewrite_records(records, indexes, all, RowTransform::SetDone(true))
}

/// Mark not done: keeps every record, forces the flag to false on the
/// requested ones (or on all of them when `all` is set).
pub fn unmark_records(records: &Vec<Record>, indexes: Vec<u32>, all: bool) -> (out: Vec<Record>)
    requires
        records@.len() < u32::MAX,
    ensures
        models(out@) == unmark_spec(models(records@), target_set(indexes@), all),
{
    rewrite_records(records, indexes, all, RowTransform::SetDone(false))
}

/// Reset: selects every record and drops it, leaving the empty store.
pub fn reset_records(records: &Vec<Record>) -> (out: Vec<Record>)
    requires
        records@.len() < u32::MAX,
    ensures
        models(out@) == reset_spec(models(records@)),
{
    let empty: Vec<u32> = Vec::new();
    proof {
        assert(target_set(empty@) =~= Set::<int>::empty());
    }
    rewrite_records(records, empty, true, RowTransform::Discard)
}

} // verus!
