use vstd::prelude::*;

use crate::record::{contiguous, indexed_from, RecordModel};
use crate::rewrite::{
    apply_transform, mark_spec, reset_spec, rewrite_spec, rm_spec, unmark_spec, RowTransform,
};

verus! {

/// `s` with its indexes replaced by `next, next + 1, ...`, content kept.
pub open spec fn renumber(s: Seq<RecordModel>, next: int) -> Seq<RecordModel> {
    Seq::new(
        s.len(),
        |k: int| RecordModel { index: next + k, action: s[k].action, done: s[k].done },
    )
}

/// Contiguity invariant, base case: the empty store satisfies it.
pub proof fn lemma_empty_contiguous()
    ensures
        contiguous(Seq::<RecordModel>::empty()),
{
}

/// Contiguity invariant, append step: records appended with consecutive
/// indexes starting right after a contiguous store keep it contiguous.
pub proof fn lemma_append_contiguous(s: Seq<RecordModel>, more: Seq<RecordModel>)
    requires
        contiguous(s),
        indexed_from(more, s.len() as int + 1),
    ensures
        contiguous(s + more),
{
    assert forall|k: int| 0 <= k < (s + more).len() implies (s + more)[k].index == 1 + k by {
        if k < s.len() {
            assert((s + more)[k] == s[k]);
        } else {
            assert((s + more)[k] == more[k - s.len()]);
        }
    }
}

/// The engine renumbers: whatever the input and the selection, the output
/// of one pass carries the indexes `next, next + 1, ...` in order, and is
/// no longer than the input.
pub proof fn lemma_rewrite_indexes(
    recs: Seq<RecordModel>,
    targets: Set<int>,
    all: bool,
    t: RowTransform,
    next: int,
)
    ensures
        rewrite_spec(recs, targets, all, t, next).len() <= recs.len(),
        indexed_from(rewrite_spec(recs, targets, all, t, next), next),
    decreases recs.len(),
{
    if recs.len() > 0 {
        let r = recs[0];
        let rest = recs.drop_first();
        let out = rewrite_spec(recs, targets, all, t, next);
        if all || targets.contains(r.index) {
            let remaining = if all {
                targets
            } else {
                targets.remove(r.index)
            };
            match apply_transform(t, next, r) {
                None => {
                    lemma_rewrite_indexes(rest, remaining, all, t, next);
                },
                Some(nr) => {
                    lemma_rewrite_indexes(rest, remaining, all, t, next + 1);
                    let tail = rewrite_spec(rest, remaining, all, t, next + 1);
                    assert forall|k: int| 0 <= k < out.len() implies out[k].index == next + k by {
                        if k > 0 {
                            assert(out[k] == tail[k - 1]);
                        }
                    }
                },
            }
        } else {
            lemma_rewrite_indexes(rest, targets, all, t, next + 1);
            let tail = rewrite_spec(rest, targets, all, t, next + 1);
            assert forall|k: int| 0 <= k < out.len() implies out[k].index == next + k by {
                if k > 0 {
                    assert(out[k] == tail[k - 1]);
                }
            }
        }
    }
}

/// Contiguity invariant, rewrite step: every selective-rewrite pass —
/// remove, mark, unmark, reset — re-establishes the invariant, whatever
/// the input records carried.
pub proof fn lemma_rewrite_contiguous(
    recs: Seq<RecordModel>,
    targets: Set<int>,
    all: bool,
    t: RowTransform,
)
    ensures
        contiguous(rewrite_spec(recs, targets, all, t, 1)),
{
    lemma_rewrite_indexes(recs, targets, all, t, 1);
}

/// A pass that selects nothing — `all` unset and no requested index
/// present in the store — only renumbers the records.
pub proof fn lemma_rewrite_unselected(
    recs: Seq<RecordModel>,
    targets: Set<int>,
    t: RowTransform,
    next: int,
)
    requires
        forall|k: int| 0 <= k < recs.len() ==> !targets.contains(#[trigger] recs[k].index),
    ensures
        rewrite_spec(recs, targets, false, t, next) == renumber(recs, next),
    decreases recs.len(),
{
    if recs.len() == 0 {
        assert(rewrite_spec(recs, targets, false, t, next) =~= renumber(recs, next));
    } else {
        let rest = recs.drop_first();
        assert(!targets.contains(recs[0].index));
        assert forall|k: int|
            0 <= k < rest.len() implies !targets.contains(#[trigger] rest[k].index) by {
            assert(rest[k] == recs[k + 1]);
        }
        lemma_rewrite_unselected(rest, targets, t, next + 1);
        assert(rewrite_spec(recs, targets, false, t, next) =~= renumber(recs, next)) by {
            let out = rewrite_spec(recs, targets, false, t, next);
            let tail = renumber(rest, next + 1);
            assert forall|k: int| 0 <= k < out.len() implies out[k] == renumber(recs, next)[k] by {
                if k > 0 {
                    assert(out[k] == tail[k - 1]);
                    assert(rest[k - 1] == recs[k]);
                }
            }
        }
    }
}

/// Renumbering from where the indexes already stand is the identity.
pub proof fn lemma_renumber_identity(s: Seq<RecordModel>, m: int)
    requires
        indexed_from(s, m),
    ensures
        renumber(s, m) == s,
{
    assert(renumber(s, m) =~= s);
}

/// Unknown-index no-op: when none of the requested indexes occurs in a
/// store satisfying the contiguity invariant, remove, mark and unmark
/// all leave the store exactly as it was.
pub proof fn lemma_unknown_targets_noop(s: Seq<RecordModel>, targets: Set<int>)
    requires
        contiguous(s),
        forall|i: int| #[trigger] targets.contains(i) ==> !(1 <= i <= s.len()),
    ensures
        rm_spec(s, targets) == s,
        mark_spec(s, targets, false) == s,
        unmark_spec(s, targets, false) == s,
{
    assert forall|k: int|
        0 <= k < s.len() implies !targets.contains(#[trigger] s[k].index) by {
        assert(s[k].index == k + 1);
    }
    lemma_rewrite_unselected(s, targets, RowTransform::Discard, 1);
    lemma_rewrite_unselected(s, targets, RowTransform::SetDone(true), 1);
    lemma_rewrite_unselected(s, targets, RowTransform::SetDone(false), 1);
    lemma_renumber_identity(s, 1);
}

/// Selecting everything and discarding leaves nothing, from any counter.
proof fn lemma_discard_all(s: Seq<RecordModel>, targets: Set<int>, next: int)
    ensures
        rewrite_spec(s, targets, true, RowTransform::Discard, next)
            == Seq::<RecordModel>::empty(),
    decreases s.len(),
{
    if s.len() > 0 {
        lemma_discard_all(s.drop_first(), targets, next);
    }
}

/// Reset idempotence: reset terminates in the empty store — on an empty
/// store and on a non-empty one alike — and resetting twice is the same
/// as resetting once.
pub proof fn lemma_reset_empty(s: Seq<RecordModel>)
    ensures
        reset_spec(s) == Seq::<RecordModel>::empty(),
        reset_spec(reset_spec(s)) == reset_spec(s),
{
    lemma_discard_all(s, Set::empty(), 1);
    lemma_discard_all(reset_spec(s), Set::empty(), 1);
}

/// Consuming a target index that no record carries does not change the
/// pass.
proof fn lemma_remove_absent_target(
    recs: Seq<RecordModel>,
    targets: Set<int>,
    all: bool,
    t: RowTransform,
    next: int,
    i: int,
)
    requires
        forall|k: int| 0 <= k < recs.len() ==> (#[trigger] recs[k].index) != i,
    ensures
        rewrite_spec(recs, targets.remove(i), all, t, next) == rewrite_spec(
            recs,
            targets,
            all,
            t,
            next,
        ),
    decreases recs.len(),
{
    if recs.len() > 0 {
        let r = recs[0];
        let rest = recs.drop_first();
        assert(r.index != i);
        assert forall|k: int| 0 <= k < rest.len() implies (#[trigger] rest[k].index) != i by {
            assert(rest[k] == recs[k + 1]);
        }
        if all || targets.contains(r.index) {
            if all {
                lemma_remove_absent_target(rest, targets, all, t, next, i);
                lemma_remove_absent_target(rest, targets, all, t, next + 1, i);
            } else {
                assert(targets.remove(i).remove(r.index) =~= targets.remove(r.index).remove(i));
                lemma_remove_absent_target(rest, targets.remove(r.index), all, t, next, i);
                lemma_remove_absent_target(rest, targets.remove(r.index), all, t, next + 1, i);
            }
        } else {
            lemma_remove_absent_target(rest, targets, all, t, next + 1, i);
        }
    }
}

/// What a mark or unmark pass does, record by record, on a store whose
/// indexes run consecutively from `m`: every record is kept in order,
/// renumbered from `next`, the text untouched, and the flag forced to
/// `d` exactly on the selected records.
pub proof fn lemma_setdone_form(
    recs: Seq<RecordModel>,
    targets: Set<int>,
    all: bool,
    d: bool,
    m: int,
    next: int,
)
    requires
        indexed_from(recs, m),
    ensures
        rewrite_spec(recs, targets, all, RowTransform::SetDone(d), next).len() == recs.len(),
        forall|k: int|
            0 <= k < recs.len() ==> rewrite_spec(recs, targets, all, RowTransform::SetDone(d), next)[k]
                == (RecordModel {
                index: next + k,
                action: recs[k].action,
                done: if all || targets.contains(recs[k].index) {
                    d
                } else {
                    recs[k].done
                },
            }),
    decreases recs.len(),
{
    if recs.len() > 0 {
        let r = recs[0];
        let rest = recs.drop_first();
        let out = rewrite_spec(recs, targets, all, RowTransform::SetDone(d), next);
        assert forall|k: int| 0 <= k < rest.len() implies #[trigger] rest[k].index == (m + 1)
            + k by {
            assert(rest[k] == recs[k + 1]);
        }
        if !all && targets.contains(r.index) {
            assert forall|k: int| 0 <= k < rest.len() implies (#[trigger] rest[k].index) != m by {
                assert(rest[k].index == m + 1 + k);
            }
            lemma_remove_absent_target(
                rest,
                targets,
                all,
                RowTransform::SetDone(d),
                next + 1,
                r.index,
            );
        }
        lemma_setdone_form(rest, targets, all, d, m + 1, next + 1);
        let tail = rewrite_spec(rest, targets, all, RowTransform::SetDone(d), next + 1);
        assert forall|k: int| 0 <= k < recs.len() implies out[k] == RecordModel {
            index: next + k,
            action: recs[k].action,
            done: if all || targets.contains(recs[k].index) {
                d
            } else {
                recs[k].done
            },
        } by {
            if k > 0 {
                assert(out[k] == tail[k - 1]);
                assert(rest[k - 1] == recs[k]);
            }
        }
    }
}

/// Mark idempotence: on a store satisfying the contiguity invariant,
/// marking what a mark pass produced — records already done — changes
/// nothing; likewise for unmark after unmark.
pub proof fn lemma_setdone_idempotent(s: Seq<RecordModel>, targets: Set<int>, all: bool)
    requires
        contiguous(s),
    ensures
        mark_spec(mark_spec(s, targets, all), targets, all) == mark_spec(s, targets, all),
        unmark_spec(unmark_spec(s, targets, all), targets, all) == unmark_spec(s, targets, all),
{
    lemma_setdone_form(s, targets, all, true, 1, 1);
    lemma_setdone_form(s, targets, all, false, 1, 1);
    let marked = mark_spec(s, targets, all);
    let unmarked = unmark_spec(s, targets, all);
    lemma_setdone_form(marked, targets, all, true, 1, 1);
    lemma_setdone_form(unmarked, targets, all, false, 1, 1);
    assert(mark_spec(marked, targets, all) =~= marked);
    assert(unmark_spec(unmarked, targets, all) =~= unmarked);
}

/// Marking records that are already done changes nothing at all: on a
/// store satisfying the contiguity invariant in which every selected
/// record has its flag set, a mark pass returns the store unchanged.
pub proof fn lemma_mark_already_done(s: Seq<RecordModel>, targets: Set<int>, all: bool)
    requires
        contiguous(s),
        forall|k: int|
            0 <= k < s.len() && (all || targets.contains(#[trigger] s[k].index)) ==> s[k].done,
    ensures
        mark_spec(s, targets, all) == s,
{
    lemma_setdone_form(s, targets, all, true, 1, 1);
    assert(mark_spec(s, targets, all) =~= s);
}

/// Undo inverts done on the flag alone: after a mark pass, an unmark
/// pass over the same selection yields exactly what it yields on the
/// original store — text and relative order preserved throughout — and
/// when the selected records started out not done, that is the original
/// store itself.
pub proof fn lemma_unmark_inverts_mark(s: Seq<RecordModel>, targets: Set<int>, all: bool)
    requires
        contiguous(s),
    ensures
        unmark_spec(mark_spec(s, targets, all), targets, all) == unmark_spec(s, targets, all),
        (forall|k: int|
            0 <= k < s.len() && (all || targets.contains(#[trigger] s[k].index)) ==> !s[k].done)
            ==> unmark_spec(mark_spec(s, targets, all), targets, all) == s,
{
    lemma_setdone_form(s, targets, all, true, 1, 1);
    lemma_setdone_form(s, targets, all, false, 1, 1);
    let marked = mark_spec(s, targets, all);
    lemma_setdone_form(marked, targets, all, false, 1, 1);
    assert(unmark_spec(marked, targets, all) =~= unmark_spec(s, targets, all));
    if forall|k: int|
        0 <= k < s.len() && (all || targets.contains(#[trigger] s[k].index)) ==> !s[k].done {
        assert(unmark_spec(s, targets, all) =~= s);
    }
}

/// Removing a single requested index from a store whose indexes run
/// consecutively from `m`: exactly the record carrying it is dropped,
/// and the survivors are renumbered from `next` in their old order.
proof fn lemma_rm_one_general(s: Seq<RecordModel>, m: int, i: int, next: int)
    requires
        indexed_from(s, m),
        m <= i < m + s.len(),
    ensures
        rewrite_spec(s, set![i], false, RowTransform::Discard, next) == renumber(
            s.remove(i - m),
            next,
        ),
    decreases s.len(),
{
    let r = s[0];
    let rest = s.drop_first();
    assert forall|k: int| 0 <= k < rest.len() implies #[trigger] rest[k].index == (m + 1) + k by {
        assert(rest[k] == s[k + 1]);
    }
    if i == m {
        assert(set![i].contains(r.index));
        assert forall|k: int|
            0 <= k < rest.len() implies !set![i].remove(i).contains(
            #[trigger] rest[k].index,
        ) by {}
        lemma_rewrite_unselected(rest, set![i].remove(i), RowTransform::Discard, next);
        assert(s.remove(0) =~= rest);
    } else {
        assert(!set![i].contains(r.index));
        lemma_rm_one_general(rest, m + 1, i, next + 1);
        let out = rewrite_spec(s, set![i], false, RowTransform::Discard, next);
        let tail = renumber(rest.remove(i - m - 1), next + 1);
        assert(out =~= renumber(s.remove(i - m), next)) by {
            s.remove_ensures(i - m);
            rest.remove_ensures(i - m - 1);
            assert forall|k: int|
                0 <= k < out.len() implies out[k] == renumber(s.remove(i - m), next)[k] by {
                if k > 0 {
                    assert(out[k] == tail[k - 1]);
                    if k - 1 < i - m - 1 {
                        assert(rest.remove(i - m - 1)[k - 1] == rest[k - 1]);
                        assert(rest[k - 1] == s[k]);
                        assert(s.remove(i - m)[k] == s[k]);
                    } else {
                        assert(rest.remove(i - m - 1)[k - 1] == rest[k]);
                        assert(rest[k] == s[k + 1]);
                        assert(s.remove(i - m)[k] == s[k + 1]);
                    }
                } else {
                    assert(s.remove(i - m)[0] == s[0]);
                }
            }
        }
    }
}

/// Remove closes gaps: removing requested index `i` from a store of size
/// N satisfying the contiguity invariant yields a store of size N - 1;
/// the survivors keep their relative order, text and flag, and are
/// renumbered 1..=N-1.
pub proof fn lemma_rm_closes_gap(s: Seq<RecordModel>, i: int)
    requires
        contiguous(s),
        1 <= i <= s.len(),
    ensures
        rm_spec(s, set![i]).len() == s.len() - 1,
        forall|k: int|
            0 <= k < s.len() - 1 ==> rm_spec(s, set![i])[k] == (RecordModel {
                index: k + 1,
                action: (if k < i - 1 {
                    s[k]
                } else {
                    s[k + 1]
                }).action,
                done: (if k < i - 1 {
                    s[k]
                } else {
                    s[k + 1]
                }).done,
            }),
{
    lemma_rm_one_general(s, 1, i, 1);
    s.remove_ensures(i - 1);
    assert forall|k: int| 0 <= k < s.len() - 1 implies rm_spec(s, set![i])[k] == RecordModel {
        index: k + 1,
        action: (if k < i - 1 {
            s[k]
        } else {
            s[k + 1]
        }).action,
        done: (if k < i - 1 {
            s[k]
        } else {
            s[k + 1]
        }).done,
    } by {
        assert(rm_spec(s, set![i])[k] == renumber(s.remove(i - 1), 1)[k]);
        if k < i - 1 {
            assert(s.remove(i - 1)[k] == s[k]);
        } else {
            assert(s.remove(i - 1)[k] == s[k + 1]);
        }
    }
}

} // verus!
