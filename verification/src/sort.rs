//! Sorting records by path.
//!
//! The sort is a merge sort. It is stable: records with the same path leave
//! in the order in which they came.

use vstd::prelude::*;
use crate::fs::FileInfo;
use crate::path::precedes;
use crate::path::lemma_precedes_irreflexive;
use crate::path::lemma_precedes_transitive;
use crate::path::lemma_precedes_total;
use crate::path::lemma_not_after_transitive;

verus! {

/// `a` may stand in front of `b` in a snapshot: its path is not after `b`'s.
pub open spec fn not_after(a: FileInfo, b: FileInfo) -> bool {
    !precedes(b.key(), a.key())
}

/// The records stand in ascending order of their paths. Records with the
/// same path may stand side by side.
pub open spec fn sorted_by_path(s: Seq<FileInfo>) -> bool {
    forall|i: int, j: int| 0 <= i < j < s.len() ==> not_after(#[trigger] s[i], #[trigger] s[j])
}

/// The records stand in ascending order of their paths and no path occurs
/// twice.
pub open spec fn strictly_sorted_by_path(s: Seq<FileInfo>) -> bool {
    forall|i: int, j: int|
        0 <= i < j < s.len() ==> precedes((#[trigger] s[i]).key(), (#[trigger] s[j]).key())
}

/// No two records have the same path.
pub open spec fn distinct_paths(s: Seq<FileInfo>) -> bool {
    forall|i: int, j: int| 0 <= i < j < s.len() ==> (#[trigger] s[i]).key() != (#[trigger] s[j]).key()
}

/// The records of `s` whose path is `key`, in the order in which they stand
/// in `s`.
pub open spec fn at_path(s: Seq<FileInfo>, key: Seq<u8>) -> Seq<FileInfo>
    decreases s.len(),
{
    if s.len() == 0 {
        Seq::empty()
    } else if s.last().key() == key {
        at_path(s.drop_last(), key).push(s.last())
    } else {
        at_path(s.drop_last(), key)
    }
}

/// The record at index `at` is the only one of `s` with its path.
pub open spec fn stands_alone(s: Seq<FileInfo>, at: int) -> bool {
    forall|j: int| 0 <= j < s.len() && j != at ==> (#[trigger] s[j]).key() != s[at].key()
}

/// The records of `s` whose path is `key`, last one first.
spec fn at_path_reversed(s: Seq<FileInfo>, key: Seq<u8>) -> Seq<FileInfo>
    decreases s.len(),
{
    if s.len() == 0 {
        Seq::empty()
    } else if s.last().key() == key {
        seq![s.last()] + at_path_reversed(s.drop_last(), key)
    } else {
        at_path_reversed(s.drop_last(), key)
    }
}

spec fn descending(s: Seq<FileInfo>) -> bool {
    forall|i: int, j: int| 0 <= i < j < s.len() ==> not_after(#[trigger] s[j], #[trigger] s[i])
}

spec fn all_not_after(low: Seq<FileInfo>, high: Seq<FileInfo>) -> bool {
    forall|i: int, j: int|
        0 <= i < low.len() && 0 <= j < high.len() ==> not_after(#[trigger] low[i], #[trigger] high[j])
}

/// What `at_path` holds after one more record.
pub proof fn lemma_at_path_push(s: Seq<FileInfo>, record: FileInfo, key: Seq<u8>)
    ensures
        at_path(s.push(record), key) == if record.key() == key {
            at_path(s, key).push(record)
        } else {
            at_path(s, key)
        },
{
    assert(s.push(record).drop_last() =~= s);
}

proof fn lemma_at_path_reversed_push(s: Seq<FileInfo>, record: FileInfo, key: Seq<u8>)
    ensures
        at_path_reversed(s.push(record), key) == if record.key() == key {
            seq![record] + at_path_reversed(s, key)
        } else {
            at_path_reversed(s, key)
        },
{
    assert(s.push(record).drop_last() =~= s);
}

/// The records at a path in two sequences laid end to end are those of the
/// first followed by those of the second.
pub proof fn lemma_at_path_concat(a: Seq<FileInfo>, b: Seq<FileInfo>, key: Seq<u8>)
    ensures
        at_path(a + b, key) == at_path(a, key) + at_path(b, key),
    decreases b.len(),
{
    if b.len() == 0 {
        assert(a + b =~= a);
        assert(at_path(a, key) + at_path(b, key) =~= at_path(a, key));
    } else {
        lemma_at_path_concat(a, b.drop_last(), key);
        assert((a + b).drop_last() =~= a + b.drop_last());
        assert((a + b).last() == b.last());
        assert(at_path(a + b, key) =~= at_path(a, key) + at_path(b, key));
    }
}

/// Every record that `at_path` gives stands in `s` and has the path asked for.
pub proof fn lemma_at_path_members(s: Seq<FileInfo>, key: Seq<u8>)
    ensures
        at_path(s, key).len() <= s.len(),
        forall|k: int|
            0 <= k < at_path(s, key).len() ==> (#[trigger] at_path(s, key)[k]).key() == key
                && s.contains(at_path(s, key)[k]),
    decreases s.len(),
{
    if s.len() > 0 {
        let front = s.drop_last();
        lemma_at_path_members(front, key);
        assert forall|k: int| 0 <= k < at_path(s, key).len() implies (#[trigger] at_path(
            s,
            key,
        )[k]).key() == key && s.contains(at_path(s, key)[k]) by {
            let record = at_path(s, key)[k];
            if k < at_path(front, key).len() {
                assert(record == at_path(front, key)[k]);
                assert(front.contains(record));
                let at = choose|at: int| 0 <= at < front.len() && front[at] == record;
                assert(s[at] == record);
            } else {
                assert(record == s.last());
                assert(s[s.len() - 1] == record);
            }
        }
    }
}

/// A sequence in which no record has the path `key` holds none at that path.
pub proof fn lemma_at_path_absent(s: Seq<FileInfo>, key: Seq<u8>)
    requires
        forall|i: int| 0 <= i < s.len() ==> (#[trigger] s[i]).key() != key,
    ensures
        at_path(s, key) == Seq::<FileInfo>::empty(),
    decreases s.len(),
{
    if s.len() > 0 {
        let front = s.drop_last();
        assert forall|i: int| 0 <= i < front.len() implies (#[trigger] front[i]).key() != key by {
            assert(front[i] == s[i]);
        }
        lemma_at_path_absent(front, key);
    }
}

/// A record whose path no other record of the sequence has is the only
/// record at its path.
pub proof fn lemma_at_path_single(s: Seq<FileInfo>, at: int)
    requires
        0 <= at < s.len(),
        stands_alone(s, at),
    ensures
        at_path(s, s[at].key()) == seq![s[at]],
    decreases s.len(),
{
    let key = s[at].key();
    let front = s.drop_last();
    if at == s.len() - 1 {
        assert forall|j: int| 0 <= j < front.len() implies (#[trigger] front[j]).key() != key by {
            assert(front[j] == s[j]);
        }
        lemma_at_path_absent(front, key);
        assert(at_path(s, key) =~= seq![s[at]]);
    } else {
        assert(front[at] == s[at]);
        assert forall|j: int| 0 <= j < front.len() && j != at implies (#[trigger] front[j]).key()
            != front[at].key() by {
            assert(front[j] == s[j]);
        }
        lemma_at_path_single(front, at);
        assert(s[s.len() - 1].key() != key);
    }
}

/// In a sorted sequence without a path that occurs twice every record
/// comes strictly before those behind it, and the other way round.
pub proof fn lemma_strictly_sorted(s: Seq<FileInfo>)
    requires
        sorted_by_path(s),
    ensures
        strictly_sorted_by_path(s) <==> distinct_paths(s),
{
    if distinct_paths(s) {
        assert forall|i: int, j: int| 0 <= i < j < s.len() implies precedes(
            (#[trigger] s[i]).key(),
            (#[trigger] s[j]).key(),
        ) by {
            assert(not_after(s[i], s[j]));
            lemma_precedes_total(s[i].key(), s[j].key());
        }
    }
    if strictly_sorted_by_path(s) {
        assert forall|i: int, j: int| 0 <= i < j < s.len() implies (#[trigger] s[i]).key() != (
        #[trigger] s[j]).key() by {
            lemma_precedes_irreflexive(s[i].key());
        }
    }
}

/// Whether `snapshot` is `gathered` put in order: it is sorted by path and
/// holds at every path the records that `gathered` holds there, in the same
/// order.
pub open spec fn is_snapshot_of(snapshot: Seq<FileInfo>, gathered: Seq<FileInfo>) -> bool {
    &&& sorted_by_path(snapshot)
    &&& snapshot.len() == gathered.len()
    &&& forall|key: Seq<u8>| #[trigger] at_path(snapshot, key) == at_path(gathered, key)
}

/// The snapshot of the records `gathered`: the same records, sorted by path.
pub open spec fn snapshot_of(gathered: Seq<FileInfo>) -> Seq<FileInfo> {
    choose|snapshot: Seq<FileInfo>| is_snapshot_of(snapshot, gathered)
}

/// Every record of a sequence is among the records at its own path.
pub proof fn lemma_at_path_holds(s: Seq<FileInfo>, at: int)
    requires
        0 <= at < s.len(),
    ensures
        at_path(s, s[at].key()).contains(s[at]),
    decreases s.len(),
{
    let key = s[at].key();
    let front = s.drop_last();
    if at == s.len() - 1 {
        let found = at_path(s, key);
        assert(found == at_path(front, key).push(s[at]));
        assert(found[found.len() - 1] == s[at]);
    } else {
        assert(front[at] == s[at]);
        lemma_at_path_holds(front, at);
        let inner = at_path(front, key);
        let k = choose|k: int| 0 <= k < inner.len() && inner[k] == s[at];
        assert(at_path(s, key)[k] == s[at]);
    }
}

/// Records can be put in order in one way only: two snapshots of the same
/// records are the same.
pub proof fn lemma_snapshot_unique(a: Seq<FileInfo>, b: Seq<FileInfo>, gathered: Seq<FileInfo>)
    requires
        is_snapshot_of(a, gathered),
        is_snapshot_of(b, gathered),
    ensures
        a == b,
    decreases a.len(),
{
    if a.len() == 0 {
        assert(a =~= b);
    } else {
        let last = a.len() - 1;
        let key = a[last].key();
        let other = b[last].key();
        // The last record of `b` has the path of the last record of `a`:
        // each snapshot holds a record at the last path of the other, and
        // none of its records comes after its last.
        lemma_at_path_holds(a, last);
        lemma_at_path_holds(b, last);
        assert(at_path(a, key) == at_path(b, key));
        assert(at_path(a, other) == at_path(b, other));
        lemma_at_path_members(a, other);
        lemma_at_path_members(b, key);
        let in_a = choose|k: int| 0 <= k < at_path(a, other).len() && at_path(a, other)[k] == b[last];
        assert(a.contains(at_path(a, other)[in_a]));
        let i = choose|i: int| 0 <= i < a.len() && a[i] == b[last];
        let in_b = choose|k: int| 0 <= k < at_path(b, key).len() && at_path(b, key)[k] == a[last];
        assert(b.contains(at_path(b, key)[in_b]));
        let j = choose|j: int| 0 <= j < b.len() && b[j] == a[last];
        assert(!precedes(key, other)) by {
            if i < last {
                assert(not_after(a[i], a[last]));
            } else {
                lemma_precedes_irreflexive(key);
            }
        }
        assert(!precedes(other, key)) by {
            if j < last {
                assert(not_after(b[j], b[last]));
            } else {
                lemma_precedes_irreflexive(other);
            }
        }
        lemma_precedes_total(key, other);
        assert(key == other);
        // So the two end with the same record, and what stands in front
        // of it is a snapshot of the same records again.
        assert(at_path(a, key).last() == a[last]);
        assert(at_path(b, key).last() == b[last]);
        assert(a[last] == b[last]);
        let front_a = a.drop_last();
        let front_b = b.drop_last();
        assert forall|i: int, j: int| 0 <= i < j < front_a.len() implies not_after(
            #[trigger] front_a[i],
            #[trigger] front_a[j],
        ) by {
            assert(not_after(a[i], a[j]));
        }
        assert forall|i: int, j: int| 0 <= i < j < front_b.len() implies not_after(
            #[trigger] front_b[i],
            #[trigger] front_b[j],
        ) by {
            assert(not_after(b[i], b[j]));
        }
        assert forall|any: Seq<u8>| #[trigger] at_path(front_a, any) == at_path(front_b, any) by {
            assert(at_path(a, any) == at_path(b, any));
            if any == key {
                assert(at_path(front_a, any) =~= at_path(a, any).drop_last());
                assert(at_path(front_b, any) =~= at_path(b, any).drop_last());
            }
        }
        lemma_snapshot_unique(front_a, front_b, front_b);
        assert(a =~= front_a.push(a[last]));
        assert(b =~= front_b.push(b[last]));
    }
}

/// Merges two sorted runs into one. Where a path occurs in both, the
/// records of `left` come first.
fn merge(left: Vec<FileInfo>, right: Vec<FileInfo>) -> (merged: Vec<FileInfo>)
    requires
        sorted_by_path(left@),
        sorted_by_path(right@),
    ensures
        sorted_by_path(merged@),
        merged@.len() == left@.len() + right@.len(),
        forall|key: Seq<u8>| #[trigger]
            at_path(merged@, key) == at_path(left@, key) + at_path(right@, key),
{
    let mut left = left;
    let mut right = right;
    let ghost left_run = left@;
    let ghost right_run = right@;
    // The largest record left in either run goes first, so `stack` fills in
    // descending order.
    let mut stack: Vec<FileInfo> = Vec::new();
    assert forall|key: Seq<u8>| at_path(left_run, key) + at_path(right_run, key) == at_path(
        left@,
        key,
    ) + at_path(right@, key) + #[trigger] at_path_reversed(stack@, key) by {
        assert(at_path(left@, key) + at_path(right@, key) + at_path_reversed(stack@, key) =~= at_path(
            left@,
            key,
        ) + at_path(right@, key));
    }
    while left.len() > 0 || right.len() > 0
        invariant
            sorted_by_path(left@),
            sorted_by_path(right@),
            descending(stack@),
            all_not_after(left@, stack@),
            all_not_after(right@, stack@),
            stack@.len() + left@.len() + right@.len() == left_run.len() + right_run.len(),
            forall|key: Seq<u8>|
                at_path(left_run, key) + at_path(right_run, key) == at_path(left@, key) + at_path(
                    right@,
                    key,
                ) + #[trigger] at_path_reversed(stack@, key),
        decreases left@.len() + right@.len(),
    {
        let ghost left_before = left@;
        let ghost right_before = right@;
        let ghost stack_before = stack@;
        let from_left = if right.len() == 0 {
            true
        } else if left.len() == 0 {
            false
        } else {
            right[right.len() - 1].comes_before(&left[left.len() - 1])
        };
        if from_left {
            let popped = left.pop();
            if let Some(record) = popped {
                stack.push(record);
                proof {
                    assert(left_before =~= left@.push(record));
                    assert forall|j: int| 0 <= j < right@.len() implies precedes(
                        (#[trigger] right@[j]).key(),
                        record.key(),
                    ) by {
                        let last = right@.len() - 1;
                        assert(precedes(right@[last].key(), record.key()));
                        if j < last {
                            assert(not_after(right@[j], right@[last]));
                            lemma_precedes_total(right@[j].key(), right@[last].key());
                            if right@[j].key() != right@[last].key() {
                                lemma_precedes_transitive(
                                    right@[j].key(),
                                    right@[last].key(),
                                    record.key(),
                                );
                            }
                        }
                    }
                    assert forall|j: int| 0 <= j < right@.len() implies (#[trigger] right@[j]).key()
                        != record.key() by {
                        assert(precedes(right@[j].key(), record.key()));
                        lemma_precedes_irreflexive(record.key());
                    }
                    lemma_at_path_absent(right@, record.key());
                    assert forall|key: Seq<u8>| at_path(left_run, key) + at_path(right_run, key)
                        == at_path(left@, key) + at_path(right@, key) + #[trigger] at_path_reversed(
                        stack@,
                        key,
                    ) by {
                        lemma_at_path_push(left@, record, key);
                        lemma_at_path_reversed_push(stack_before, record, key);
                        assert(at_path(left_run, key) + at_path(right_run, key) == at_path(
                            left_before,
                            key,
                        ) + at_path(right_before, key) + at_path_reversed(stack_before, key));
                        assert(at_path(left@, key) + at_path(right@, key) + at_path_reversed(stack@, key)
                            =~= at_path(left_before, key) + at_path(right_before, key)
                            + at_path_reversed(stack_before, key));
                    }
                    assert forall|i: int, j: int| 0 <= i < j < stack@.len() implies not_after(
                        #[trigger] stack@[j],
                        #[trigger] stack@[i],
                    ) by {
                        if j == stack_before.len() {
                            assert(left_before[left_before.len() - 1] == record);
                            assert(not_after(left_before[left_before.len() - 1], stack_before[i]));
                        } else {
                            assert(not_after(stack_before[j], stack_before[i]));
                        }
                    }
                    assert forall|i: int, j: int|
                        0 <= i < left@.len() && 0 <= j < stack@.len() implies not_after(
                        #[trigger] left@[i],
                        #[trigger] stack@[j],
                    ) by {
                        assert(left@[i] == left_before[i]);
                        if j == stack_before.len() {
                            assert(left_before[left_before.len() - 1] == record);
                            assert(not_after(left_before[i], left_before[left_before.len() - 1]));
                        } else {
                            assert(not_after(left_before[i], stack_before[j]));
                        }
                    }
                    assert forall|i: int, j: int|
                        0 <= i < right@.len() && 0 <= j < stack@.len() implies not_after(
                        #[trigger] right@[i],
                        #[trigger] stack@[j],
                    ) by {
                        if j == stack_before.len() {
                            assert(precedes(right@[i].key(), record.key()));
                            if precedes(record.key(), right@[i].key()) {
                                lemma_precedes_transitive(
                                    record.key(),
                                    right@[i].key(),
                                    record.key(),
                                );
                                lemma_precedes_irreflexive(record.key());
                            }
                        } else {
                            assert(not_after(right_before[i], stack_before[j]));
                        }
                    }
                    assert forall|i: int, j: int| 0 <= i < j < left@.len() implies not_after(
                        #[trigger] left@[i],
                        #[trigger] left@[j],
                    ) by {
                        assert(not_after(left_before[i], left_before[j]));
                    }
                }
            }
        } else {
            let popped = right.pop();
            if let Some(record) = popped {
                stack.push(record);
                proof {
                    assert(right_before =~= right@.push(record));
                    assert forall|key: Seq<u8>| at_path(left_run, key) + at_path(right_run, key)
                        == at_path(left@, key) + at_path(right@, key) + #[trigger] at_path_reversed(
                        stack@,
                        key,
                    ) by {
                        lemma_at_path_push(right@, record, key);
                        lemma_at_path_reversed_push(stack_before, record, key);
                        assert(at_path(left_run, key) + at_path(right_run, key) == at_path(
                            left_before,
                            key,
                        ) + at_path(right_before, key) + at_path_reversed(stack_before, key));
                        assert(at_path(left@, key) + at_path(right@, key) + at_path_reversed(stack@, key)
                            =~= at_path(left_before, key) + at_path(right_before, key)
                            + at_path_reversed(stack_before, key));
                    }
                    assert forall|i: int, j: int| 0 <= i < j < stack@.len() implies not_after(
                        #[trigger] stack@[j],
                        #[trigger] stack@[i],
                    ) by {
                        if j == stack_before.len() {
                            assert(right_before[right_before.len() - 1] == record);
                            assert(not_after(right_before[right_before.len() - 1], stack_before[i]));
                        } else {
                            assert(not_after(stack_before[j], stack_before[i]));
                        }
                    }
                    assert forall|i: int, j: int|
                        0 <= i < right@.len() && 0 <= j < stack@.len() implies not_after(
                        #[trigger] right@[i],
                        #[trigger] stack@[j],
                    ) by {
                        assert(right@[i] == right_before[i]);
                        if j == stack_before.len() {
                            assert(right_before[right_before.len() - 1] == record);
                            assert(not_after(right_before[i], right_before[right_before.len() - 1]));
                        } else {
                            assert(not_after(right_before[i], stack_before[j]));
                        }
                    }
                    assert forall|i: int, j: int|
                        0 <= i < left@.len() && 0 <= j < stack@.len() implies not_after(
                        #[trigger] left@[i],
                        #[trigger] stack@[j],
                    ) by {
                        if j == stack_before.len() {
                            let last = left@.len() - 1;
                            assert(not_after(left@[last], record));
                            if i < last {
                                assert(not_after(left@[i], left@[last]));
                                lemma_not_after_transitive(
                                    left@[i].key(),
                                    left@[last].key(),
                                    record.key(),
                                );
                            }
                        } else {
                            assert(not_after(left_before[i], stack_before[j]));
                        }
                    }
                    assert forall|i: int, j: int| 0 <= i < j < right@.len() implies not_after(
                        #[trigger] right@[i],
                        #[trigger] right@[j],
                    ) by {
                        assert(not_after(right_before[i], right_before[j]));
                    }
                }
            }
        }
    }
    let mut merged: Vec<FileInfo> = Vec::new();
    assert forall|key: Seq<u8>| at_path(left_run, key) + at_path(right_run, key) == at_path(
        merged@,
        key,
    ) + #[trigger] at_path_reversed(stack@, key) by {
        assert(left@.len() == 0 && right@.len() == 0);
        assert(at_path(left@, key) + at_path(right@, key) + at_path_reversed(stack@, key) =~= at_path(
            merged@,
            key,
        ) + at_path_reversed(stack@, key));
    }
    while stack.len() > 0
        invariant
            sorted_by_path(merged@),
            descending(stack@),
            all_not_after(merged@, stack@),
            merged@.len() + stack@.len() == left_run.len() + right_run.len(),
            forall|key: Seq<u8>|
                at_path(left_run, key) + at_path(right_run, key) == at_path(merged@, key)
                    + #[trigger] at_path_reversed(stack@, key),
        decreases stack@.len(),
    {
        let ghost merged_before = merged@;
        let ghost stack_before = stack@;
        let popped = stack.pop();
        if let Some(record) = popped {
            merged.push(record);
            proof {
                assert(stack_before =~= stack@.push(record));
                assert forall|key: Seq<u8>| at_path(left_run, key) + at_path(right_run, key)
                    == at_path(merged@, key) + #[trigger] at_path_reversed(stack@, key) by {
                    lemma_at_path_push(merged_before, record, key);
                    lemma_at_path_reversed_push(stack@, record, key);
                    assert(at_path(left_run, key) + at_path(right_run, key) == at_path(
                        merged_before,
                        key,
                    ) + at_path_reversed(stack_before, key));
                    assert(at_path(merged@, key) + at_path_reversed(stack@, key) =~= at_path(
                        merged_before,
                        key,
                    ) + at_path_reversed(stack_before, key));
                }
                assert forall|i: int, j: int| 0 <= i < j < merged@.len() implies not_after(
                    #[trigger] merged@[i],
                    #[trigger] merged@[j],
                ) by {
                    if j == merged_before.len() {
                        assert(stack_before[stack_before.len() - 1] == record);
                        assert(not_after(merged_before[i], stack_before[stack_before.len() - 1]));
                    } else {
                        assert(not_after(merged_before[i], merged_before[j]));
                    }
                }
                assert forall|i: int, j: int|
                    0 <= i < merged@.len() && 0 <= j < stack@.len() implies not_after(
                    #[trigger] merged@[i],
                    #[trigger] stack@[j],
                ) by {
                    assert(stack@[j] == stack_before[j]);
                    if i == merged_before.len() {
                        assert(stack_before[stack_before.len() - 1] == record);
                        assert(not_after(stack_before[stack_before.len() - 1], stack_before[j]));
                    } else {
                        assert(not_after(merged_before[i], stack_before[j]));
                    }
                }
                assert forall|i: int, j: int| 0 <= i < j < stack@.len() implies not_after(
                    #[trigger] stack@[j],
                    #[trigger] stack@[i],
                ) by {
                    assert(not_after(stack_before[j], stack_before[i]));
                }
            }
        }
    }
    proof {
        assert forall|key: Seq<u8>| #[trigger]
            at_path(merged@, key) == at_path(left_run, key) + at_path(right_run, key) by {
            assert(at_path(left_run, key) + at_path(right_run, key) == at_path(merged@, key)
                + at_path_reversed(stack@, key));
            assert(at_path(merged@, key) + at_path_reversed(stack@, key) =~= at_path(merged@, key));
        }
    }
    merged
}

/// Sorts records in ascending order of their paths.
///
/// The result holds the records that came in, each as often as it came. At
/// every path it holds them in the order in which they came: the sort is
/// stable. There is only one such order, which `snapshot_of` names.
pub fn sort_by_path(files: Vec<FileInfo>) -> (sorted: Vec<FileInfo>)
    ensures
        is_snapshot_of(sorted@, files@),
        sorted@ == snapshot_of(files@),
{
    let sorted = merge_sort(files);
    proof {
        lemma_snapshot_unique(sorted@, snapshot_of(files@), files@);
    }
    sorted
}

fn merge_sort(files: Vec<FileInfo>) -> (sorted: Vec<FileInfo>)
    ensures
        is_snapshot_of(sorted@, files@),
    decreases files@.len(),
{
    if files.len() <= 1 {
        assert(sorted_by_path(files@));
        return files;
    }
    let mut left = files;
    let middle: usize = left.len() / 2;
    let right = left.split_off(middle);
    let ghost left_half = left@;
    let ghost right_half = right@;
    proof {
        assert(files@ =~= left_half + right_half);
    }
    let left_sorted = merge_sort(left);
    let right_sorted = merge_sort(right);
    let sorted = merge(left_sorted, right_sorted);
    proof {
        assert forall|key: Seq<u8>| #[trigger] at_path(sorted@, key) == at_path(files@, key) by {
            lemma_at_path_concat(left_half, right_half, key);
            assert(at_path(left_sorted@, key) == at_path(left_half, key));
            assert(at_path(right_sorted@, key) == at_path(right_half, key));
        }
    }
    sorted
}

} // verus!
