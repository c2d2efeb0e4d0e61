//! Lists of identifiers in which each identifier stands at most once.

use std::collections::VecDeque;
use vstd::prelude::*;

verus! {

/// `list` without every occurrence of `id`, the rest in its order.
pub open spec fn without(list: Seq<u64>, id: u64) -> Seq<u64>
    decreases list.len(),
{
    if list.len() == 0 {
        list
    } else if list.last() == id {
        without(list.drop_last(), id)
    } else {
        without(list.drop_last(), id).push(list.last())
    }
}

/// What is left holds the other members, and holds nothing twice where
/// `list` did not.
pub proof fn lemma_without(list: Seq<u64>, id: u64)
    ensures
        !without(list, id).contains(id),
        forall|other: u64|
            other != id ==> without(list, id).contains(other) == #[trigger] list.contains(other),
        list.no_duplicates() ==> without(list, id).no_duplicates(),
        without(list, id).len() <= list.len(),
        !list.contains(id) ==> without(list, id) == list,
        list.no_duplicates() && list.contains(id) ==> without(list, id).len() + 1 == list.len(),
    decreases list.len(),
{
    if list.len() > 0 {
        let rest = list.drop_last();
        let last = list.last();
        lemma_without(rest, id);
        assert(list =~= rest.push(last));
        assert forall|other: u64| list.contains(other) == (rest.contains(other) || other == last) by {
            if list.contains(other) {
                let i = choose|i: int| 0 <= i < list.len() && list[i] == other;
                if i < rest.len() {
                    assert(rest[i] == other);
                }
            }
            if rest.contains(other) {
                let i = choose|i: int| 0 <= i < rest.len() && rest[i] == other;
                assert(list[i] == other);
            }
            if other == last {
                assert(list[list.len() - 1] == other);
            }
        }
        let kept = without(rest, id);
        if last != id {
            let result = kept.push(last);
            assert forall|other: u64| result.contains(other) == (kept.contains(other) || other == last) by {
                if result.contains(other) {
                    let i = choose|i: int| 0 <= i < result.len() && result[i] == other;
                    if i < kept.len() {
                        assert(kept[i] == other);
                    }
                }
                if kept.contains(other) {
                    let i = choose|i: int| 0 <= i < kept.len() && kept[i] == other;
                    assert(result[i] == other);
                }
                if other == last {
                    assert(result[kept.len() as int] == other);
                }
            }
            if list.no_duplicates() {
                assert(rest.no_duplicates());
                assert(!rest.contains(last)) by {
                    if rest.contains(last) {
                        let i = choose|i: int| 0 <= i < rest.len() && rest[i] == last;
                        assert(list[i] == list[list.len() - 1]);
                    }
                }
                assert(result.no_duplicates()) by {
                    assert forall|i: int, j: int|
                        0 <= i < result.len() && 0 <= j < result.len() && i != j implies result[i]
                        != result[j] by {
                        if i < kept.len() {
                            assert(kept.contains(result[i]));
                        }
                        if j < kept.len() {
                            assert(kept.contains(result[j]));
                        }
                    }
                }
            }
            if !list.contains(id) {
                assert(result =~= list);
            }
        } else {
            if list.no_duplicates() {
                assert(rest.no_duplicates());
                assert(!rest.contains(id)) by {
                    if rest.contains(id) {
                        let i = choose|i: int| 0 <= i < rest.len() && rest[i] == id;
                        assert(list[i] == list[list.len() - 1]);
                    }
                }
            }
        }
    }
}

/// Appending a new member keeps a list free of duplicates.
pub proof fn lemma_push_new(list: Seq<u64>, id: u64)
    requires
        list.no_duplicates(),
        !list.contains(id),
    ensures
        list.push(id).no_duplicates(),
        forall|other: u64| #[trigger] list.push(id).contains(other) == (list.contains(other) || other == id),
{
    let result = list.push(id);
    assert forall|other: u64| #[trigger] result.contains(other) == (list.contains(other) || other == id) by {
        if result.contains(other) {
            let i = choose|i: int| 0 <= i < result.len() && result[i] == other;
            if i < list.len() {
                assert(list[i] == other);
            }
        }
        if list.contains(other) {
            let i = choose|i: int| 0 <= i < list.len() && list[i] == other;
            assert(result[i] == other);
        }
        if other == id {
            assert(result[list.len() as int] == other);
        }
    }
    assert forall|i: int, j: int|
        0 <= i < result.len() && 0 <= j < result.len() && i != j implies result[i] != result[j] by {
        if i < list.len() {
            assert(list.contains(result[i]));
        }
        if j < list.len() {
            assert(list.contains(result[j]));
        }
    }
}

/// Tells whether `id` is in `list`.
pub fn contains_id(list: &Vec<u64>, id: u64) -> (found: bool)
    ensures
        found == list@.contains(id),
{
    let mut i: usize = 0;
    while i < list.len()
        invariant
            i <= list@.len(),
            forall|j: int| 0 <= j < i ==> list@[j] != id,
        decreases list@.len() - i,
    {
        if list[i] == id {
            return true;
        }
        i += 1;
    }
    false
}

/// Tells whether no identifier stands twice in `list`.
pub fn all_distinct(list: &Vec<u64>) -> (distinct: bool)
    ensures
        distinct == list@.no_duplicates(),
{
    let mut i: usize = 0;
    while i < list.len()
        invariant
            i <= list@.len(),
            forall|a: int, b: int| 0 <= a < b < i ==> list@[a] != list@[b],
        decreases list@.len() - i,
    {
        let mut j: usize = 0;
        while j < i
            invariant
                j <= i < list@.len(),
                forall|a: int| 0 <= a < j ==> list@[a] != list@[i as int],
            decreases i - j,
        {
            if list[j] == list[i] {
                return false;
            }
            j += 1;
        }
        i += 1;
    }
    proof {
        assert forall|a: int, b: int|
            0 <= a < list@.len() && 0 <= b < list@.len() && a != b implies list@[a] != list@[b] by {
            if a < b {
                assert(list@[a] != list@[b]);
            } else {
                assert(list@[b] != list@[a]);
            }
        }
    }
    true
}

/// Takes every occurrence of `id` out of `list` and keeps the order of the
/// rest.
pub fn remove_id(list: &mut Vec<u64>, id: u64)
    ensures
        final(list)@ == without(old(list)@, id),
{
    let mut kept: Vec<u64> = Vec::new();
    let mut i: usize = 0;
    while i < list.len()
        invariant
            i <= list@.len(),
            *list == *old(list),
            kept@ == without(list@.take(i as int), id),
        decreases list@.len() - i,
    {
        let value = list[i];
        proof {
            assert(list@.take(i + 1).drop_last() =~= list@.take(i as int));
            assert(list@.take(i + 1).last() == value);
        }
        if value != id {
            kept.push(value);
        }
        i += 1;
    }
    proof {
        assert(list@.take(i as int) =~= list@);
    }
    *list = kept;
}

/// Takes every occurrence of `id` out of `queue` and keeps the order of the
/// rest.
pub fn remove_queued(queue: &mut VecDeque<u64>, id: u64)
    ensures
        final(queue)@ == without(old(queue)@, id),
{
    let ghost before = queue@;
    let count = queue.len();
    let mut i: usize = 0;
    proof {
        assert(before.skip(0) =~= before);
        assert(before.take(0) =~= Seq::<u64>::empty());
        assert(queue@ =~= before.skip(0) + without(before.take(0), id));
    }
    while i < count
        invariant
            i <= count,
            count == before.len(),
            queue@ == before.skip(i as int) + without(before.take(i as int), id),
        decreases count - i,
    {
        let ghost kept = without(before.take(i as int), id);
        assert(queue@.len() > 0);
        let front = queue.pop_front();
        let value = front.unwrap();
        proof {
            assert(value == before[i as int]);
            assert(before.take(i + 1).drop_last() =~= before.take(i as int));
            assert(before.take(i + 1).last() == value);
            assert(queue@ =~= before.skip(i + 1) + kept);
        }
        if value != id {
            queue.push_back(value);
            assert(queue@ =~= before.skip(i + 1) + kept.push(value));
        }
        i += 1;
    }
    proof {
        assert(before.take(count as int) =~= before);
        assert(before.skip(count as int) =~= Seq::<u64>::empty());
        assert(queue@ =~= without(before, id));
    }
}

/// How many members of `list` satisfy `pred`.
pub open spec fn count_where(list: Seq<u64>, pred: spec_fn(u64) -> bool) -> nat
    decreases list.len(),
{
    if list.len() == 0 {
        0
    } else {
        count_where(list.drop_last(), pred) + if pred(list.last()) {
            1nat
        } else {
            0nat
        }
    }
}

/// A new last member adds one to the count if it satisfies the predicate.
pub proof fn lemma_count_push(list: Seq<u64>, id: u64, pred: spec_fn(u64) -> bool)
    ensures
        count_where(list.push(id), pred) == count_where(list, pred) + if pred(id) {
            1nat
        } else {
            0nat
        },
{
    assert(list.push(id).drop_last() =~= list);
}

/// The count is at most the length, and it is zero exactly when no member
/// satisfies the predicate.
pub proof fn lemma_count_bound(list: Seq<u64>, pred: spec_fn(u64) -> bool)
    ensures
        count_where(list, pred) <= list.len(),
        count_where(list, pred) == 0 <==> forall|i: int| 0 <= i < list.len() ==> !pred(#[trigger] list[i]),
    decreases list.len(),
{
    if list.len() > 0 {
        let rest = list.drop_last();
        lemma_count_bound(rest, pred);
        assert forall|i: int| 0 <= i < rest.len() implies rest[i] == list[i] by {}
        if count_where(list, pred) == 0 {
            assert forall|i: int| 0 <= i < list.len() implies !pred(#[trigger] list[i]) by {
                if i < rest.len() {
                    assert(rest[i] == list[i]);
                }
            }
        } else {
            if forall|i: int| 0 <= i < list.len() ==> !pred(#[trigger] list[i]) {
                assert forall|i: int| 0 <= i < rest.len() implies !pred(#[trigger] rest[i]) by {
                    assert(rest[i] == list[i]);
                }
                assert(!pred(list[list.len() - 1]));
            }
        }
    }
}

/// Two predicates that agree on the members count the same.
pub proof fn lemma_count_same(list: Seq<u64>, before: spec_fn(u64) -> bool, after: spec_fn(u64) -> bool)
    requires
        forall|i: int| 0 <= i < list.len() ==> before(#[trigger] list[i]) == after(list[i]),
    ensures
        count_where(list, before) == count_where(list, after),
    decreases list.len(),
{
    if list.len() > 0 {
        let rest = list.drop_last();
        assert forall|i: int| 0 <= i < rest.len() implies before(#[trigger] rest[i]) == after(rest[i]) by {
            assert(rest[i] == list[i]);
        }
        lemma_count_same(rest, before, after);
        assert(list.last() == list[list.len() - 1]);
    }
}

/// When one member stops to satisfy the predicate and the others stay as
/// they are, the count drops by one.
pub proof fn lemma_count_drop(
    list: Seq<u64>,
    id: u64,
    before: spec_fn(u64) -> bool,
    after: spec_fn(u64) -> bool,
)
    requires
        list.no_duplicates(),
        list.contains(id),
        before(id),
        !after(id),
        forall|i: int| 0 <= i < list.len() && list[i] != id ==> before(#[trigger] list[i]) == after(list[i]),
    ensures
        count_where(list, before) == count_where(list, after) + 1,
    decreases list.len(),
{
    let rest = list.drop_last();
    assert(list.len() > 0);
    assert(list.last() == list[list.len() - 1]);
    assert forall|i: int| 0 <= i < rest.len() implies rest[i] == list[i] by {}
    if list.last() == id {
        assert forall|i: int| 0 <= i < rest.len() implies before(#[trigger] rest[i]) == after(rest[i]) by {
            assert(rest[i] == list[i]);
            assert(list[i] != list[list.len() - 1]);
        }
        lemma_count_same(rest, before, after);
    } else {
        let k = choose|k: int| 0 <= k < list.len() && list[k] == id;
        assert(rest[k] == id);
        assert forall|i: int| 0 <= i < rest.len() && rest[i] != id implies before(#[trigger] rest[i])
            == after(rest[i]) by {
            assert(rest[i] == list[i]);
        }
        lemma_count_drop(rest, id, before, after);
    }
}

} // verus!
