//! Applying a function to many items with index-stable results.
//!
//! The functions here fix what a batch computes, whatever the number of
//! workers: results stand in the order of their items. `restore_order`
//! is what a pool of workers needs to keep that promise when results
//! arrive in the order of completion.

use vstd::prelude::*;

verus! {

/// The number of workers to start for `item_count` items when
/// `num_threads` are allowed: none for up to two items or a single
/// thread, where the batch runs in the caller; else no more than there
/// are items.
pub open spec fn workers_for(item_count: int, num_threads: int) -> int {
    if item_count <= 2 || num_threads <= 1 {
        0
    } else if num_threads <= item_count {
        num_threads
    } else {
        item_count
    }
}

/// The number of workers to start; zero means: run in the caller.
pub fn worker_count(item_count: usize, num_threads: usize) -> (workers: usize)
    ensures
        workers == workers_for(item_count as int, num_threads as int),
{
    if item_count <= 2 || num_threads <= 1 {
        0
    } else if num_threads <= item_count {
        num_threads
    } else {
        item_count
    }
}

/// Reverses a vector.
fn reversed<T>(items: Vec<T>) -> (backwards: Vec<T>)
    ensures
        backwards@ == items@.reverse(),
{
    let mut rest = items;
    let mut backwards: Vec<T> = Vec::new();
    while rest.len() > 0
        invariant
            rest@.len() <= items@.len(),
            backwards@.len() == items@.len() - rest@.len(),
            rest@ == items@.subrange(0, rest@.len() as int),
            forall|k: int|
                0 <= k < backwards@.len() ==> backwards@[k] == items@[items@.len() - 1 - k],
        decreases rest@.len(),
    {
        let item = rest.pop().unwrap();
        backwards.push(item);
    }
    assert(backwards@ =~= items@.reverse());
    backwards
}

/// Map operation over a collection, with index-stable results.
///
/// Each result stands at the index of its item, whatever `num_threads`
/// is. The items are processed in order, in the caller.
pub fn parallel_map<T, R, F>(items: Vec<T>, f: F, num_threads: usize) -> (results: Vec<R>) where
    F: Fn(T) -> R,

    requires
        forall|i: int| 0 <= i < items@.len() ==> call_requires(f, (#[trigger] items@[i],)),
    ensures
        results@.len() == items@.len(),
        forall|i: int|
            0 <= i < items@.len() ==> call_ensures(f, (items@[i],), #[trigger] results@[i]),
{
    let mut pending = reversed(items);
    let mut results: Vec<R> = Vec::new();
    while pending.len() > 0
        invariant
            pending@.len() + results@.len() == items@.len(),
            forall|k: int|
                0 <= k < pending@.len() ==> pending@[k] == items@[items@.len() - 1 - k],
            forall|i: int| 0 <= i < items@.len() ==> call_requires(f, (#[trigger] items@[i],)),
            forall|i: int|
                0 <= i < results@.len() ==> call_ensures(f, (items@[i],), #[trigger] results@[i]),
        decreases pending@.len(),
    {
        let item = pending.pop().unwrap();
        let result = f(item);
        results.push(result);
    }
    results
}

/// Processes each item and calls `callback` once behind each, in order.
pub fn parallel_for_each<T, F, C>(items: Vec<T>, process: F, callback: C, num_threads: usize) where
    F: Fn(T),
    C: Fn(),

    requires
        forall|i: int| 0 <= i < items@.len() ==> call_requires(process, (#[trigger] items@[i],)),
        call_requires(callback, ()),
{
    let mut pending = reversed(items);
    while pending.len() > 0
        invariant
            pending@.len() <= items@.len(),
            forall|k: int|
                0 <= k < pending@.len() ==> pending@[k] == items@[items@.len() - 1 - k],
            forall|i: int|
                0 <= i < items@.len() ==> call_requires(process, (#[trigger] items@[i],)),
            call_requires(callback, ()),
        decreases pending@.len(),
    {
        let item = pending.pop().unwrap();
        process(item);
        callback();
    }
}

/// Whether the tags of the results are the indices below their number,
/// each exactly once.
pub open spec fn is_permutation<R>(tagged: Seq<(usize, R)>) -> bool {
    &&& forall|k: int| 0 <= k < tagged.len() ==> (#[trigger] tagged[k]).0 < tagged.len()
    &&& forall|j: int, k: int|
        0 <= j < tagged.len() && 0 <= k < tagged.len() && j != k ==> (#[trigger] tagged[j]).0 != (
        #[trigger] tagged[k]).0
}

/// Whether one of the results is tagged with the index `index`.
pub open spec fn has_tag<R>(tagged: Seq<(usize, R)>, index: int) -> bool {
    exists|k: int| 0 <= k < tagged.len() && (#[trigger] tagged[k]).0 == index
}

/// The number of slots that hold a result.
pub open spec fn filled<R>(slots: Seq<Option<R>>) -> nat
    decreases slots.len(),
{
    if slots.len() == 0 {
        0
    } else {
        filled(slots.drop_last()) + if slots.last().is_some() {
            1nat
        } else {
            0nat
        }
    }
}

/// No more slots are filled than there are, and where as many are filled
/// as there are, each is.
pub proof fn lemma_filled_all<R>(slots: Seq<Option<R>>)
    ensures
        filled(slots) <= slots.len(),
        filled(slots) == slots.len() ==> forall|i: int|
            0 <= i < slots.len() ==> (#[trigger] slots[i]).is_some(),
    decreases slots.len(),
{
    if slots.len() > 0 {
        lemma_filled_all(slots.drop_last());
        if filled(slots) == slots.len() {
            assert forall|i: int| 0 <= i < slots.len() implies (#[trigger] slots[i]).is_some() by {
                if i < slots.len() - 1 {
                    assert(slots.drop_last()[i] == slots[i]);
                }
            }
        }
    }
}

/// Filling an empty slot fills one more.
pub proof fn lemma_filled_one_more<R>(slots: Seq<Option<R>>, at: int, result: R)
    requires
        0 <= at < slots.len(),
        slots[at].is_none(),
    ensures
        filled(slots.update(at, Some(result))) == filled(slots) + 1,
    decreases slots.len(),
{
    let after = slots.update(at, Some(result));
    if at == slots.len() - 1 {
        assert(after.drop_last() =~= slots.drop_last());
    } else {
        lemma_filled_one_more(slots.drop_last(), at, result);
        assert(after.drop_last() =~= slots.drop_last().update(at, Some(result)));
    }
}

/// Puts results that arrive in any order, each tagged with the index of
/// its item, back into the order of the items.
///
/// Succeeds exactly when the tags are a permutation of the indices. Then
/// each result stands at the index it is tagged with, and every index
/// has a result that is tagged with it.
pub fn restore_order<R>(tagged: Vec<(usize, R)>) -> (ordered: Option<Vec<R>>)
    ensures
        match ordered {
            Some(results) => results@.len() == tagged@.len() && (forall|k: int|
                0 <= k < tagged@.len() ==> (#[trigger] tagged@[k]).0 < tagged@.len()
                    && results@[tagged@[k].0 as int] == tagged@[k].1) && (forall|i: int|
                0 <= i < results@.len() ==> #[trigger] has_tag(tagged@, i)),
            None => !is_permutation(tagged@),
        },
{
    let count: usize = tagged.len();
    let mut slots: Vec<Option<R>> = Vec::new();
    while slots.len() < count
        invariant
            slots@.len() <= count,
            filled(slots@) == 0,
            forall|s: int| 0 <= s < slots@.len() ==> (#[trigger] slots@[s]).is_none(),
        decreases count - slots@.len(),
    {
        let ghost before = slots@;
        slots.push(None);
        proof {
            assert(slots@.drop_last() =~= before);
        }
    }
    let mut pending = tagged;
    while pending.len() > 0
        invariant
            count == tagged@.len(),
            slots@.len() == count,
            pending@.len() <= count,
            pending@ == tagged@.subrange(0, pending@.len() as int),
            filled(slots@) == count - pending@.len(),
            forall|j: int|
                pending@.len() <= j < count ==> (#[trigger] tagged@[j]).0 < count
                    && slots@[tagged@[j].0 as int] == Some(tagged@[j].1),
            forall|s: int|
                0 <= s < count && (#[trigger] slots@[s]).is_some() ==> exists|j: int|
                    pending@.len() <= j < count && (#[trigger] tagged@[j]).0 == s,
        decreases pending@.len(),
    {
        let ghost at = pending@.len() - 1;
        let ghost before = slots@;
        let (index, result) = pending.pop().unwrap();
        assert(tagged@[at] == (index, result));
        if index >= count {
            return None;
        }
        if slots[index].is_some() {
            proof {
                let j = choose|j: int| at < j < count && (#[trigger] tagged@[j]).0 == index;
                assert(tagged@[j].0 == tagged@[at].0);
            }
            return None;
        }
        slots.set(index, Some(result));
        proof {
            lemma_filled_one_more(before, index as int, result);
            assert forall|j: int| at <= j < count implies (#[trigger] tagged@[j]).0 < count
                && slots@[tagged@[j].0 as int] == Some(tagged@[j].1) by {
                if j > at {
                    assert(before[tagged@[j].0 as int] == Some(tagged@[j].1));
                }
            }
            assert forall|s: int| 0 <= s < count && (#[trigger] slots@[s]).is_some() implies exists|
                j: int,
            |
                at <= j < count && (#[trigger] tagged@[j]).0 == s by {
                if s == index {
                    assert(tagged@[at].0 == s);
                } else {
                    assert(before[s].is_some());
                    let j = choose|j: int| at < j < count && (#[trigger] tagged@[j]).0 == s;
                    assert(at <= j < count && tagged@[j].0 == s);
                }
            }
        }
    }
    proof {
        lemma_filled_all(slots@);
    }
    let ghost full = slots@;
    assert(forall|j: int|
        0 <= j < count ==> (#[trigger] tagged@[j]).0 < count && full[tagged@[j].0 as int] == Some(
            tagged@[j].1,
        ));
    assert(forall|s: int|
        0 <= s < count && (#[trigger] full[s]).is_some() ==> exists|j: int|
            0 <= j < count && (#[trigger] tagged@[j]).0 == s);
    let mut backwards: Vec<R> = Vec::new();
    while slots.len() > 0
        invariant
            full.len() == count,
            slots@.len() <= count,
            slots@ == full.subrange(0, slots@.len() as int),
            forall|s: int| 0 <= s < count ==> (#[trigger] full[s]).is_some(),
            backwards@.len() == count - slots@.len(),
            forall|k: int|
                0 <= k < backwards@.len() ==> Some(#[trigger] backwards@[k]) == full[count - 1
                    - k],
        decreases slots@.len(),
    {
        let ghost at = slots@.len() - 1;
        let slot = slots.pop().unwrap();
        assert(slot == full[at]);
        match slot {
            Some(result) => {
                backwards.push(result);
            },
            None => {
                // Every slot is filled, so this arm is never reached.
                assert(false);
                return None;
            },
        }
    }
    let results = reversed(backwards);
    proof {
        assert forall|s: int| 0 <= s < count implies Some(#[trigger] results@[s]) == full[s] by {
            assert(results@[s] == backwards@[count - 1 - s]);
            assert(Some(backwards@[count - 1 - s]) == full[count - 1 - (count - 1 - s)]);
        }
        assert forall|k: int| 0 <= k < tagged@.len() implies (#[trigger] tagged@[k]).0
            < tagged@.len() && results@[tagged@[k].0 as int] == tagged@[k].1 by {
            let s = tagged@[k].0 as int;
            assert(full[s] == Some(tagged@[k].1));
            assert(Some(results@[s]) == full[s]);
        }
        assert forall|i: int| 0 <= i < results@.len() implies #[trigger] has_tag(
            tagged@,
            i,
        ) by {
            assert(full[i].is_some());
        }
    }
    Some(results)
}

/// Results that workers hand in, in whatever order they complete, each
/// tagged with the index of its item, stand after `restore_order` where
/// `parallel_map` puts them: the result of an item at the index of that
/// item.
pub proof fn lemma_restored_results_follow_items<T, R, F: Fn(T) -> R>(
    items: Seq<T>,
    f: F,
    tagged: Seq<(usize, R)>,
    results: Seq<R>,
)
    requires
        tagged.len() == items.len(),
        results.len() == items.len(),
        forall|k: int|
            0 <= k < tagged.len() ==> (#[trigger] tagged[k]).0 < items.len() && call_ensures(
                f,
                (items[tagged[k].0 as int],),
                tagged[k].1,
            ) && results[tagged[k].0 as int] == tagged[k].1,
        forall|i: int| 0 <= i < results.len() ==> #[trigger] has_tag(tagged, i),
    ensures
        forall|i: int| 0 <= i < items.len() ==> call_ensures(f, (items[i],), #[trigger] results[i]),
{
    assert forall|i: int| 0 <= i < items.len() implies call_ensures(
        f,
        (items[i],),
        #[trigger] results[i],
    ) by {
        assert(has_tag(tagged, i));
        let k = choose|k: int| 0 <= k < tagged.len() && (#[trigger] tagged[k]).0 == i;
        assert(results[tagged[k].0 as int] == tagged[k].1);
    }
}

} // verus!
