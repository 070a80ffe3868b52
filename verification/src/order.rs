//! The order of the list as mathematics: where a key stands, what a push
//! makes of a sequence, and the laws that follow.
//!
//! Everything here speaks of plain sequences. The list of keys and the tables
//! of the document are both changed by [`promoted`], with the same position
//! and the same limit, which is what keeps them in step.

use vstd::prelude::*;

verus! {

/// The place of `key` in `keys`, if it occurs there. In a sequence without
/// duplicates that place is the only one.
pub open spec fn position<K>(keys: Seq<K>, key: K) -> Option<int> {
    if keys.contains(key) {
        Some(keys.index_of(key))
    } else {
        None
    }
}

/// How many items leave the front of a sequence of length `len` so that one
/// more item fits under `limit`.
pub open spec fn overflow(len: nat, limit: nat) -> nat {
    if len >= limit && limit > 0 {
        (len - limit + 1) as nat
    } else {
        0
    }
}

/// What a push makes of a sequence. With limit zero nothing changes. Where
/// the pushed item already stands at `found`, it leaves that place and
/// `item` goes to the end. Otherwise the oldest items leave until `item`
/// fits under the limit, and `item` goes to the end.
pub open spec fn promoted<T>(items: Seq<T>, found: Option<int>, limit: nat, item: T) -> Seq<T> {
    if limit == 0 {
        items
    } else {
        match found {
            Some(index) => items.remove(index).push(item),
            None => items.skip(overflow(items.len(), limit) as int).push(item),
        }
    }
}

/// The keys of the list after `key` was pushed under `limit`.
pub open spec fn pushed<K>(keys: Seq<K>, key: K, limit: nat) -> Seq<K> {
    promoted(keys, position(keys, key), limit, key)
}

/// The keys of the list after a run of pushes, each a key with the limit
/// under which it was pushed, in the order in which they were made.
pub open spec fn pushed_all<K>(keys: Seq<K>, pushes: Seq<(K, nat)>) -> Seq<K>
    decreases pushes.len(),
{
    if pushes.len() == 0 {
        keys
    } else {
        pushed(pushed_all(keys, pushes.drop_last()), pushes.last().0, pushes.last().1)
    }
}

/// In a sequence without duplicates, a key stands where it is found.
pub proof fn lemma_position_is_unique<K>(keys: Seq<K>, key: K, index: int)
    requires
        keys.no_duplicates(),
        0 <= index < keys.len(),
        keys[index] == key,
    ensures
        position(keys, key) == Some(index),
{
    assert(keys.contains(key));
}

/// A push with limit zero changes nothing.
pub proof fn lemma_pushed_zero_limit<K>(keys: Seq<K>, key: K)
    ensures
        pushed(keys, key, 0) == keys,
{
}

/// A push keeps the list free of duplicates.
pub proof fn lemma_pushed_no_duplicates<K>(keys: Seq<K>, key: K, limit: nat)
    requires
        keys.no_duplicates(),
    ensures
        pushed(keys, key, limit).no_duplicates(),
{
    let after = pushed(keys, key, limit);
    if limit > 0 {
        match position(keys, key) {
            Some(index) => {
                let rest = keys.remove(index);
                assert forall|i: int, j: int| 0 <= i < after.len() && 0 <= j < after.len() && i != j
                    implies after[i] != after[j] by {
                    let source_i = if i < index { i } else { i + 1 };
                    let source_j = if j < index { j } else { j + 1 };
                    if i < rest.len() {
                        assert(after[i] == keys[source_i]);
                    }
                    if j < rest.len() {
                        assert(after[j] == keys[source_j]);
                    }
                }
            },
            None => {
                let skipped = overflow(keys.len(), limit) as int;
                let rest = keys.skip(skipped);
                assert forall|i: int, j: int| 0 <= i < after.len() && 0 <= j < after.len() && i != j
                    implies after[i] != after[j] by {
                    if i < rest.len() {
                        assert(after[i] == keys[i + skipped]);
                        assert(keys.contains(after[i]));
                    }
                    if j < rest.len() {
                        assert(after[j] == keys[j + skipped]);
                        assert(keys.contains(after[j]));
                    }
                }
            },
        }
    }
}

/// Whatever is pushed on a list without duplicates, and under whatever
/// limits, no key occurs twice in the list that comes of it. The empty list
/// is such a list, so this holds of every list that pushes alone can make.
pub proof fn lemma_pushed_all_no_duplicates<K>(keys: Seq<K>, pushes: Seq<(K, nat)>)
    requires
        keys.no_duplicates(),
    ensures
        pushed_all(keys, pushes).no_duplicates(),
    decreases pushes.len(),
{
    if pushes.len() > 0 {
        lemma_pushed_all_no_duplicates(keys, pushes.drop_last());
        lemma_pushed_no_duplicates(
            pushed_all(keys, pushes.drop_last()),
            pushes.last().0,
            pushes.last().1,
        );
    }
}

/// After a push with a limit above zero the pushed key stands last, and
/// nowhere else.
pub proof fn lemma_pushed_key_is_last<K>(keys: Seq<K>, key: K, limit: nat)
    requires
        keys.no_duplicates(),
        limit > 0,
    ensures
        pushed(keys, key, limit).len() > 0,
        pushed(keys, key, limit).last() == key,
        forall|i: int|
            0 <= i < pushed(keys, key, limit).len() && pushed(keys, key, limit)[i] == key ==> i
                == pushed(keys, key, limit).len() - 1,
{
    lemma_pushed_no_duplicates(keys, key, limit);
}

/// After a push with a limit above zero the list is no longer than the
/// limit, unless the key was already in a list that was longer than the
/// limit: such a list keeps its length.
pub proof fn lemma_pushed_bound<K>(keys: Seq<K>, key: K, limit: nat)
    requires
        limit > 0,
        !keys.contains(key) || keys.len() <= limit,
    ensures
        pushed(keys, key, limit).len() <= limit,
{
}

/// The length of the list after a push.
pub proof fn lemma_pushed_len<K>(keys: Seq<K>, key: K, limit: nat)
    ensures
        pushed(keys, key, limit).len() == if limit == 0 || keys.contains(key) {
            keys.len()
        } else if keys.len() >= limit {
            limit
        } else {
            keys.len() + 1
        },
{
}

/// Pushing the same key a second time changes nothing: after the first push
/// the key stands last, and the second push takes it out there and puts it
/// back. The key stays unique and last, and the order of the other keys is
/// as the first push left it.
pub proof fn lemma_push_again<K>(keys: Seq<K>, key: K, limit: nat, again: nat)
    requires
        keys.no_duplicates(),
        limit > 0,
        again > 0,
    ensures
        pushed(pushed(keys, key, limit), key, again) == pushed(keys, key, limit),
        pushed(pushed(keys, key, limit), key, again).no_duplicates(),
        pushed(pushed(keys, key, limit), key, again).last() == key,
{
    let once = pushed(keys, key, limit);
    lemma_pushed_no_duplicates(keys, key, limit);
    lemma_pushed_key_is_last(keys, key, limit);
    lemma_position_is_unique(once, key, once.len() - 1);
    assert(once.remove(once.len() - 1).push(key) =~= once);
}

/// A push keeps the keys other than the pushed one in their order: of two
/// such keys, where the earlier one is still in the list, the later one is
/// too, and it still comes later.
pub proof fn lemma_pushed_keeps_order<K>(keys: Seq<K>, key: K, limit: nat, earlier: int, later: int)
    requires
        keys.no_duplicates(),
        0 <= earlier < later < keys.len(),
        keys[earlier] != key,
        keys[later] != key,
        pushed(keys, key, limit).contains(keys[earlier]),
    ensures
        pushed(keys, key, limit).contains(keys[later]),
        pushed(keys, key, limit).index_of(keys[earlier]) < pushed(keys, key, limit).index_of(
            keys[later],
        ),
{
    let after = pushed(keys, key, limit);
    lemma_pushed_no_duplicates(keys, key, limit);
    let from = after.index_of(keys[earlier]);
    assert(0 <= from < after.len() && after[from] == keys[earlier]);
    if limit == 0 {
        assert(after[later] == keys[later]);
        assert(from == earlier);
    } else {
        match position(keys, key) {
            Some(index) => {
                let to = if later < index { later } else { later - 1 };
                let source = if from < index { from } else { from + 1 };
                assert(after[from] == keys[source]);
                assert(source == earlier);
                assert(after[to] == keys[later]);
            },
            None => {
                let skipped = overflow(keys.len(), limit) as int;
                assert(after[from] == keys[from + skipped]);
                assert(from + skipped == earlier);
                assert(after[later - skipped] == keys[later]);
            },
        }
    }
}

/// Where nothing has to leave the list, a push keeps every other key: the
/// list after the push, without its last key, is the list before without the
/// pushed key.
pub proof fn lemma_pushed_keeps_others<K>(keys: Seq<K>, key: K, limit: nat)
    requires
        keys.no_duplicates(),
        limit > 0,
        keys.contains(key) || keys.len() < limit,
    ensures
        pushed(keys, key, limit).drop_last() == match position(keys, key) {
            Some(index) => keys.remove(index),
            None => keys,
        },
{
    let after = pushed(keys, key, limit);
    match position(keys, key) {
        Some(index) => {
            assert(after.drop_last() =~= keys.remove(index));
        },
        None => {
            assert(keys.skip(0) =~= keys);
            assert(after.drop_last() =~= keys);
        },
    }
}

} // verus!
