//! The model of an insertion-ordered map with string keys: a sequence of
//! key-value pairs in which no key occurs twice.
use vstd::prelude::*;

verus! {

/// The first position of `entries` that holds `key`, if any does.
pub open spec fn position<V>(entries: Seq<(Seq<char>, V)>, key: Seq<char>) -> Option<int>
    decreases entries.len(),
{
    if entries.len() == 0 {
        None
    } else if entries[0].0 == key {
        Some(0)
    } else {
        match position(entries.skip(1), key) {
            Some(i) => Some(i + 1),
            None => None,
        }
    }
}

/// The value that `entries` holds for `key`.
pub open spec fn lookup<V>(entries: Seq<(Seq<char>, V)>, key: Seq<char>) -> Option<V> {
    match position(entries, key) {
        Some(i) => Some(entries[i].1),
        None => None,
    }
}

/// `entries` after `key` is set to `value`: where the key is present its
/// value is replaced and it keeps its place; else the pair is added at the
/// end.
pub open spec fn upsert<V>(entries: Seq<(Seq<char>, V)>, key: Seq<char>, value: V) -> Seq<
    (Seq<char>, V),
> {
    match position(entries, key) {
        Some(i) => entries.update(i, (key, value)),
        None => entries.push((key, value)),
    }
}

/// What results from setting the pairs one after the other, starting from
/// nothing.
pub open spec fn upsert_all<V>(pairs: Seq<(Seq<char>, V)>) -> Seq<(Seq<char>, V)>
    decreases pairs.len(),
{
    if pairs.len() == 0 {
        Seq::empty()
    } else {
        upsert(upsert_all(pairs.drop_last()), pairs.last().0, pairs.last().1)
    }
}

/// No key occurs twice.
pub open spec fn distinct_keys<V>(entries: Seq<(Seq<char>, V)>) -> bool {
    forall|i: int, j: int|
        0 <= i < j < entries.len() ==> (#[trigger] entries[i]).0 != (#[trigger] entries[j]).0
}

/// `position` finds the first pair with the key, and finds none only where
/// there is none.
pub proof fn lemma_position<V>(entries: Seq<(Seq<char>, V)>, key: Seq<char>)
    ensures
        match position(entries, key) {
            Some(i) => 0 <= i < entries.len() && entries[i].0 == key && forall|j: int|
                0 <= j < i ==> (#[trigger] entries[j]).0 != key,
            None => forall|j: int| 0 <= j < entries.len() ==> (#[trigger] entries[j]).0 != key,
        },
    decreases entries.len(),
{
    if entries.len() > 0 && entries[0].0 != key {
        let tail = entries.skip(1);
        lemma_position(tail, key);
        match position(tail, key) {
            Some(i) => {
                assert forall|j: int| 0 <= j < i + 1 implies (#[trigger] entries[j]).0 != key by {
                    if j > 0 {
                        assert(entries[j] == tail[j - 1]);
                    }
                }
            },
            None => {
                assert forall|j: int| 0 <= j < entries.len() implies (#[trigger] entries[j]).0
                    != key by {
                    if j > 0 {
                        assert(entries[j] == tail[j - 1]);
                    }
                }
            },
        }
    }
}

/// The first pair with the key is what `position` finds.
pub proof fn lemma_position_is<V>(entries: Seq<(Seq<char>, V)>, key: Seq<char>, i: int)
    requires
        0 <= i < entries.len(),
        entries[i].0 == key,
        forall|j: int| 0 <= j < i ==> (#[trigger] entries[j]).0 != key,
    ensures
        position(entries, key) == Some(i),
    decreases i,
{
    if i > 0 {
        let tail = entries.skip(1);
        assert(entries[0].0 != key);
        assert forall|j: int| 0 <= j < i - 1 implies (#[trigger] tail[j]).0 != key by {
            assert(tail[j] == entries[j + 1]);
        }
        lemma_position_is(tail, key, i - 1);
    }
}

/// Where no pair has the key, `position` finds none.
pub proof fn lemma_position_none<V>(entries: Seq<(Seq<char>, V)>, key: Seq<char>)
    requires
        forall|j: int| 0 <= j < entries.len() ==> (#[trigger] entries[j]).0 != key,
    ensures
        position(entries, key) is None,
{
    lemma_position(entries, key);
}

/// After a key is set, it is found with the new value, every other key is
/// found as before, and still no key occurs twice.
pub proof fn lemma_upsert<V>(entries: Seq<(Seq<char>, V)>, key: Seq<char>, value: V)
    ensures
        lookup(upsert(entries, key, value), key) == Some(value),
        forall|other: Seq<char>|
            other != key ==> #[trigger] lookup(upsert(entries, key, value), other) == lookup(
                entries,
                other,
            ),
        distinct_keys(entries) ==> distinct_keys(upsert(entries, key, value)),
        upsert(entries, key, value).len() == if lookup(entries, key) is Some {
            entries.len()
        } else {
            entries.len() + 1
        },
{
    let after = upsert(entries, key, value);
    lemma_position(entries, key);
    match position(entries, key) {
        Some(i) => {
            lemma_position_is(after, key, i);
        },
        None => {
            lemma_position_is(after, key, entries.len() as int);
        },
    }
    assert forall|other: Seq<char>| other != key implies #[trigger] lookup(after, other)
        == lookup(entries, other) by {
        lemma_position(entries, other);
        match position(entries, other) {
            Some(j) => {
                lemma_position_is(after, other, j);
            },
            None => {
                lemma_position_none(after, other);
            },
        }
    }
}

/// Setting the pairs of a sequence without repeated keys, one after the
/// other, gives that sequence.
pub proof fn lemma_upsert_all_distinct<V>(pairs: Seq<(Seq<char>, V)>)
    requires
        distinct_keys(pairs),
    ensures
        upsert_all(pairs) == pairs,
    decreases pairs.len(),
{
    if pairs.len() > 0 {
        let front = pairs.drop_last();
        lemma_upsert_all_distinct(front);
        lemma_position_none(front, pairs.last().0);
        assert(front.push(pairs.last()) =~= pairs);
    }
}

/// Setting pairs one after the other never leaves a key twice.
pub proof fn lemma_upsert_all_keys<V>(pairs: Seq<(Seq<char>, V)>)
    ensures
        distinct_keys(upsert_all(pairs)),
    decreases pairs.len(),
{
    if pairs.len() > 0 {
        lemma_upsert_all_keys(pairs.drop_last());
        lemma_upsert(upsert_all(pairs.drop_last()), pairs.last().0, pairs.last().1);
    }
}

/// A key that is set twice holds the second value: the second insertion
/// finds the first value in place, and afterwards the key is found with the
/// second value, at the one place where it stands.
pub proof fn lemma_overwrite<V>(entries: Seq<(Seq<char>, V)>, key: Seq<char>, first: V, second: V)
    requires
        distinct_keys(entries),
    ensures
        lookup(upsert(entries, key, first), key) == Some(first),
        lookup(upsert(upsert(entries, key, first), key, second), key) == Some(second),
        upsert(upsert(entries, key, first), key, second) == upsert(entries, key, second),
        forall|i: int|
            0 <= i < upsert(entries, key, second).len() && (#[trigger] upsert(
                entries,
                key,
                second,
            )[i]).0 == key ==> upsert(entries, key, second)[i].1 == second,
{
    let once = upsert(entries, key, first);
    let twice = upsert(once, key, second);
    let direct = upsert(entries, key, second);
    lemma_upsert(entries, key, first);
    lemma_upsert(once, key, second);
    lemma_upsert(entries, key, second);
    lemma_position(entries, key);
    lemma_position(once, key);
    lemma_position(direct, key);
    match position(entries, key) {
        Some(i) => {
            lemma_position_is(once, key, i);
        },
        None => {
            lemma_position_is(once, key, entries.len() as int);
        },
    }
    assert(twice =~= direct);
    assert forall|i: int| 0 <= i < direct.len() && (#[trigger] direct[i]).0 == key implies direct[i].1
        == second by {
        let at = position(direct, key)->Some_0;
        if i != at {
            if i < at {
                assert(direct[i].0 != direct[at].0);
            } else {
                assert(direct[at].0 != direct[i].0);
            }
        }
    }
}

/// Of the pairs that are set one after the other, the last one with a key
/// gives the value that the key is found with.
pub proof fn lemma_last_wins<V>(pairs: Seq<(Seq<char>, V)>, i: int)
    requires
        0 <= i < pairs.len(),
        forall|j: int| i < j < pairs.len() ==> (#[trigger] pairs[j]).0 != pairs[i].0,
    ensures
        lookup(upsert_all(pairs), pairs[i].0) == Some(pairs[i].1),
    decreases pairs.len(),
{
    let front = pairs.drop_last();
    lemma_upsert(upsert_all(front), pairs.last().0, pairs.last().1);
    if i < pairs.len() - 1 {
        assert(front[i] == pairs[i]);
        assert forall|j: int| i < j < front.len() implies (#[trigger] front[j]).0 != front[i].0 by {
            assert(front[j] == pairs[j]);
        }
        lemma_last_wins(front, i);
        assert(pairs.last() == pairs[pairs.len() - 1]);
    }
}

/// What results from setting pairs one after the other holds only pairs that
/// were set, and holds something where any pair was set.
pub proof fn lemma_upsert_all_members<V>(pairs: Seq<(Seq<char>, V)>)
    ensures
        forall|i: int|
            0 <= i < upsert_all(pairs).len() ==> exists|j: int|
                0 <= j < pairs.len() && #[trigger] upsert_all(pairs)[i] == #[trigger] pairs[j],
        pairs.len() >= 1 ==> upsert_all(pairs).len() >= 1,
    decreases pairs.len(),
{
    if pairs.len() > 0 {
        let front = pairs.drop_last();
        let before = upsert_all(front);
        let after = upsert_all(pairs);
        lemma_upsert_all_members(front);
        lemma_position(before, pairs.last().0);
        assert forall|i: int| 0 <= i < after.len() implies exists|j: int|
            0 <= j < pairs.len() && #[trigger] after[i] == #[trigger] pairs[j] by {
            if after[i] == pairs.last() {
                assert(after[i] == pairs[pairs.len() - 1]);
            } else {
                assert(after[i] == before[i]);
                let j = choose|j: int| 0 <= j < front.len() && before[i] == #[trigger] front[j];
                assert(front[j] == pairs[j]);
            }
        }
    }
}

} // verus!
