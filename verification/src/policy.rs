//! Which lines survive under each policy, stated over the keys of the lines.

use crate::DeduplicationMode;
use vstd::prelude::*;

verus! {

/// The number of positions of `keys` that hold `key`.
pub open spec fn occurrences(keys: Seq<Seq<u8>>, key: Seq<u8>) -> nat
    decreases keys.len(),
{
    if keys.len() == 0 {
        0
    } else {
        occurrences(keys.drop_last(), key) + if keys.last() == key {
            1nat
        } else {
            0nat
        }
    }
}

/// True when no earlier position holds the key of position `i`.
pub open spec fn is_first(keys: Seq<Seq<u8>>, i: int) -> bool {
    forall|j: int| 0 <= j < i ==> #[trigger] keys[j] != keys[i]
}

/// True when no later position holds the key of position `i`.
pub open spec fn is_last(keys: Seq<Seq<u8>>, i: int) -> bool {
    forall|j: int| i < j < keys.len() ==> #[trigger] keys[j] != keys[i]
}

/// True when the line at position `i` is kept under the policy.
pub open spec fn survives(mode: DeduplicationMode, keys: Seq<Seq<u8>>, i: int) -> bool {
    match mode {
        DeduplicationMode::KeepFirst => is_first(keys, i),
        DeduplicationMode::KeepLast => is_last(keys, i),
        DeduplicationMode::RemoveAll => occurrences(keys, keys[i]) == 1,
    }
}

/// The positions before `n` whose lines are kept, in rising order.
pub open spec fn survivors(mode: DeduplicationMode, keys: Seq<Seq<u8>>, n: int) -> Seq<int>
    decreases n,
{
    if n <= 0 {
        Seq::empty()
    } else if survives(mode, keys, n - 1) {
        survivors(mode, keys, n - 1).push(n - 1)
    } else {
        survivors(mode, keys, n - 1)
    }
}

/// The keys that the policy counts as unique: under `RemoveAll` those that
/// occur once, else all that occur.
pub open spec fn unique_keys(mode: DeduplicationMode, keys: Seq<Seq<u8>>) -> Set<Seq<u8>> {
    match mode {
        DeduplicationMode::RemoveAll => keys.to_set().filter(
            |key: Seq<u8>| occurrences(keys, key) == 1,
        ),
        _ => keys.to_set(),
    }
}

/// Counting over a sequence with one more key at its end.
pub proof fn lemma_occurrences_push(keys: Seq<Seq<u8>>, added: Seq<u8>, key: Seq<u8>)
    ensures
        occurrences(keys.push(added), key) == occurrences(keys, key) + if added == key {
            1nat
        } else {
            0nat
        },
{
    assert(keys.push(added).drop_last() =~= keys);
}

/// A key occurs at most as often as there are positions.
pub proof fn lemma_occurrences_bound(keys: Seq<Seq<u8>>, key: Seq<u8>)
    ensures
        occurrences(keys, key) <= keys.len(),
    decreases keys.len(),
{
    if keys.len() > 0 {
        lemma_occurrences_bound(keys.drop_last(), key);
    }
}

/// A key occurs zero times exactly when no position holds it.
pub proof fn lemma_occurrences_zero(keys: Seq<Seq<u8>>, key: Seq<u8>)
    ensures
        occurrences(keys, key) == 0 <==> forall|j: int| 0 <= j < keys.len() ==> keys[j] != key,
    decreases keys.len(),
{
    if keys.len() > 0 {
        let front = keys.drop_last();
        lemma_occurrences_zero(front, key);
        if occurrences(keys, key) == 0 {
            assert forall|j: int| 0 <= j < keys.len() implies keys[j] != key by {
                if j < front.len() {
                    assert(front[j] == keys[j]);
                }
            }
        } else {
            if keys.last() != key {
                let j = choose|j: int| 0 <= j < front.len() && front[j] == key;
                assert(keys[j] == key);
            }
        }
    }
}

/// A key that two positions hold occurs at least twice.
pub proof fn lemma_two_positions(keys: Seq<Seq<u8>>, i: int, j: int)
    requires
        0 <= i < j < keys.len(),
        keys[i] == keys[j],
    ensures
        occurrences(keys, keys[i]) >= 2,
    decreases keys.len(),
{
    let front = keys.drop_last();
    if j == keys.len() - 1 {
        lemma_occurrences_zero(front, keys[i]);
        assert(front[i] == keys[i]);
    } else {
        assert(front[i] == keys[i] && front[j] == keys[j]);
        lemma_two_positions(front, i, j);
    }
}

/// Counting over a prefix that grows by one position.
pub proof fn lemma_occurrences_step(keys: Seq<Seq<u8>>, i: int, key: Seq<u8>)
    requires
        0 <= i < keys.len(),
    ensures
        occurrences(keys.take(i + 1), key) == occurrences(keys.take(i), key) + if keys[i] == key {
            1nat
        } else {
            0nat
        },
        keys.take(i + 1).to_set() =~= keys.take(i).to_set().insert(keys[i]),
{
    let shorter = keys.take(i);
    let longer = keys.take(i + 1);
    assert(longer =~= shorter.push(keys[i]));
    lemma_occurrences_push(shorter, keys[i], key);
    assert forall|k: Seq<u8>| longer.to_set().contains(k) implies shorter.to_set().insert(
        keys[i],
    ).contains(k) by {
        let j = choose|j: int| 0 <= j < longer.len() && longer[j] == k;
        if j < i {
            assert(shorter[j] == k);
        }
    }
    assert forall|k: Seq<u8>| shorter.to_set().insert(keys[i]).contains(
        k,
    ) implies longer.to_set().contains(k) by {
        if k == keys[i] {
            assert(longer[i] == k);
        } else {
            let j = choose|j: int| 0 <= j < shorter.len() && shorter[j] == k;
            assert(longer[j] == k);
        }
    }
}

/// A key is among the keys of a prefix exactly when it occurs in it, and it
/// occurs at most once per line.
pub proof fn lemma_seen_keys(keys: Seq<Seq<u8>>, i: int, key: Seq<u8>)
    requires
        0 <= i <= keys.len(),
    ensures
        keys.take(i).to_set().contains(key) <==> occurrences(keys.take(i), key) > 0,
        occurrences(keys.take(i), key) <= i,
        i == keys.len() ==> keys.take(i) == keys,
{
    assert(i == keys.len() ==> keys.take(i) =~= keys);
    let seen = keys.take(i);
    lemma_occurrences_zero(seen, key);
    lemma_occurrences_bound(seen, key);
    if seen.to_set().contains(key) {
        let j = choose|j: int| 0 <= j < seen.len() && seen[j] == key;
        assert(seen[j] == key);
    } else {
        assert forall|j: int| 0 <= j < seen.len() implies seen[j] != key by {
            if seen[j] == key {
                assert(seen.to_set().contains(seen[j]));
            }
        }
    }
}

/// A position is the first of its key exactly when the key does not occur
/// before it.
pub proof fn lemma_first_by_count(keys: Seq<Seq<u8>>, i: int)
    requires
        0 <= i < keys.len(),
    ensures
        is_first(keys, i) <==> occurrences(keys.take(i), keys[i]) == 0,
{
    lemma_occurrences_zero(keys.take(i), keys[i]);
    if is_first(keys, i) {
        assert forall|j: int| 0 <= j < keys.take(i).len() implies keys.take(i)[j] != keys[i] by {
            assert(keys.take(i)[j] == keys[j]);
        }
    } else {
        let j = choose|j: int| 0 <= j < i && keys[j] == keys[i];
        assert(keys.take(i)[j] == keys[i]);
    }
}

/// The kept positions before `n`: each lies before `n` and is kept, they
/// rise, and none that is kept is missing.
pub proof fn lemma_survivors(mode: DeduplicationMode, keys: Seq<Seq<u8>>, n: int)
    requires
        0 <= n,
    ensures
        survivors(mode, keys, n).len() <= n,
        forall|t: int|
            0 <= t < survivors(mode, keys, n).len() ==> 0 <= #[trigger] survivors(mode, keys, n)[t]
                < n && survives(mode, keys, survivors(mode, keys, n)[t]),
        forall|s: int, t: int|
            0 <= s < t < survivors(mode, keys, n).len() ==> survivors(mode, keys, n)[s]
                < survivors(mode, keys, n)[t],
        forall|i: int|
            0 <= i < n && survives(mode, keys, i) ==> survivors(mode, keys, n).contains(i),
    decreases n,
{
    if n > 0 {
        lemma_survivors(mode, keys, n - 1);
        let before = survivors(mode, keys, n - 1);
        let now = survivors(mode, keys, n);
        assert forall|i: int| 0 <= i < n && survives(mode, keys, i) implies now.contains(i) by {
            if i < n - 1 {
                let t = choose|t: int| 0 <= t < before.len() && before[t] == i;
                assert(now[t] == i);
            } else {
                assert(now[before.len() as int] == i);
            }
        }
    }
}

/// The keys of the kept positions before `n`.
pub open spec fn survivor_keys(mode: DeduplicationMode, keys: Seq<Seq<u8>>, n: int) -> Set<
    Seq<u8>,
> {
    Set::new(|key: Seq<u8>| exists|i: int| 0 <= i < n && survives(mode, keys, i) && keys[i] == key)
}

/// Under every policy at most one line of a key is kept.
pub proof fn lemma_one_survivor_per_key(mode: DeduplicationMode, keys: Seq<Seq<u8>>, i: int, j: int)
    requires
        0 <= i < keys.len(),
        0 <= j < keys.len(),
        survives(mode, keys, i),
        survives(mode, keys, j),
        keys[i] == keys[j],
    ensures
        i == j,
{
    if i != j {
        match mode {
            DeduplicationMode::KeepFirst => {
                if i < j {
                    assert(keys[i] != keys[j]);
                } else {
                    assert(keys[j] != keys[i]);
                }
            },
            DeduplicationMode::KeepLast => {
                if i < j {
                    assert(keys[j] != keys[i]);
                } else {
                    assert(keys[i] != keys[j]);
                }
            },
            DeduplicationMode::RemoveAll => {
                if i < j {
                    lemma_two_positions(keys, i, j);
                } else {
                    lemma_two_positions(keys, j, i);
                }
            },
        }
    }
}

/// There are as many kept positions before `n` as keys among them.
pub proof fn lemma_survivor_keys_count(mode: DeduplicationMode, keys: Seq<Seq<u8>>, n: int)
    requires
        0 <= n <= keys.len(),
    ensures
        survivor_keys(mode, keys, n).finite(),
        survivor_keys(mode, keys, n).len() == survivors(mode, keys, n).len(),
    decreases n,
{
    if n == 0 {
        assert(survivor_keys(mode, keys, n) =~= Set::empty());
    } else {
        lemma_survivor_keys_count(mode, keys, n - 1);
        let before = survivor_keys(mode, keys, n - 1);
        let now = survivor_keys(mode, keys, n);
        if survives(mode, keys, n - 1) {
            assert(!before.contains(keys[n - 1])) by {
                if before.contains(keys[n - 1]) {
                    let i = choose|i: int|
                        0 <= i < n - 1 && survives(mode, keys, i) && keys[i] == keys[n - 1];
                    lemma_one_survivor_per_key(mode, keys, i, n - 1);
                }
            }
            assert(now =~= before.insert(keys[n - 1])) by {
                assert forall|key: Seq<u8>| now.contains(key) implies before.insert(
                    keys[n - 1],
                ).contains(key) by {
                    let i = choose|i: int| 0 <= i < n && survives(mode, keys, i) && keys[i] == key;
                    if i < n - 1 {
                        assert(before.contains(key));
                    }
                }
                assert forall|key: Seq<u8>| before.insert(keys[n - 1]).contains(
                    key,
                ) implies now.contains(key) by {
                    if key == keys[n - 1] {
                        assert(survives(mode, keys, n - 1) && keys[n - 1] == key);
                    } else {
                        let i = choose|i: int|
                            0 <= i < n - 1 && survives(mode, keys, i) && keys[i] == key;
                        assert(0 <= i < n && survives(mode, keys, i) && keys[i] == key);
                    }
                }
            }
        } else {
            assert(now =~= before) by {
                assert forall|key: Seq<u8>| now.contains(key) implies before.contains(key) by {
                    let i = choose|i: int| 0 <= i < n && survives(mode, keys, i) && keys[i] == key;
                    assert(i < n - 1);
                }
                assert forall|key: Seq<u8>| before.contains(key) implies now.contains(key) by {
                    let i = choose|i: int|
                        0 <= i < n - 1 && survives(mode, keys, i) && keys[i] == key;
                    assert(0 <= i < n && survives(mode, keys, i) && keys[i] == key);
                }
            }
        }
    }
}

/// The key at position `j` has a first position.
pub proof fn lemma_first_position(keys: Seq<Seq<u8>>, j: int) -> (i: int)
    requires
        0 <= j < keys.len(),
    ensures
        0 <= i <= j,
        keys[i] == keys[j],
        is_first(keys, i),
    decreases j,
{
    if is_first(keys, j) {
        j
    } else {
        let earlier = choose|e: int| 0 <= e < j && keys[e] == keys[j];
        lemma_first_position(keys, earlier)
    }
}

/// The key at position `j` has a last position.
pub proof fn lemma_last_position(keys: Seq<Seq<u8>>, j: int) -> (i: int)
    requires
        0 <= j < keys.len(),
    ensures
        j <= i < keys.len(),
        keys[i] == keys[j],
        is_last(keys, i),
    decreases keys.len() - j,
{
    if is_last(keys, j) {
        j
    } else {
        let later = choose|l: int| j < l < keys.len() && keys[l] == keys[j];
        lemma_last_position(keys, later)
    }
}

/// The keys of the kept lines are the unique keys of the policy.
pub proof fn lemma_survivor_keys_are_unique_keys(mode: DeduplicationMode, keys: Seq<Seq<u8>>)
    ensures
        survivor_keys(mode, keys, keys.len() as int) =~= unique_keys(mode, keys),
{
    let n = keys.len() as int;
    let kept = survivor_keys(mode, keys, n);
    let unique = unique_keys(mode, keys);
    assert forall|key: Seq<u8>| kept.contains(key) implies unique.contains(key) by {
        let i = choose|i: int| 0 <= i < n && survives(mode, keys, i) && keys[i] == key;
        assert(keys.to_set().contains(keys[i]));
    }
    assert forall|key: Seq<u8>| unique.contains(key) implies kept.contains(key) by {
        assert(keys.to_set().contains(key));
        let j = choose|j: int| 0 <= j < keys.len() && keys[j] == key;
        match mode {
            DeduplicationMode::KeepFirst => {
                let i = lemma_first_position(keys, j);
                assert(0 <= i < n && survives(mode, keys, i) && keys[i] == key);
            },
            DeduplicationMode::KeepLast => {
                let i = lemma_last_position(keys, j);
                assert(0 <= i < n && survives(mode, keys, i) && keys[i] == key);
            },
            DeduplicationMode::RemoveAll => {
                assert(0 <= j < n && survives(mode, keys, j) && keys[j] == key);
            },
        }
    }
}

/// As many lines are kept as the policy has unique keys: one line for each
/// distinct key under `KeepFirst` and `KeepLast`, one for each key that
/// occurs once under `RemoveAll`.
pub proof fn lemma_kept_count_is_unique_count(mode: DeduplicationMode, keys: Seq<Seq<u8>>)
    ensures
        unique_keys(mode, keys).finite(),
        survivors(mode, keys, keys.len() as int).len() == unique_keys(mode, keys).len(),
{
    lemma_survivor_keys_count(mode, keys, keys.len() as int);
    lemma_survivor_keys_are_unique_keys(mode, keys);
}

} // verus!
