//! Counting names in the order in which they are first seen.

use vstd::prelude::*;
use crate::search::{
    distinct_names, equal_flags, lemma_first_true_is, lemma_position_of,
    position_of,
};
use crate::text::same_text;

verus! {

/// The names of a tally, in its order.
pub open spec fn tally_names(tally: Seq<(Seq<char>, nat)>) -> Seq<Seq<char>> {
    Seq::new(tally.len(), |i: int| tally[i].0)
}

/// The tally after one more sighting of `key`: its count goes up by one, or
/// it enters at the end with a count of one.
pub open spec fn counted(tally: Seq<(Seq<char>, nat)>, key: Seq<char>) -> Seq<(Seq<char>, nat)> {
    let at = position_of(tally_names(tally), key);
    if at < tally.len() {
        tally.update(at, (key, tally[at].1 + 1))
    } else {
        tally.push((key, 1))
    }
}

/// How often each key occurs in `keys`, in the order of first occurrence.
pub open spec fn tally_of(keys: Seq<Seq<char>>) -> Seq<(Seq<char>, nat)>
    decreases keys.len(),
{
    if keys.len() == 0 {
        Seq::empty()
    } else {
        counted(tally_of(keys.drop_last()), keys.last())
    }
}

/// How often `key` occurs in `keys`.
pub open spec fn occurrences(keys: Seq<Seq<char>>, key: Seq<char>) -> nat
    decreases keys.len(),
{
    if keys.len() == 0 {
        0
    } else {
        occurrences(keys.drop_last(), key) + if keys.last() == key {
            1nat
        } else {
            0nat
        }
    }
}

/// A tally names each key of `keys` once, and no other; it counts each as
/// often as it occurs.
pub open spec fn is_histogram(tally: Seq<(Seq<char>, nat)>, keys: Seq<Seq<char>>) -> bool {
    &&& distinct_names(tally_names(tally))
    &&& forall|i: int|
        0 <= i < tally.len() ==> (#[trigger] tally[i]).1 == occurrences(keys, tally[i].0)
            && tally[i].1 >= 1
    &&& forall|k: int|
        0 <= k < keys.len() ==> position_of(tally_names(tally), #[trigger] keys[k]) < tally.len()
}

/// No key occurs more often than there are keys.
pub proof fn lemma_occurrences_bounded(keys: Seq<Seq<char>>, key: Seq<char>)
    ensures
        occurrences(keys, key) <= keys.len(),
    decreases keys.len(),
{
    if keys.len() > 0 {
        lemma_occurrences_bounded(keys.drop_last(), key);
    }
}

/// One more sighting keeps a histogram a histogram.
pub proof fn lemma_counted_histogram(
    tally: Seq<(Seq<char>, nat)>,
    keys: Seq<Seq<char>>,
    key: Seq<char>,
)
    requires
        is_histogram(tally, keys),
    ensures
        is_histogram(counted(tally, key), keys.push(key)),
{
    let names = tally_names(tally);
    let at = position_of(names, key);
    let next = counted(tally, key);
    let more = keys.push(key);
    lemma_position_of(names, key);
    assert(more.drop_last() =~= keys);
    assert(more.last() == key);
    if at < tally.len() {
        assert(tally_names(next) =~= names);
        assert forall|i: int| 0 <= i < next.len() implies (#[trigger] next[i]).1 == occurrences(
            more,
            next[i].0,
        ) && next[i].1 >= 1 by {
            if i != at {
                assert(next[i] == tally[i]);
                assert(names[i] == tally[i].0);
                assert(names[at] == key);
                assert(names[i] != names[at]);
            } else {
                assert(tally[at].1 == occurrences(keys, tally[at].0));
            }
        }
    } else {
        assert(tally_names(next) =~= names.push(key));
        assert forall|i: int, j: int| 0 <= i < j < next.len() implies tally_names(next)[i]
            != tally_names(next)[j] by {
            if j < tally.len() {
                assert(names[i] != names[j]);
            } else {
                assert(names[i] != key);
            }
        }
        lemma_absent_never_seen(tally, keys, key);
        assert forall|i: int| 0 <= i < next.len() implies (#[trigger] next[i]).1 == occurrences(
            more,
            next[i].0,
        ) && next[i].1 >= 1 by {
            if i < tally.len() {
                assert(next[i] == tally[i]);
                assert(names[i] == tally[i].0);
                assert(names[i] != key);
            }
        }
    }
    assert forall|k: int| 0 <= k < more.len() implies position_of(
        tally_names(next),
        #[trigger] more[k],
    ) < next.len() by {
        let wanted = more[k];
        let before = position_of(names, wanted);
        lemma_position_of(names, wanted);
        lemma_position_of(tally_names(next), wanted);
        if k < keys.len() {
            assert(keys[k] == wanted);
            assert(before < tally.len());
            assert(tally_names(next)[before] == wanted);
        } else if at < tally.len() {
            assert(tally_names(next)[at] == wanted);
        } else {
            assert(tally_names(next)[tally.len() as int] == wanted);
        }
    }
}

/// A key that a histogram does not name does not occur.
pub proof fn lemma_absent_never_seen(
    tally: Seq<(Seq<char>, nat)>,
    keys: Seq<Seq<char>>,
    key: Seq<char>,
)
    requires
        is_histogram(tally, keys),
        position_of(tally_names(tally), key) >= tally.len(),
    ensures
        occurrences(keys, key) == 0,
    decreases keys.len(),
{
    if keys.len() > 0 {
        let last = keys.len() - 1;
        assert(keys[last] != key) by {
            assert(position_of(tally_names(tally), keys[last]) < tally.len());
        }
        lemma_never_seen(keys, key);
    }
}

/// A key different from every key of `keys` occurs zero times.
pub proof fn lemma_never_seen(keys: Seq<Seq<char>>, key: Seq<char>)
    requires
        forall|k: int| 0 <= k < keys.len() ==> keys[k] != key,
    ensures
        occurrences(keys, key) == 0,
    decreases keys.len(),
{
    if keys.len() > 0 {
        let rest = keys.drop_last();
        assert forall|k: int| 0 <= k < rest.len() implies rest[k] != key by {
            assert(rest[k] == keys[k]);
        }
        lemma_never_seen(rest, key);
    }
}

/// The tally of `keys` is their histogram, and holds at most as many
/// entries as there are keys.
pub proof fn lemma_tally_histogram(keys: Seq<Seq<char>>)
    ensures
        is_histogram(tally_of(keys), keys),
        tally_of(keys).len() <= keys.len(),
    decreases keys.len(),
{
    if keys.len() > 0 {
        let rest = keys.drop_last();
        lemma_tally_histogram(rest);
        lemma_counted_histogram(tally_of(rest), rest, keys.last());
        lemma_position_of(tally_names(tally_of(rest)), keys.last());
        assert(counted(tally_of(rest), keys.last()).len() <= tally_of(rest).len() + 1);
        assert(rest.push(keys.last()) =~= keys);
    } else {
        assert(tally_names(tally_of(keys)) =~= Seq::empty());
    }
}

/// The tally of a prefix that is one key longer.
pub proof fn lemma_tally_step(keys: Seq<Seq<char>>, seen: int)
    requires
        0 <= seen < keys.len(),
    ensures
        tally_of(keys.take(seen + 1)) == counted(tally_of(keys.take(seen)), keys[seen]),
{
    let longer = keys.take(seen + 1);
    assert(longer.drop_last() =~= keys.take(seen));
    assert(longer.last() == keys[seen]);
}

/// A tally as the machine holds it, by name and count.
pub open spec fn counts_view(counts: Seq<(String, usize)>) -> Seq<(Seq<char>, nat)> {
    Seq::new(counts.len(), |i: int| (counts[i].0@, counts[i].1 as nat))
}

/// Where `key` stands in `counts`, or their number if it does not.
pub(crate) fn find_count(counts: &Vec<(String, usize)>, key: &str) -> (at: usize)
    ensures
        at == position_of(tally_names(counts_view(counts@)), key@),
        at <= counts@.len(),
{
    let ghost names = tally_names(counts_view(counts@));
    let mut i: usize = 0;
    while i < counts.len()
        invariant
            i <= counts@.len(),
            names == tally_names(counts_view(counts@)),
            forall|j: int| 0 <= j < i ==> !equal_flags(names, key@)[j],
        decreases counts@.len() - i,
    {
        if same_text(counts[i].0.as_str(), key) {
            proof {
                lemma_first_true_is(equal_flags(names, key@), i as int);
            }
            return i;
        }
        i = i + 1;
    }
    proof {
        lemma_first_true_is(equal_flags(names, key@), i as int);
    }
    i
}

/// Counts one more sighting of `key`.
pub(crate) fn count_key(counts: &mut Vec<(String, usize)>, key: &str)
    requires
        forall|i: int| 0 <= i < old(counts)@.len() ==> (#[trigger] old(counts)@[i]).1 < usize::MAX,
    ensures
        counts_view(final(counts)@) == counted(counts_view(old(counts)@), key@),
{
    let at = find_count(counts, key);
    if at < counts.len() {
        let count: usize = counts[at].1;
        counts.set(at, (key.to_owned(), count + 1));
    } else {
        counts.push((key.to_owned(), 1));
    }
    assert(counts_view(counts@) =~= counted(counts_view(old(counts)@), key@));
}

/// The names of a usage table, in its order.
pub open spec fn usage_names(usage: Seq<(Seq<char>, nat, nat)>) -> Seq<Seq<char>> {
    Seq::new(usage.len(), |i: int| usage[i].0)
}

/// The usage table after one more call of `name` at cost `cost`: its call
/// count goes up by one, or it enters at the end with one call and this
/// cost as its unit cost.
pub open spec fn called(usage: Seq<(Seq<char>, nat, nat)>, name: Seq<char>, cost: nat) -> Seq<
    (Seq<char>, nat, nat),
> {
    let at = position_of(usage_names(usage), name);
    if at < usage.len() {
        usage.update(at, (name, usage[at].1 + 1, usage[at].2))
    } else {
        usage.push((name, 1, cost))
    }
}

/// The calls of each primitive, without its unit cost.
pub open spec fn call_counts(usage: Seq<(Seq<char>, nat, nat)>) -> Seq<(Seq<char>, nat)> {
    Seq::new(usage.len(), |i: int| (usage[i].0, usage[i].1))
}

/// One more call counts as one more sighting of the name.
pub proof fn lemma_called_counts(usage: Seq<(Seq<char>, nat, nat)>, name: Seq<char>, cost: nat)
    ensures
        call_counts(called(usage, name, cost)) == counted(call_counts(usage), name),
{
    assert(tally_names(call_counts(usage)) =~= usage_names(usage));
    lemma_position_of(usage_names(usage), name);
    assert(call_counts(called(usage, name, cost)) =~= counted(call_counts(usage), name));
}

/// A usage table as the machine holds it.
pub open spec fn usage_view(usage: Seq<(String, usize, usize)>) -> Seq<(Seq<char>, nat, nat)> {
    Seq::new(usage.len(), |i: int| (usage[i].0@, usage[i].1 as nat, usage[i].2 as nat))
}

/// Where `name` stands in `usage`, or their number if it does not.
pub(crate) fn find_usage(usage: &Vec<(String, usize, usize)>, name: &str) -> (at: usize)
    ensures
        at == position_of(usage_names(usage_view(usage@)), name@),
        at <= usage@.len(),
{
    let ghost names = usage_names(usage_view(usage@));
    let mut i: usize = 0;
    while i < usage.len()
        invariant
            i <= usage@.len(),
            names == usage_names(usage_view(usage@)),
            forall|j: int| 0 <= j < i ==> !equal_flags(names, name@)[j],
        decreases usage@.len() - i,
    {
        if same_text(usage[i].0.as_str(), name) {
            proof {
                lemma_first_true_is(equal_flags(names, name@), i as int);
            }
            return i;
        }
        i = i + 1;
    }
    proof {
        lemma_first_true_is(equal_flags(names, name@), i as int);
    }
    i
}

/// Records one more call of `name` at cost `cost`.
pub(crate) fn record_call(usage: &mut Vec<(String, usize, usize)>, name: &str, cost: usize)
    requires
        forall|i: int| 0 <= i < old(usage)@.len() ==> (#[trigger] old(usage)@[i]).1 < usize::MAX,
    ensures
        usage_view(final(usage)@) == called(usage_view(old(usage)@), name@, cost as nat),
{
    let at = find_usage(usage, name);
    if at < usage.len() {
        let calls: usize = usage[at].1;
        let unit: usize = usage[at].2;
        usage.set(at, (name.to_owned(), calls + 1, unit));
    } else {
        usage.push((name.to_owned(), 1, cost));
    }
    assert(usage_view(usage@) =~= called(usage_view(old(usage)@), name@, cost as nat));
}

} // verus!
