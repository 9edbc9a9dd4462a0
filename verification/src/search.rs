//! Finding the first name of a sequence that equals, or overlaps, a given one.

use vstd::prelude::*;
use crate::text::names_overlap;

verus! {

/// The least index at which `flags` holds `true`, or its length if none does.
pub open spec fn first_true(flags: Seq<bool>) -> int
    decreases flags.len(),
{
    if flags.len() == 0 {
        0
    } else if flags[0] {
        0
    } else {
        1 + first_true(flags.drop_first())
    }
}

/// `first_true` lies within the sequence's bounds, points at a `true` if it
/// points inside, and has only `false` before it.
pub proof fn lemma_first_true(flags: Seq<bool>)
    ensures
        0 <= first_true(flags) <= flags.len(),
        first_true(flags) < flags.len() ==> flags[first_true(flags)],
        forall|j: int| 0 <= j < first_true(flags) ==> !flags[j],
    decreases flags.len(),
{
    if flags.len() > 0 && !flags[0] {
        let rest = flags.drop_first();
        lemma_first_true(rest);
        assert forall|j: int| 0 <= j < first_true(flags) implies !flags[j] by {
            if j > 0 {
                assert(rest[j - 1] == flags[j]);
            }
        }
    }
}

/// An index with only `false` before it, which holds `true` or is the
/// length, is `first_true`.
pub proof fn lemma_first_true_is(flags: Seq<bool>, at: int)
    requires
        0 <= at <= flags.len(),
        at < flags.len() ==> flags[at],
        forall|j: int| 0 <= j < at ==> !flags[j],
    ensures
        first_true(flags) == at,
{
    lemma_first_true(flags);
    let found = first_true(flags);
    if found < at {
        assert(!flags[found]);
    } else if found > at {
        assert(!flags[at]);
    }
}

/// For each name, whether it equals `name`.
pub open spec fn equal_flags(names: Seq<Seq<char>>, name: Seq<char>) -> Seq<bool> {
    Seq::new(names.len(), |i: int| names[i] == name)
}

/// For each name, whether it occurs in `name` or `name` in it.
pub open spec fn overlap_flags(names: Seq<Seq<char>>, name: Seq<char>) -> Seq<bool> {
    Seq::new(names.len(), |i: int| names_overlap(names[i], name))
}

/// The index of the first of `names` equal to `name`, or their number.
pub open spec fn position_of(names: Seq<Seq<char>>, name: Seq<char>) -> int {
    first_true(equal_flags(names, name))
}

/// The index of the first of `names` that overlaps `name`, or their number.
pub open spec fn overlap_position(names: Seq<Seq<char>>, name: Seq<char>) -> int {
    first_true(overlap_flags(names, name))
}

/// No name occurs twice.
pub open spec fn distinct_names(names: Seq<Seq<char>>) -> bool {
    forall|i: int, j: int| 0 <= i < j < names.len() ==> names[i] != names[j]
}

/// What `position_of` returns: an index within bounds, at the first name
/// equal to `name` if there is one.
pub proof fn lemma_position_of(names: Seq<Seq<char>>, name: Seq<char>)
    ensures
        0 <= position_of(names, name) <= names.len(),
        position_of(names, name) < names.len() ==> names[position_of(names, name)] == name,
        forall|j: int| 0 <= j < position_of(names, name) ==> names[j] != name,
{
    let flags = equal_flags(names, name);
    lemma_first_true(flags);
    assert forall|j: int| 0 <= j < position_of(names, name) implies names[j] != name by {
        assert(!flags[j]);
    }
}

} // verus!
