//! Comparing two analyses: which categories and which external primitives
//! one circuit holds more of than the other.

use vstd::prelude::*;
use crate::analyzer::{analyze_circuit, is_run, AnalysisView, CircuitAnalysis};
use crate::cost_model::{CostDatabase, CostTable};
use crate::error::AnalysisError;
use crate::json::json_document;
use crate::ordering::{arranged, descending_order, is_descending_order};
use crate::search::position_of;
use crate::tally::{call_counts, counts_view, find_count, tally_names, usage_view};
use crate::witness::{is_noted, texts_of};

verus! {

/// Two analyses that differ by fewer constraints than this are not told
/// apart.
pub const NOTABLE_DELTA: usize = 100;

/// How the second of two analyses differs from the first.
#[derive(Clone, Debug)]
pub struct CostDiff {
    /// The constraints of the second less those of the first.
    pub delta: i128,
    /// For each category that the two hold different numbers of, the count
    /// in the second less that in the first; the largest change first.
    pub operations: Vec<(String, i128)>,
    /// For each external primitive that the two call different numbers of
    /// times, the calls in the second less those in the first; the largest
    /// change first.
    pub primitives: Vec<(String, i128)>,
}

/// The count that `counts` holds for `name`; zero if it holds none.
pub open spec fn count_in(counts: Seq<(Seq<char>, nat)>, name: Seq<char>) -> nat {
    let at = position_of(tally_names(counts), name);
    if at < counts.len() {
        counts[at].1
    } else {
        0
    }
}

/// The first `count` of `keys` without repetitions, in the order of first
/// occurrence.
pub open spec fn first_seen_upto(keys: Seq<Seq<char>>, count: nat) -> Seq<Seq<char>>
    decreases count,
{
    if count == 0 {
        Seq::empty()
    } else {
        let earlier = first_seen_upto(keys, (count - 1) as nat);
        if earlier.contains(keys[count - 1]) {
            earlier
        } else {
            earlier.push(keys[count - 1])
        }
    }
}

/// The names that either table holds: those of `first` in its order, then
/// those that only `second` holds in its order.
pub open spec fn merged_names(first: Seq<(Seq<char>, nat)>, second: Seq<(Seq<char>, nat)>) -> Seq<
    Seq<char>,
> {
    let keys = tally_names(first) + tally_names(second);
    first_seen_upto(keys, keys.len())
}

/// For those of the first `count` names whose counts differ, the count in
/// `second` less the count in `first`.
pub open spec fn changes_upto(
    names: Seq<Seq<char>>,
    first: Seq<(Seq<char>, nat)>,
    second: Seq<(Seq<char>, nat)>,
    count: nat,
) -> Seq<(Seq<char>, int)>
    decreases count,
{
    if count == 0 {
        Seq::empty()
    } else {
        let earlier = changes_upto(names, first, second, (count - 1) as nat);
        let name = names[count - 1];
        let change = count_in(second, name) - count_in(first, name);
        if change != 0 {
            earlier.push((name, change))
        } else {
            earlier
        }
    }
}

/// The size of each change, as a weight to order by.
pub open spec fn magnitudes(changes: Seq<(Seq<char>, int)>) -> Seq<u128> {
    Seq::new(
        changes.len(),
        |i: int|
            if changes[i].1 < 0 {
                (-changes[i].1) as u128
            } else {
                changes[i].1 as u128
            },
    )
}

/// `result` lists the changes from `first` to `second`: one entry for each
/// name whose counts differ, the largest change first, equally large ones
/// in the order of `merged_names`.
pub open spec fn is_change_list(
    result: Seq<(Seq<char>, int)>,
    first: Seq<(Seq<char>, nat)>,
    second: Seq<(Seq<char>, nat)>,
) -> bool {
    let names = merged_names(first, second);
    let changes = changes_upto(names, first, second, names.len());
    exists|order: Seq<usize>| #[trigger]
        is_descending_order(order, magnitudes(changes)) && result == arranged(changes, order)
}

/// Changes as the machine holds them.
pub open spec fn changes_view(changes: Seq<(String, i128)>) -> Seq<(Seq<char>, int)> {
    Seq::new(changes.len(), |i: int| (changes[i].0@, changes[i].1 as int))
}

/// The names that either table holds.
fn merge_names(first: &Vec<(String, usize)>, second: &Vec<(String, usize)>) -> (names: Vec<String>)
    ensures
        texts_of(names@) == merged_names(counts_view(first@), counts_view(second@)),
{
    let ghost keys = tally_names(counts_view(first@)) + tally_names(counts_view(second@));
    let mut names: Vec<String> = Vec::new();
    let mut i: usize = 0;
    assert(texts_of(names@) =~= first_seen_upto(keys, 0));
    while i < first.len()
        invariant
            i <= first@.len(),
            keys == tally_names(counts_view(first@)) + tally_names(counts_view(second@)),
            texts_of(names@) == first_seen_upto(keys, i as nat),
        decreases first@.len() - i,
    {
        assert(keys[i as int] == first@[i as int].0@);
        if !is_noted(&names, first[i].0.as_str()) {
            let ghost before = texts_of(names@);
            names.push(first[i].0.clone());
            assert(texts_of(names@) =~= before.push(first@[i as int].0@));
        }
        i = i + 1;
    }
    let mut k: usize = 0;
    while k < second.len()
        invariant
            k <= second@.len(),
            keys == tally_names(counts_view(first@)) + tally_names(counts_view(second@)),
            texts_of(names@) == first_seen_upto(keys, (first@.len() + k) as nat),
        decreases second@.len() - k,
    {
        assert(keys[first@.len() + k] == second@[k as int].0@);
        if !is_noted(&names, second[k].0.as_str()) {
            let ghost before = texts_of(names@);
            names.push(second[k].0.clone());
            assert(texts_of(names@) =~= before.push(second@[k as int].0@));
        }
        k = k + 1;
    }
    names
}

/// The count that `counts` holds for `name`; zero if it holds none.
fn count_for(counts: &Vec<(String, usize)>, name: &str) -> (count: usize)
    ensures
        count == count_in(counts_view(counts@), name@),
{
    let at = find_count(counts, name);
    if at < counts.len() {
        counts[at].1
    } else {
        0
    }
}

/// The changes from `first` to `second`: for each name whose counts
/// differ, the count in `second` less the count in `first`; the largest
/// change first.
pub fn count_changes(first: &Vec<(String, usize)>, second: &Vec<(String, usize)>) -> (result: Vec<
    (String, i128),
>)
    ensures
        is_change_list(changes_view(result@), counts_view(first@), counts_view(second@)),
{
    let ghost before = counts_view(first@);
    let ghost after = counts_view(second@);
    let names = merge_names(first, second);
    let ghost merged = texts_of(names@);
    let mut changes: Vec<(String, i128)> = Vec::new();
    let mut sizes: Vec<u128> = Vec::new();
    let mut i: usize = 0;
    assert(changes_view(changes@) =~= changes_upto(merged, before, after, 0));
    assert(sizes@ =~= magnitudes(changes_view(changes@)));
    while i < names.len()
        invariant
            i <= names@.len(),
            before == counts_view(first@),
            after == counts_view(second@),
            merged == texts_of(names@),
            changes_view(changes@) == changes_upto(merged, before, after, i as nat),
            sizes@ == magnitudes(changes_view(changes@)),
        decreases names@.len() - i,
    {
        let name = names[i].as_str();
        assert(merged[i as int] == name@);
        let was: i128 = count_for(first, name) as i128;
        let is: i128 = count_for(second, name) as i128;
        let change: i128 = is - was;
        if change != 0 {
            let ghost earlier = changes_view(changes@);
            let size: u128 = if change < 0 {
                (-change) as u128
            } else {
                change as u128
            };
            changes.push((names[i].clone(), change));
            sizes.push(size);
            assert(changes_view(changes@) =~= earlier.push((name@, change as int)));
            assert(sizes@ =~= magnitudes(changes_view(changes@)));
        }
        i = i + 1;
    }
    let ghost listed = changes_view(changes@);
    let order = descending_order(&sizes);
    let mut result: Vec<(String, i128)> = Vec::new();
    let mut k: usize = 0;
    while k < order.len()
        invariant
            k <= order@.len(),
            order@.len() == changes@.len(),
            forall|j: int| 0 <= j < order@.len() ==> (#[trigger] order@[j]) < changes@.len(),
            listed == changes_view(changes@),
            result@.len() == k,
            forall|j: int|
                0 <= j < k ==> (#[trigger] changes_view(result@)[j]) == listed[order@[j] as int],
        decreases order@.len() - k,
    {
        let from: usize = order[k];
        let ghost earlier = changes_view(result@);
        result.push((changes[from].0.clone(), changes[from].1));
        assert(changes_view(result@) =~= earlier.push(listed[from as int]));
        k = k + 1;
    }
    assert(changes_view(result@) =~= arranged(listed, order@));
    assert(merged == merged_names(before, after));
    assert(listed == changes_upto(merged, before, after, merged.len()));
    assert(is_descending_order(order@, magnitudes(listed)));
    result
}

/// The calls of each primitive, without its unit cost.
fn calls_of(usage: &Vec<(String, usize, usize)>) -> (counts: Vec<(String, usize)>)
    ensures
        counts_view(counts@) == call_counts(usage_view(usage@)),
{
    let mut counts: Vec<(String, usize)> = Vec::new();
    let mut i: usize = 0;
    while i < usage.len()
        invariant
            i <= usage@.len(),
            counts@.len() == i,
            forall|j: int|
                0 <= j < i ==> (#[trigger] counts@[j]).0@ == usage@[j].0@ && counts@[j].1
                    == usage@[j].1,
        decreases usage@.len() - i,
    {
        counts.push((usage[i].0.clone(), usage[i].1));
        i = i + 1;
    }
    assert(counts_view(counts@) =~= call_counts(usage_view(usage@)));
    counts
}

/// What `analyze_diff_from_cost_model` returns for two analyses.
pub open spec fn is_diff_of(diff: Option<CostDiff>, first: AnalysisView, second: AnalysisView) -> bool {
    let delta = second.constraints - first.constraints;
    match diff {
        None => -(NOTABLE_DELTA as int) < delta < NOTABLE_DELTA as int,
        Some(found) => {
            &&& delta <= -(NOTABLE_DELTA as int) || delta >= NOTABLE_DELTA as int
            &&& found.delta == delta
            &&& is_change_list(
                changes_view(found.operations@),
                first.operation_counts,
                second.operation_counts,
            )
            &&& is_change_list(
                changes_view(found.primitives@),
                call_counts(first.black_box_functions),
                call_counts(second.black_box_functions),
            )
        },
    }
}

/// How `second` differs from `first`, if the two differ by a hundred
/// constraints or more: the categories and the external primitives whose
/// counts changed, the largest change first.
pub fn analyze_diff_from_cost_model(first: &CircuitAnalysis, second: &CircuitAnalysis) -> (diff:
    Option<CostDiff>)
    ensures
        is_diff_of(diff, first@, second@),
{
    let delta: i128 = second.constraints as i128 - first.constraints as i128;
    if delta > -(NOTABLE_DELTA as i128) && delta < NOTABLE_DELTA as i128 {
        return None;
    }
    let operations = count_changes(&first.operation_counts, &second.operation_counts);
    let calls_before = calls_of(&first.black_box_functions);
    let calls_after = calls_of(&second.black_box_functions);
    let primitives = count_changes(&calls_before, &calls_after);
    Some(CostDiff { delta, operations, primitives })
}

/// The result of a comparison, as a value.
pub open spec fn pair_view(result: Result<(CircuitAnalysis, CircuitAnalysis), AnalysisError>) -> Result<
    (AnalysisView, AnalysisView),
    AnalysisError,
> {
    match result {
        Ok(pair) => Ok((pair.0@, pair.1@)),
        Err(error) => Err(error),
    }
}

/// What a comparison does: it runs the analyzer on the first text, on the
/// database as it stands, and then on the second, on the database as the
/// first run left it.  It fails at the first text that is not one JSON
/// value, and then leaves the database as the runs before left it.
pub open spec fn is_comparison(
    result: Result<(AnalysisView, AnalysisView), AnalysisError>,
    after: CostTable,
    before: CostTable,
    first: Seq<char>,
    second: Seq<char>,
) -> bool {
    if json_document(first) is None {
        result == Err::<(AnalysisView, AnalysisView), AnalysisError>(AnalysisError::DecodeFailure)
            && after == before
    } else {
        exists|found: AnalysisView, between: CostTable| #[trigger]
            is_run(Ok(found), between, before, first) && if json_document(second) is None {
                result == Err::<(AnalysisView, AnalysisView), AnalysisError>(
                    AnalysisError::DecodeFailure,
                ) && after == between
            } else {
                result is Ok && result->Ok_0.0 == found && is_run(
                    Ok(result->Ok_0.1),
                    after,
                    between,
                    second,
                )
            }
    }
}

/// Analyses the circuits that two JSON texts describe, one after the other
/// on the same database, and returns both analyses.
pub fn compare_circuits(db: &mut CostDatabase, first_json: &str, second_json: &str) -> (result:
    Result<(CircuitAnalysis, CircuitAnalysis), AnalysisError>)
    ensures
        is_comparison(pair_view(result), final(db)@, old(db)@, first_json@, second_json@),
{
    let first = analyze_circuit(db, first_json);
    let ghost between = db@;
    match first {
        Ok(first_analysis) => {
            let ghost found = first_analysis@;
            assert(is_run(Ok(found), between, old(db)@, first_json@));
            assert(json_document(first_json@) is Some);
            let second = analyze_circuit(db, second_json);
            match second {
                Ok(second_analysis) => {
                    assert(is_run(Ok(second_analysis@), db@, between, second_json@));
                    Ok((first_analysis, second_analysis))
                },
                Err(error) => Err(error),
            }
        },
        Err(error) => Err(error),
    }
}

} // verus!
