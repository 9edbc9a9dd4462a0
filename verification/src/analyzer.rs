//! The circuit analyzer: what each opcode costs, and what a circuit adds up to.

use vstd::prelude::*;
use crate::clock::{
    clock_readings, local_timestamp, nth_reading, pair_position, paired_reading, reading_at,
};
use crate::cost_model::{
    clamped, operation_details_at, update_cost_database_at, CostDatabase, CostTable,
    CONFIDENCE_SCALE,
};
use crate::error::AnalysisError;
use crate::json::json_document;
use crate::ordering::{arranged, descending_order, is_descending_order, lists};
use crate::record::{
    parse_circuit, record_of, CircuitRecord, Opcode, OpcodeView, RecordView,
};
use crate::witness::{count_private_inputs, private_inputs_of};
use crate::search::{lemma_position_of, position_of};
use crate::tally::{
    call_counts, called, count_key, counts_view, find_usage, is_histogram, lemma_called_counts,
    lemma_occurrences_bounded, lemma_tally_histogram, lemma_tally_step, occurrences,
    record_call, tally_names, tally_of, usage_names, usage_view,
};
use crate::text::{contains_text, is_substring, same_text};

verus! {

/// An opcode that costs more than this is a bottleneck.
pub const BOTTLENECK_THRESHOLD: usize = 10_000;

/// The confidence in the cost of an arithmetic constraint: 0.98.
pub const CONSTRAINT_CONFIDENCE: u32 = 980_000;

/// The confidence in the flat cost of any other opcode: 0.9.
pub const PLAIN_CONFIDENCE: u32 = 900_000;

/// The number of arithmetic constraints from which a circuit's mean cost
/// per constraint is fed back into the database.
pub const FEEDBACK_INSTANCES: usize = 10;

/// What the analysis of one circuit found.  `confidence` is in millionths.
#[derive(Clone, Debug)]
pub struct CircuitAnalysis {
    /// The sum of the costs of all opcodes.
    pub constraints: usize,
    /// Category and cost of each opcode that costs more than
    /// `BOTTLENECK_THRESHOLD`, in program order.
    pub bottlenecks: Vec<(String, usize)>,
    /// The number of opcodes.
    pub total_opcodes: usize,
    /// How many opcodes each category holds, the largest category first.
    pub operation_counts: Vec<(String, usize)>,
    /// Name, number of calls and cost of one call of each external
    /// primitive, in the order of first use.
    pub black_box_functions: Vec<(String, usize, usize)>,
    pub public_inputs: usize,
    pub private_inputs: usize,
    pub return_values: usize,
    /// The running mean of the confidence in each opcode's cost.
    pub confidence: u32,
}

/// An analysis as a value.
pub struct AnalysisView {
    pub constraints: nat,
    pub bottlenecks: Seq<(Seq<char>, nat)>,
    pub total_opcodes: nat,
    pub operation_counts: Seq<(Seq<char>, nat)>,
    pub black_box_functions: Seq<(Seq<char>, nat, nat)>,
    pub public_inputs: nat,
    pub private_inputs: nat,
    pub return_values: nat,
    pub confidence: nat,
}

impl View for CircuitAnalysis {
    type V = AnalysisView;

    open spec fn view(&self) -> AnalysisView {
        AnalysisView {
            constraints: self.constraints as nat,
            bottlenecks: counts_view(self.bottlenecks@),
            total_opcodes: self.total_opcodes as nat,
            operation_counts: counts_view(self.operation_counts@),
            black_box_functions: usage_view(self.black_box_functions@),
            public_inputs: self.public_inputs as nat,
            private_inputs: self.private_inputs as nat,
            return_values: self.return_values as nat,
            confidence: self.confidence as nat,
        }
    }
}

impl Default for CircuitAnalysis {
    /// The analysis of nothing: every count zero, every list empty.
    fn default() -> (analysis: Self)
        ensures
            analysis@ == (AnalysisView {
                constraints: 0,
                bottlenecks: Seq::empty(),
                total_opcodes: 0,
                operation_counts: Seq::empty(),
                black_box_functions: Seq::empty(),
                public_inputs: 0,
                private_inputs: 0,
                return_values: 0,
                confidence: 0,
            }),
    {
        let analysis = CircuitAnalysis {
            constraints: 0,
            bottlenecks: Vec::new(),
            total_opcodes: 0,
            operation_counts: Vec::new(),
            black_box_functions: Vec::new(),
            public_inputs: 0,
            private_inputs: 0,
            return_values: 0,
            confidence: 0,
        };
        assert(analysis@.bottlenecks =~= Seq::empty());
        assert(analysis@.operation_counts =~= Seq::empty());
        assert(analysis@.black_box_functions =~= Seq::empty());
        analysis
    }
}

/// The opcode calls an external primitive.
pub open spec fn is_black_box(opcode: OpcodeView) -> bool {
    opcode.kind == "BlackBoxFunction"@
}

/// The opcode is an arithmetic constraint.
pub open spec fn is_assert_zero(opcode: OpcodeView) -> bool {
    !is_black_box(opcode) && opcode.kind == "AssertZero"@
}

/// The category that an opcode is counted under.
pub open spec fn category_of(opcode: OpcodeView) -> Seq<char> {
    if is_black_box(opcode) {
        "External"@
    } else if is_assert_zero(opcode) {
        "Constraint"@
    } else {
        opcode.kind
    }
}

/// The operation that an opcode is an instance of: the primitive it calls,
/// or its type.
pub open spec fn operation_of(opcode: OpcodeView) -> Seq<char> {
    if is_black_box(opcode) {
        opcode.function
    } else {
        opcode.kind
    }
}

/// The cost of a constraint of `terms` terms: one for every four terms or
/// part of four, and one for none.
pub open spec fn arithmetic_cost(terms: nat) -> nat {
    if terms > 0 {
        (terms + 3) / 4
    } else {
        1
    }
}

/// The cost of an opcode, read under the noise of `reading`.
pub open spec fn opcode_cost(table: CostTable, opcode: OpcodeView, reading: nat) -> nat {
    if is_black_box(opcode) {
        table.details(opcode.function, reading).0 as nat
    } else if is_assert_zero(opcode) {
        arithmetic_cost(opcode.terms.len())
    } else {
        1
    }
}

/// The confidence in the cost of an opcode, in millionths.
pub open spec fn opcode_confidence(table: CostTable, opcode: OpcodeView) -> nat {
    if is_black_box(opcode) {
        table.expected(opcode.function).1 as nat
    } else if is_assert_zero(opcode) {
        CONSTRAINT_CONFIDENCE as nat
    } else {
        PLAIN_CONFIDENCE as nat
    }
}

/// The category of each opcode.
pub open spec fn categories_of(opcodes: Seq<OpcodeView>) -> Seq<Seq<char>> {
    Seq::new(opcodes.len(), |i: int| category_of(opcodes[i]))
}

/// The operation of each opcode.
pub open spec fn operations_of(opcodes: Seq<OpcodeView>) -> Seq<Seq<char>> {
    Seq::new(opcodes.len(), |i: int| operation_of(opcodes[i]))
}

/// The cost of each opcode, the opcode at index `i` read under the noise of
/// the reading at index `i`.
pub open spec fn costs_of(table: CostTable, opcodes: Seq<OpcodeView>, readings: Seq<u32>) -> Seq<
    nat,
> {
    Seq::new(opcodes.len(), |i: int| opcode_cost(table, opcodes[i], reading_at(readings, i)))
}

/// The sum of the first `count` costs.
pub open spec fn total_upto(costs: Seq<nat>, count: nat) -> nat
    decreases count,
{
    if count == 0 {
        0
    } else {
        total_upto(costs, (count - 1) as nat) + costs[count - 1]
    }
}

/// Category and cost of those of the first `count` opcodes that cost more
/// than the threshold.
pub open spec fn bottlenecks_upto(
    opcodes: Seq<OpcodeView>,
    costs: Seq<nat>,
    count: nat,
) -> Seq<(Seq<char>, nat)>
    decreases count,
{
    if count == 0 {
        Seq::empty()
    } else {
        let earlier = bottlenecks_upto(opcodes, costs, (count - 1) as nat);
        if costs[count - 1] > BOTTLENECK_THRESHOLD {
            earlier.push((category_of(opcodes[count - 1]), costs[count - 1]))
        } else {
            earlier
        }
    }
}

/// The external primitives that the first `count` opcodes call: each with
/// the number of its calls and the cost of its first call, in the order of
/// first use.
pub open spec fn usage_upto(opcodes: Seq<OpcodeView>, costs: Seq<nat>, count: nat) -> Seq<
    (Seq<char>, nat, nat),
>
    decreases count,
{
    if count == 0 {
        Seq::empty()
    } else {
        let earlier = usage_upto(opcodes, costs, (count - 1) as nat);
        if is_black_box(opcodes[count - 1]) {
            called(earlier, opcodes[count - 1].function, costs[count - 1])
        } else {
            earlier
        }
    }
}

/// The running mean of the confidence over the first `count` opcodes: the
/// first opcode's confidence, then each time the mean of what stands and
/// the next opcode's, rounded down.
pub open spec fn confidence_upto(table: CostTable, opcodes: Seq<OpcodeView>, count: nat) -> nat
    decreases count,
{
    if count == 0 {
        0
    } else if count == 1 {
        opcode_confidence(table, opcodes[0])
    } else {
        (confidence_upto(table, opcodes, (count - 1) as nat) + opcode_confidence(
            table,
            opcodes[count - 1],
        )) / 2
    }
}

/// The count of each entry, as a weight to order by.
pub open spec fn count_weights(counts: Seq<(Seq<char>, nat)>) -> Seq<u128> {
    Seq::new(counts.len(), |i: int| counts[i].1 as u128)
}

/// `sorted` holds the entries of `counts`, the largest count first, equal
/// counts in the order of `counts`.
pub open spec fn is_descending_arrangement(
    sorted: Seq<(Seq<char>, nat)>,
    counts: Seq<(Seq<char>, nat)>,
) -> bool {
    exists|order: Seq<usize>| #[trigger]
        is_descending_order(order, count_weights(counts)) && sorted == arranged(counts, order)
}

/// No primitive is counted more often than there are opcodes.
pub proof fn lemma_usage_bounded(opcodes: Seq<OpcodeView>, costs: Seq<nat>, count: nat)
    ensures
        usage_upto(opcodes, costs, count).len() <= count,
        forall|j: int|
            0 <= j < usage_upto(opcodes, costs, count).len() ==> 1 <= (#[trigger] usage_upto(
                opcodes,
                costs,
                count,
            )[j]).1 <= count,
    decreases count,
{
    if count > 0 {
        let earlier = usage_upto(opcodes, costs, (count - 1) as nat);
        lemma_usage_bounded(opcodes, costs, (count - 1) as nat);
        if is_black_box(opcodes[count - 1]) {
            let name = opcodes[count - 1].function;
            let now = usage_upto(opcodes, costs, count);
            let at = position_of(usage_names(earlier), name);
            lemma_position_of(usage_names(earlier), name);
            assert forall|j: int| 0 <= j < now.len() implies 1 <= (#[trigger] now[j]).1
                <= count by {
                if j < earlier.len() && j != at {
                    assert(now[j] == earlier[j]);
                }
            }
        }
    }
}

/// The constraints of an analysis are the sum of the costs of the opcodes,
/// wherever that sum fits the machine's integers.
pub proof fn lemma_constraints_are_total(
    analysis: AnalysisView,
    table: CostTable,
    record: RecordView,
    readings: Seq<u32>,
)
    requires
        is_analysis_of(analysis, table, record, readings),
        total_upto(costs_of(table, record.opcodes, readings), record.opcodes.len()) <= usize::MAX,
    ensures
        analysis.constraints == total_upto(
            costs_of(table, record.opcodes, readings),
            record.opcodes.len(),
        ),
        analysis.total_opcodes == record.opcodes.len(),
{
}

/// An analysis lists its categories by descending count.
pub proof fn lemma_operation_counts_descend(
    analysis: AnalysisView,
    table: CostTable,
    record: RecordView,
    readings: Seq<u32>,
)
    requires
        is_analysis_of(analysis, table, record, readings),
        record.opcodes.len() <= usize::MAX,
    ensures
        forall|i: int, j: int|
            0 <= i < j < analysis.operation_counts.len() ==> analysis.operation_counts[i].1
                >= analysis.operation_counts[j].1,
{
    let categories = categories_of(record.opcodes);
    let counts = tally_of(categories);
    let order = choose|order: Seq<usize>| #[trigger]
        is_descending_order(order, count_weights(counts)) && analysis.operation_counts == arranged(
            counts,
            order,
        );
    lemma_tally_histogram(categories);
    assert forall|i: int, j: int| 0 <= i < j < analysis.operation_counts.len() implies analysis.operation_counts[i].1
        >= analysis.operation_counts[j].1 by {
        let first = order[i] as int;
        let second = order[j] as int;
        lemma_occurrences_bounded(categories, counts[first].0);
        lemma_occurrences_bounded(categories, counts[second].0);
        assert(count_weights(counts)[first] == counts[first].1);
        assert(count_weights(counts)[second] == counts[second].1);
    }
}

/// An analysis counts each category of the circuit once, as often as the
/// circuit holds an opcode of it.
pub proof fn lemma_operation_counts_are_histogram(
    analysis: AnalysisView,
    table: CostTable,
    record: RecordView,
    readings: Seq<u32>,
)
    requires
        is_analysis_of(analysis, table, record, readings),
    ensures
        is_histogram(analysis.operation_counts, categories_of(record.opcodes)),
{
    let categories = categories_of(record.opcodes);
    let counts = tally_of(categories);
    let sorted = analysis.operation_counts;
    let order = choose|order: Seq<usize>| #[trigger]
        is_descending_order(order, count_weights(counts)) && sorted == arranged(counts, order);
    lemma_tally_histogram(categories);
    let names = tally_names(counts);
    let sorted_names = tally_names(sorted);
    assert forall|i: int, j: int| 0 <= i < j < sorted_names.len() implies sorted_names[i]
        != sorted_names[j] by {
        let first = order[i] as int;
        let second = order[j] as int;
        assert(sorted_names[i] == names[first]);
        assert(sorted_names[j] == names[second]);
        if first < second {
            assert(names[first] != names[second]);
        } else {
            assert(names[second] != names[first]);
        }
    }
    assert forall|i: int| 0 <= i < sorted.len() implies (#[trigger] sorted[i]).1 == occurrences(
        categories,
        sorted[i].0,
    ) && sorted[i].1 >= 1 by {
        assert(sorted[i] == counts[order[i] as int]);
    }
    assert forall|k: int| 0 <= k < categories.len() implies position_of(
        sorted_names,
        #[trigger] categories[k],
    ) < sorted.len() by {
        let wanted = categories[k];
        let at = position_of(names, wanted);
        lemma_position_of(names, wanted);
        assert(lists(order, at));
        let place = choose|place: int| 0 <= place < order.len() && #[trigger] order[place] == at;
        assert(sorted_names[place] == wanted);
        lemma_position_of(sorted_names, wanted);
    }
}

/// The primitives that the first `count` opcodes call, one name for each
/// call, in program order.
pub open spec fn calls_upto(opcodes: Seq<OpcodeView>, count: nat) -> Seq<Seq<char>>
    decreases count,
{
    if count == 0 {
        Seq::empty()
    } else {
        let earlier = calls_upto(opcodes, (count - 1) as nat);
        if is_black_box(opcodes[count - 1]) {
            earlier.push(opcodes[count - 1].function)
        } else {
            earlier
        }
    }
}

/// The call counts of the usage table are the tally of the calls: each
/// primitive once, in the order of first use, with the number of its calls.
pub proof fn lemma_usage_tallies_calls(opcodes: Seq<OpcodeView>, costs: Seq<nat>, count: nat)
    ensures
        call_counts(usage_upto(opcodes, costs, count)) == tally_of(calls_upto(opcodes, count)),
        is_histogram(call_counts(usage_upto(opcodes, costs, count)), calls_upto(opcodes, count)),
    decreases count,
{
    let calls = calls_upto(opcodes, count);
    if count == 0 {
        assert(call_counts(usage_upto(opcodes, costs, count)) =~= tally_of(calls));
    } else {
        let earlier = usage_upto(opcodes, costs, (count - 1) as nat);
        let earlier_calls = calls_upto(opcodes, (count - 1) as nat);
        lemma_usage_tallies_calls(opcodes, costs, (count - 1) as nat);
        if is_black_box(opcodes[count - 1]) {
            let name = opcodes[count - 1].function;
            lemma_called_counts(earlier, name, costs[count - 1]);
            assert(calls.drop_last() =~= earlier_calls);
            assert(calls.last() == name);
        }
    }
    lemma_tally_histogram(calls);
}

/// What holds of the bottlenecks among the first `count` opcodes: each
/// costs more than the threshold, and is some opcode's category and cost.
pub proof fn lemma_bottlenecks_upto(opcodes: Seq<OpcodeView>, costs: Seq<nat>, count: nat)
    ensures
        forall|j: int|
            0 <= j < bottlenecks_upto(opcodes, costs, count).len() ==> {
                let entry = #[trigger] bottlenecks_upto(opcodes, costs, count)[j];
                &&& entry.1 > BOTTLENECK_THRESHOLD
                &&& exists|i: int|
                    0 <= i < count && entry == (category_of(#[trigger] opcodes[i]), costs[i])
            },
    decreases count,
{
    if count > 0 {
        let earlier = bottlenecks_upto(opcodes, costs, (count - 1) as nat);
        let now = bottlenecks_upto(opcodes, costs, count);
        lemma_bottlenecks_upto(opcodes, costs, (count - 1) as nat);
        assert forall|j: int| 0 <= j < now.len() implies {
            let entry = #[trigger] now[j];
            &&& entry.1 > BOTTLENECK_THRESHOLD
            &&& exists|i: int|
                0 <= i < count && entry == (category_of(#[trigger] opcodes[i]), costs[i])
        } by {
            if j < earlier.len() {
                let entry = earlier[j];
                assert(now[j] == entry);
                let i = choose|i: int|
                    0 <= i < count - 1 && entry == (category_of(#[trigger] opcodes[i]), costs[i]);
                assert(0 <= i < count && entry == (category_of(opcodes[i]), costs[i]));
            } else {
                let i = count - 1;
                assert(now[j] == (category_of(opcodes[i]), costs[i]));
            }
        }
    }
}

/// Every bottleneck of an analysis costs more than the threshold, and is
/// the category and the cost of some opcode of the circuit.
pub proof fn lemma_bottlenecks_are_costly(
    analysis: AnalysisView,
    table: CostTable,
    record: RecordView,
    readings: Seq<u32>,
)
    requires
        is_analysis_of(analysis, table, record, readings),
    ensures
        forall|j: int|
            0 <= j < analysis.bottlenecks.len() ==> {
                let entry = #[trigger] analysis.bottlenecks[j];
                &&& entry.1 > BOTTLENECK_THRESHOLD
                &&& exists|i: int|
                    0 <= i < record.opcodes.len() && entry == (
                        category_of(#[trigger] record.opcodes[i]),
                        opcode_cost(table, record.opcodes[i], reading_at(readings, i)),
                    )
            },
{
    let costs = costs_of(table, record.opcodes, readings);
    lemma_bottlenecks_upto(record.opcodes, costs, record.opcodes.len());
    assert forall|j: int| 0 <= j < analysis.bottlenecks.len() implies {
        let entry = #[trigger] analysis.bottlenecks[j];
        &&& entry.1 > BOTTLENECK_THRESHOLD
        &&& exists|i: int|
            0 <= i < record.opcodes.len() && entry == (
                category_of(#[trigger] record.opcodes[i]),
                opcode_cost(table, record.opcodes[i], reading_at(readings, i)),
            )
    } by {
        let entry = analysis.bottlenecks[j];
        let i = choose|i: int|
            0 <= i < record.opcodes.len() && entry == (
                category_of(#[trigger] record.opcodes[i]),
                costs[i],
            );
        assert(costs[i] == opcode_cost(table, record.opcodes[i], reading_at(readings, i)));
    }
}

/// The running mean of the confidence lies between zero and one.
pub proof fn lemma_confidence_upto(table: CostTable, opcodes: Seq<OpcodeView>, count: nat)
    requires
        table.wf(),
    ensures
        0 <= confidence_upto(table, opcodes, count) <= CONFIDENCE_SCALE,
    decreases count,
{
    if count > 0 {
        let opcode = opcodes[count - 1];
        lemma_position_of(table.names(), opcode.function);
        assert(opcode_confidence(table, opcode) <= CONFIDENCE_SCALE);
        if count > 1 {
            lemma_confidence_upto(table, opcodes, (count - 1) as nat);
        }
    }
}

/// The confidence of an analysis lies between zero and one.
pub proof fn lemma_confidence_bounded(
    analysis: AnalysisView,
    table: CostTable,
    record: RecordView,
    readings: Seq<u32>,
)
    requires
        table.wf(),
        is_analysis_of(analysis, table, record, readings),
    ensures
        0 <= analysis.confidence <= CONFIDENCE_SCALE,
{
    lemma_confidence_upto(table, record.opcodes, record.opcodes.len());
}

/// The analysis of a circuit without opcodes holds no constraints, no
/// bottleneck, no category and no primitive, at a confidence of zero; its
/// proving time has a base of zero and no parallel gain.
pub proof fn lemma_empty_circuit(
    analysis: AnalysisView,
    table: CostTable,
    record: RecordView,
    readings: Seq<u32>,
)
    requires
        is_analysis_of(analysis, table, record, readings),
        record.opcodes.len() == 0,
    ensures
        analysis.constraints == 0,
        analysis.total_opcodes == 0,
        analysis.bottlenecks.len() == 0,
        analysis.operation_counts.len() == 0,
        analysis.black_box_functions.len() == 0,
        analysis.confidence == 0,
        basis_of(analysis).base_microseconds == 0,
        basis_of(analysis).parallel is None,
{
    let counts = tally_of(categories_of(record.opcodes));
    assert(counts.len() == 0);
    let order = choose|order: Seq<usize>| #[trigger]
        is_descending_order(order, count_weights(counts)) && analysis.operation_counts == arranged(
            counts,
            order,
        );
    assert(order.len() == 0);
}

/// The cost of an opcode under the noise of `reading`, and the confidence
/// in it.
fn assess(db: &CostDatabase, opcode: &Opcode, reading: u32) -> (r: (usize, u32))
    ensures
        r.0 == opcode_cost(db@, opcode@, reading as nat),
        r.1 == opcode_confidence(db@, opcode@),
        r.1 <= CONFIDENCE_SCALE,
{
    proof {
        use_type_invariant(db);
        lemma_position_of(db@.names(), opcode@.function);
    }
    if same_text(opcode.kind.as_str(), "BlackBoxFunction") {
        operation_details_at(db, opcode.function.as_str(), reading)
    } else if same_text(opcode.kind.as_str(), "AssertZero") {
        let terms: usize = opcode.terms.len();
        let cost: usize = if terms > 0 {
            terms / 4 + if terms % 4 > 0 {
                1usize
            } else {
                0usize
            }
        } else {
            1
        };
        (cost, CONSTRAINT_CONFIDENCE)
    } else {
        (1, PLAIN_CONFIDENCE)
    }
}

/// The category that `opcode` is counted under.
fn category_name(opcode: &Opcode) -> (name: String)
    ensures
        name@ == category_of(opcode@),
{
    if same_text(opcode.kind.as_str(), "BlackBoxFunction") {
        "External".to_owned()
    } else if same_text(opcode.kind.as_str(), "AssertZero") {
        "Constraint".to_owned()
    } else {
        opcode.kind.clone()
    }
}

/// The entries of `counts`, the largest count first, equal counts in their
/// order in `counts`.
pub fn arrange_descending(counts: &Vec<(String, usize)>) -> (sorted: Vec<(String, usize)>)
    ensures
        is_descending_arrangement(counts_view(sorted@), counts_view(counts@)),
{
    let mut weights: Vec<u128> = Vec::new();
    let mut i: usize = 0;
    while i < counts.len()
        invariant
            i <= counts@.len(),
            weights@.len() == i,
            forall|j: int| 0 <= j < i ==> (#[trigger] weights@[j]) == counts@[j].1 as u128,
        decreases counts@.len() - i,
    {
        weights.push(counts[i].1 as u128);
        i = i + 1;
    }
    assert(weights@ =~= count_weights(counts_view(counts@)));
    let order = descending_order(&weights);
    let mut sorted: Vec<(String, usize)> = Vec::new();
    let mut k: usize = 0;
    while k < order.len()
        invariant
            k <= order@.len(),
            order@.len() == counts@.len(),
            forall|j: int| 0 <= j < order@.len() ==> (#[trigger] order@[j]) < counts@.len(),
            sorted@.len() == k,
            forall|j: int|
                0 <= j < k ==> (#[trigger] sorted@[j]).0@ == counts@[order@[j] as int].0@
                    && sorted@[j].1 == counts@[order@[j] as int].1,
        decreases order@.len() - k,
    {
        let from: usize = order[k];
        sorted.push((counts[from].0.clone(), counts[from].1));
        k = k + 1;
    }
    assert(counts_view(sorted@) =~= arranged(counts_view(counts@), order@));
    sorted
}

/// `analysis` is what the scan of `record` finds against the costs of
/// `table`, the opcode at index `i` read under the noise of the reading at
/// index `i`.  The sum of the costs stops at the largest `usize`.
pub open spec fn is_analysis_of(
    analysis: AnalysisView,
    table: CostTable,
    record: RecordView,
    readings: Seq<u32>,
) -> bool {
    let costs = costs_of(table, record.opcodes, readings);
    let count = record.opcodes.len();
    &&& analysis.constraints == clamped(total_upto(costs, count) as int)
    &&& analysis.total_opcodes == count
    &&& analysis.bottlenecks == bottlenecks_upto(record.opcodes, costs, count)
    &&& is_descending_arrangement(
        analysis.operation_counts,
        tally_of(categories_of(record.opcodes)),
    )
    &&& analysis.black_box_functions == usage_upto(record.opcodes, costs, count)
    &&& analysis.public_inputs == record.public_inputs
    &&& analysis.private_inputs == private_inputs_of(record)
    &&& analysis.return_values == record.return_values
    &&& analysis.confidence == confidence_upto(table, record.opcodes, count)
}

/// Scans `record` against the costs of `db`, the opcode at index `i` read
/// under the noise of the reading at index `i` (of no noise past the end of
/// `readings`).  Beside the analysis it returns how many instances each
/// operation has, in the order of first sight.
pub fn scan_record(db: &CostDatabase, record: &CircuitRecord, readings: &Vec<u32>) -> (r: (
    CircuitAnalysis,
    Vec<(String, usize)>,
))
    ensures
        is_analysis_of(r.0@, db@, record@, readings@),
        counts_view(r.1@) == tally_of(operations_of(record@.opcodes)),
{
    let ghost table = db@;
    let ghost opcodes = record@.opcodes;
    let ghost costs = costs_of(table, opcodes, readings@);
    let ghost categories = categories_of(opcodes);
    let ghost operations = operations_of(opcodes);
    let mut constraints: usize = 0;
    let mut bottlenecks: Vec<(String, usize)> = Vec::new();
    let mut counts: Vec<(String, usize)> = Vec::new();
    let mut usage: Vec<(String, usize, usize)> = Vec::new();
    let mut instances: Vec<(String, usize)> = Vec::new();
    let mut confidence: u32 = 0;
    let mut i: usize = 0;
    assert(counts_view(bottlenecks@) =~= bottlenecks_upto(opcodes, costs, 0));
    assert(usage_view(usage@) =~= usage_upto(opcodes, costs, 0));
    assert(counts_view(counts@) =~= tally_of(categories.take(0)));
    assert(counts_view(instances@) =~= tally_of(operations.take(0)));
    while i < record.opcodes.len()
        invariant
            i <= record.opcodes@.len(),
            table == db@,
            opcodes == record@.opcodes,
            opcodes.len() == record.opcodes@.len(),
            costs == costs_of(table, opcodes, readings@),
            categories == categories_of(opcodes),
            operations == operations_of(opcodes),
            constraints == clamped(total_upto(costs, i as nat) as int),
            counts_view(bottlenecks@) == bottlenecks_upto(opcodes, costs, i as nat),
            counts_view(counts@) == tally_of(categories.take(i as int)),
            counts_view(instances@) == tally_of(operations.take(i as int)),
            usage_view(usage@) == usage_upto(opcodes, costs, i as nat),
            forall|j: int| 0 <= j < counts@.len() ==> (#[trigger] counts@[j]).1 <= i,
            forall|j: int| 0 <= j < instances@.len() ==> (#[trigger] instances@[j]).1 <= i,
            forall|j: int| 0 <= j < usage@.len() ==> (#[trigger] usage@[j]).1 <= i,
            confidence == confidence_upto(table, opcodes, i as nat),
            confidence <= CONFIDENCE_SCALE,
        decreases record.opcodes@.len() - i,
    {
        let opcode = &record.opcodes[i];
        assert(opcodes[i as int] == opcode@);
        let reading = nth_reading(readings, i);
        let (cost, sureness) = assess(db, opcode, reading);
        assert(cost == costs[i as int]);
        let category = category_name(opcode);
        let black_box = same_text(opcode.kind.as_str(), "BlackBoxFunction");

        count_key(&mut counts, category.as_str());
        if black_box {
            count_key(&mut instances, opcode.function.as_str());
            record_call(&mut usage, opcode.function.as_str(), cost);
        } else {
            count_key(&mut instances, opcode.kind.as_str());
        }
        let sum: u128 = constraints as u128 + cost as u128;
        constraints = if sum > usize::MAX as u128 {
            usize::MAX
        } else {
            sum as usize
        };
        if cost > BOTTLENECK_THRESHOLD {
            let ghost before = counts_view(bottlenecks@);
            bottlenecks.push((category, cost));
            assert(counts_view(bottlenecks@) =~= before.push((category_of(opcode@), cost as nat)));
        }
        confidence = if i == 0 {
            sureness
        } else {
            (confidence + sureness) / 2
        };
        proof {
            let seen = (i + 1) as nat;
            lemma_tally_step(categories, i as int);
            lemma_tally_step(operations, i as int);
            lemma_tally_histogram(categories.take(i + 1));
            lemma_tally_histogram(operations.take(i + 1));
            assert forall|j: int| 0 <= j < counts@.len() implies (#[trigger] counts@[j]).1
                <= i + 1 by {
                let entry = counts_view(counts@)[j];
                assert(entry.1 == counts@[j].1);
                lemma_occurrences_bounded(categories.take(i + 1), entry.0);
            }
            assert forall|j: int| 0 <= j < instances@.len() implies (#[trigger] instances@[j]).1
                <= i + 1 by {
                let entry = counts_view(instances@)[j];
                assert(entry.1 == instances@[j].1);
                lemma_occurrences_bounded(operations.take(i + 1), entry.0);
            }
            lemma_usage_bounded(opcodes, costs, seen);
            assert forall|j: int| 0 <= j < usage@.len() implies (#[trigger] usage@[j]).1 <= i
                + 1 by {
                let entry = usage_view(usage@)[j];
                assert(entry.1 == usage@[j].1);
            }
        }
        i = i + 1;
    }
    assert(categories.take(i as int) =~= categories);
    assert(operations.take(i as int) =~= operations);
    let operation_counts = arrange_descending(&counts);
    let analysis = CircuitAnalysis {
        constraints,
        bottlenecks,
        total_opcodes: record.opcodes.len(),
        operation_counts,
        black_box_functions: usage,
        public_inputs: record.public_inputs,
        private_inputs: count_private_inputs(record),
        return_values: record.return_values,
        confidence,
    };
    (analysis, instances)
}

/// The unit cost of the primitive `name`, if the circuit calls it exactly
/// once.
pub open spec fn single_use_cost(usage: Seq<(Seq<char>, nat, nat)>, name: Seq<char>) -> Option<
    nat,
> {
    let at = position_of(usage_names(usage), name);
    if at < usage.len() && usage[at].1 == 1 {
        Some(usage[at].2)
    } else {
        None
    }
}

/// The table after the feedback of the operation at `index`.  An operation
/// named `BlackBoxFunction` feeds nothing back.  A primitive called once
/// feeds back its unit cost, under the noise of the first reading of the
/// operation's pair.  `AssertZero` with at least ten instances feeds back
/// the circuit's constraints per instance, rounded down, under the noise of
/// the second.
pub open spec fn feedback_step(
    table: CostTable,
    operation: (Seq<char>, nat),
    index: int,
    usage: Seq<(Seq<char>, nat, nat)>,
    constraints: nat,
    readings: Seq<u32>,
    stamp: Seq<char>,
) -> CostTable {
    if operation.0 == "BlackBoxFunction"@ || operation.1 < 1 {
        table
    } else {
        let first = match single_use_cost(usage, operation.0) {
            Some(cost) => table.updated(
                operation.0,
                cost,
                reading_at(readings, pair_position(index, false)),
                stamp,
            ),
            None => table,
        };
        if operation.0 == "AssertZero"@ && operation.1 >= FEEDBACK_INSTANCES {
            first.updated(
                operation.0,
                constraints / operation.1,
                reading_at(readings, pair_position(index, true)),
                stamp,
            )
        } else {
            first
        }
    }
}

/// The table after the feedback of the first `count` operations.
pub open spec fn feedback_upto(
    table: CostTable,
    operations: Seq<(Seq<char>, nat)>,
    usage: Seq<(Seq<char>, nat, nat)>,
    constraints: nat,
    readings: Seq<u32>,
    stamp: Seq<char>,
    count: nat,
) -> CostTable
    decreases count,
{
    if count == 0 {
        table
    } else {
        feedback_step(
            feedback_upto(table, operations, usage, constraints, readings, stamp, (count - 1) as nat),
            operations[count - 1],
            count - 1,
            usage,
            constraints,
            readings,
            stamp,
        )
    }
}

/// Feeds what an analysis measured back into the database: for each
/// operation of `instances` in turn, what `feedback_step` says.
pub fn apply_feedback(
    db: &mut CostDatabase,
    analysis: &CircuitAnalysis,
    instances: &Vec<(String, usize)>,
    readings: &Vec<u32>,
    stamp: &str,
)
    ensures
        final(db)@ == feedback_upto(
            old(db)@,
            counts_view(instances@),
            analysis@.black_box_functions,
            analysis@.constraints,
            readings@,
            stamp@,
            instances@.len(),
        ),
{
    let ghost start = db@;
    let ghost operations = counts_view(instances@);
    let ghost usage = analysis@.black_box_functions;
    let ghost constraints = analysis@.constraints;
    let mut j: usize = 0;
    while j < instances.len()
        invariant
            j <= instances@.len(),
            operations == counts_view(instances@),
            usage == analysis@.black_box_functions,
            constraints == analysis@.constraints,
            db@ == feedback_upto(
                start,
                operations,
                usage,
                constraints,
                readings@,
                stamp@,
                j as nat,
            ),
        decreases instances@.len() - j,
    {
        let name = instances[j].0.as_str();
        let count: usize = instances[j].1;
        assert(operations[j as int] == (name@, count as nat));
        if !same_text(name, "BlackBoxFunction") && count >= 1 {
            let at = find_usage(&analysis.black_box_functions, name);
            if at < analysis.black_box_functions.len() && analysis.black_box_functions[at].1 == 1 {
                let cost: usize = analysis.black_box_functions[at].2;
                assert(usage[at as int].2 == cost);
                let reading = paired_reading(readings, j, false);
                update_cost_database_at(db, name, cost, reading, stamp);
            }
            if same_text(name, "AssertZero") && count >= FEEDBACK_INSTANCES {
                let mean: usize = analysis.constraints / count;
                let reading = paired_reading(readings, j, true);
                update_cost_database_at(db, name, mean, reading, stamp);
            }
        }
        j = j + 1;
    }
}

/// The noise under which one analysis runs.
#[derive(Clone, Debug)]
pub struct AnalysisNoise {
    /// A clock reading for each opcode, by its index.
    pub scan: Vec<u32>,
    /// Two clock readings for each operation, by the order of first sight.
    pub feedback: Vec<u32>,
    /// The time at which the database is updated.
    pub stamp: String,
}

/// What an analysis of `record` leaves behind, given the noise: `analysis`
/// is the scan of `record` against `before`, and `after` is `before` with
/// the feedback of each of the record's operations.
pub open spec fn is_outcome(
    analysis: AnalysisView,
    after: CostTable,
    before: CostTable,
    record: RecordView,
    scan: Seq<u32>,
    feedback: Seq<u32>,
    stamp: Seq<char>,
) -> bool {
    let operations = tally_of(operations_of(record.opcodes));
    &&& is_analysis_of(analysis, before, record, scan)
    &&& after == feedback_upto(
        before,
        operations,
        analysis.black_box_functions,
        analysis.constraints,
        feedback,
        stamp,
        operations.len(),
    )
}

/// Analyses `record` under the given noise and feeds the measurements back
/// into the database.
pub fn analyze_record_at(db: &mut CostDatabase, record: &CircuitRecord, noise: &AnalysisNoise) -> (analysis:
    CircuitAnalysis)
    ensures
        is_outcome(
            analysis@,
            final(db)@,
            old(db)@,
            record@,
            noise.scan@,
            noise.feedback@,
            noise.stamp@,
        ),
{
    let (analysis, instances) = scan_record(db, record, &noise.scan);
    apply_feedback(db, &analysis, &instances, &noise.feedback, noise.stamp.as_str());
    analysis
}

/// Analyses `record` under the noise that the wall clock picks and feeds
/// the measurements back into the database, stamped with the local time.
pub fn analyze_record(db: &mut CostDatabase, record: &CircuitRecord) -> (analysis: CircuitAnalysis)
    ensures
        exists|scan: Seq<u32>, feedback: Seq<u32>, stamp: Seq<char>| #[trigger]
            is_outcome(analysis@, final(db)@, old(db)@, record@, scan, feedback, stamp),
{
    let scan = clock_readings(record.opcodes.len());
    let (analysis, instances) = scan_record(db, record, &scan);
    let wanted: usize = if instances.len() <= usize::MAX / 2 {
        2 * instances.len()
    } else {
        usize::MAX
    };
    let feedback = clock_readings(wanted);
    let stamp = local_timestamp();
    apply_feedback(db, &analysis, &instances, &feedback, stamp.as_str());
    assert(is_outcome(analysis@, db@, old(db)@, record@, scan@, feedback@, stamp@));
    analysis
}

/// The result of an analysis, as a value.
pub open spec fn result_view(result: Result<CircuitAnalysis, AnalysisError>) -> Result<
    AnalysisView,
    AnalysisError,
> {
    match result {
        Ok(analysis) => Ok(analysis@),
        Err(error) => Err(error),
    }
}

/// What one run of the analyzer on the text `json` does: it fails, and
/// leaves the database as it was, exactly when the text is not one JSON
/// value; else it returns the analysis of the circuit described and leaves
/// the database with its measurements fed back, under some noise.
pub open spec fn is_run(
    result: Result<AnalysisView, AnalysisError>,
    after: CostTable,
    before: CostTable,
    json: Seq<char>,
) -> bool {
    match json_document(json) {
        Some(doc) => result is Ok && exists|scan: Seq<u32>, feedback: Seq<u32>, stamp: Seq<char>| #[trigger]
            is_outcome(result->Ok_0, after, before, record_of(doc), scan, feedback, stamp),
        None => result == Err::<AnalysisView, AnalysisError>(AnalysisError::DecodeFailure) && after
            == before,
    }
}

/// Analyses the circuit that the JSON text `json` describes, and feeds the
/// measurements back into the database.  It fails, with `DecodeFailure` and
/// the database unchanged, exactly when the text is not one JSON value.
pub fn analyze_circuit(db: &mut CostDatabase, json: &str) -> (r: Result<
    CircuitAnalysis,
    AnalysisError,
>)
    ensures
        is_run(result_view(r), final(db)@, old(db)@, json@),
{
    let parsed = parse_circuit(json);
    match parsed {
        Ok(record) => {
            let analysis = analyze_record(db, &record);
            let ghost found = analysis@;
            let r: Result<CircuitAnalysis, AnalysisError> = Ok(analysis);
            proof {
                let (scan, feedback, stamp) = choose|
                    scan: Seq<u32>,
                    feedback: Seq<u32>,
                    stamp: Seq<char>,
                | #[trigger]
                    is_outcome(found, db@, old(db)@, record@, scan, feedback, stamp);
                assert(result_view(r)->Ok_0 == found);
                assert(is_outcome(
                    result_view(r)->Ok_0,
                    db@,
                    old(db)@,
                    record_of(json_document(json@)->0),
                    scan,
                    feedback,
                    stamp,
                ));
            }
            r
        },
        Err(error) => Err(error),
    }
}

/// A category whose name holds `Memory` or `Array`.
pub open spec fn is_memory_category(name: Seq<char>) -> bool {
    is_substring("Memory"@, name) || is_substring("Array"@, name)
}

/// A primitive whose name holds `hash` or `Hash`.
pub open spec fn is_hash_name(name: Seq<char>) -> bool {
    is_substring("hash"@, name) || is_substring("Hash"@, name)
}

/// Some category of the circuit works on memory.
pub open spec fn uses_memory(counts: Seq<(Seq<char>, nat)>) -> bool {
    exists|i: int| 0 <= i < counts.len() && is_memory_category((#[trigger] counts[i]).0)
}

/// The number of calls of hash primitives among the first `count` entries.
pub open spec fn hash_calls_upto(usage: Seq<(Seq<char>, nat, nat)>, count: nat) -> nat
    decreases count,
{
    if count == 0 {
        0
    } else {
        hash_calls_upto(usage, (count - 1) as nat) + if is_hash_name(usage[count - 1].0) {
            usage[count - 1].1
        } else {
            0
        }
    }
}

/// The circuit counts as sequential: it works on memory, or it calls hash
/// primitives at most once.
pub open spec fn is_sequential(analysis: AnalysisView) -> bool {
    uses_memory(analysis.operation_counts) || hash_calls_upto(
        analysis.black_box_functions,
        analysis.black_box_functions.len(),
    ) <= 1
}

/// Whether the circuit counts as sequential, which halves what parallel
/// proving can gain.
pub fn has_sequential_dependencies(analysis: &CircuitAnalysis) -> (r: bool)
    ensures
        r == is_sequential(analysis@),
{
    let ghost counts = analysis@.operation_counts;
    let ghost usage = analysis@.black_box_functions;
    let mut i: usize = 0;
    while i < analysis.operation_counts.len()
        invariant
            i <= analysis.operation_counts@.len(),
            counts == analysis@.operation_counts,
            forall|j: int| 0 <= j < i ==> !is_memory_category((#[trigger] counts[j]).0),
        decreases analysis.operation_counts@.len() - i,
    {
        let name = analysis.operation_counts[i].0.as_str();
        if contains_text(name, "Memory") || contains_text(name, "Array") {
            assert(is_memory_category(counts[i as int].0));
            return true;
        }
        i = i + 1;
    }
    let mut calls: usize = 0;
    let mut k: usize = 0;
    while k < analysis.black_box_functions.len()
        invariant
            k <= analysis.black_box_functions@.len(),
            usage == analysis@.black_box_functions,
            calls <= 2,
            calls <= 1 ==> calls == hash_calls_upto(usage, k as nat),
            calls == 2 ==> hash_calls_upto(usage, k as nat) >= 2,
        decreases analysis.black_box_functions@.len() - k,
    {
        let name = analysis.black_box_functions[k].0.as_str();
        let count: usize = analysis.black_box_functions[k].1;
        assert(usage[k as int].0 == name@ && usage[k as int].1 == count);
        if contains_text(name, "hash") || contains_text(name, "Hash") {
            calls = if count >= 2 || calls + count >= 2 {
                2
            } else {
                calls + count
            };
        }
        k = k + 1;
    }
    calls <= 1
}

/// How much parallel proving can gain on a circuit: the proving time is
/// cut by `gain_hundredths` hundredths of a tenth of the square root of the
/// public inputs, and by `limit_tenths` tenths of itself at most.
#[derive(Clone, Copy, Debug, PartialEq, Eq)]
pub struct ParallelGain {
    pub gain_hundredths: u32,
    pub limit_tenths: u32,
}

/// What the estimate of the proving time rests on.  The estimate itself is
/// a fraction: the base time, scaled by the state of the hardware and cut
/// by the parallel gain.
#[derive(Clone, Copy, Debug, PartialEq, Eq)]
pub struct ProvingTimeBasis {
    /// The time for the constraints alone, in microseconds: a fiftieth of
    /// a millisecond for each.
    pub base_microseconds: u128,
    /// The parallel gain to apply; none for a circuit without constraints.
    pub parallel: Option<ParallelGain>,
}

/// The gain on a sequential circuit: 0.15, at most a half.
pub open spec fn sequential_gain() -> ParallelGain {
    ParallelGain { gain_hundredths: 15, limit_tenths: 5 }
}

/// The gain on any other circuit: 0.3, at most seven tenths.
pub open spec fn independent_gain() -> ParallelGain {
    ParallelGain { gain_hundredths: 30, limit_tenths: 7 }
}

/// The basis of the estimate for an analysis.
pub open spec fn basis_of(analysis: AnalysisView) -> ProvingTimeBasis {
    ProvingTimeBasis {
        base_microseconds: (analysis.constraints * 20) as u128,
        parallel: if analysis.constraints == 0 {
            None
        } else if is_sequential(analysis) {
            Some(sequential_gain())
        } else {
            Some(independent_gain())
        },
    }
}

/// What the estimate of the proving time of the circuit rests on.
pub fn proving_time_basis(analysis: &CircuitAnalysis) -> (basis: ProvingTimeBasis)
    ensures
        basis == basis_of(analysis@),
{
    let parallel = if analysis.constraints == 0 {
        None
    } else if has_sequential_dependencies(analysis) {
        Some(ParallelGain { gain_hundredths: 15, limit_tenths: 5 })
    } else {
        Some(ParallelGain { gain_hundredths: 30, limit_tenths: 7 })
    };
    ProvingTimeBasis { base_microseconds: analysis.constraints as u128 * 20, parallel }
}

/// How the constraints of a circuit divide among external primitives,
/// arithmetic and the rest.
#[derive(Clone, Copy, Debug, PartialEq, Eq)]
pub struct ConstraintBreakdown {
    /// Calls times unit cost, summed over the external primitives.
    pub external: usize,
    /// The opcodes of the categories that are named for assertions or
    /// arithmetic.
    pub arithmetic: usize,
    /// What is left of the constraints.
    pub other: usize,
}

/// A category named for assertions or arithmetic.
pub open spec fn is_arithmetic_category(name: Seq<char>) -> bool {
    is_substring("Assert"@, name) || is_substring("Arithmetic"@, name)
}

/// Calls times unit cost, summed over the first `count` primitives.
pub open spec fn external_upto(usage: Seq<(Seq<char>, nat, nat)>, count: nat) -> nat
    decreases count,
{
    if count == 0 {
        0
    } else {
        external_upto(usage, (count - 1) as nat) + usage[count - 1].1 * usage[count - 1].2
    }
}

/// The opcodes of the arithmetic categories among the first `count`.
pub open spec fn arithmetic_upto(counts: Seq<(Seq<char>, nat)>, count: nat) -> nat
    decreases count,
{
    if count == 0 {
        0
    } else {
        arithmetic_upto(counts, (count - 1) as nat) + if is_arithmetic_category(
            counts[count - 1].0,
        ) {
            counts[count - 1].1
        } else {
            0
        }
    }
}

/// `whole` less `part`, and zero where `part` is the larger.
pub open spec fn remainder(whole: nat, part: nat) -> nat {
    if whole >= part {
        (whole - part) as nat
    } else {
        0
    }
}

/// The breakdown of an analysis.  Each sum stops at the largest `usize`,
/// and the rest at zero.
pub open spec fn breakdown_of(analysis: AnalysisView) -> ConstraintBreakdown {
    let external = clamped(
        external_upto(analysis.black_box_functions, analysis.black_box_functions.len()) as int,
    );
    let arithmetic = clamped(
        arithmetic_upto(analysis.operation_counts, analysis.operation_counts.len()) as int,
    );
    ConstraintBreakdown {
        external,
        arithmetic,
        other: remainder(remainder(analysis.constraints, external as nat), arithmetic as nat) as usize,
    }
}

/// `sum` and `more` added, stopping at the largest `usize`.
fn add_clamped(sum: usize, more: u128) -> (r: usize)
    ensures
        r == clamped(sum + more),
{
    if more > usize::MAX as u128 {
        usize::MAX
    } else if sum as u128 + more > usize::MAX as u128 {
        usize::MAX
    } else {
        (sum as u128 + more) as usize
    }
}

/// How the constraints of the circuit divide among external primitives,
/// arithmetic and the rest.
pub fn constraint_breakdown(analysis: &CircuitAnalysis) -> (breakdown: ConstraintBreakdown)
    ensures
        breakdown == breakdown_of(analysis@),
{
    let ghost usage = analysis@.black_box_functions;
    let ghost counts = analysis@.operation_counts;
    let mut external: usize = 0;
    let mut i: usize = 0;
    while i < analysis.black_box_functions.len()
        invariant
            i <= analysis.black_box_functions@.len(),
            usage == analysis@.black_box_functions,
            external == clamped(external_upto(usage, i as nat) as int),
        decreases analysis.black_box_functions@.len() - i,
    {
        let calls: usize = analysis.black_box_functions[i].1;
        let unit: usize = analysis.black_box_functions[i].2;
        assert(usage[i as int].1 == calls && usage[i as int].2 == unit);
        assert(0 <= calls * unit <= 0xffff_ffff_ffff_ffff * 0xffff_ffff_ffff_ffff) by (nonlinear_arith)
            requires
                0 <= calls <= 0xffff_ffff_ffff_ffff,
                0 <= unit <= 0xffff_ffff_ffff_ffff,
        ;
        external = add_clamped(external, calls as u128 * unit as u128);
        i = i + 1;
    }
    let mut arithmetic: usize = 0;
    let mut k: usize = 0;
    while k < analysis.operation_counts.len()
        invariant
            k <= analysis.operation_counts@.len(),
            counts == analysis@.operation_counts,
            arithmetic == clamped(arithmetic_upto(counts, k as nat) as int),
        decreases analysis.operation_counts@.len() - k,
    {
        let name = analysis.operation_counts[k].0.as_str();
        let count: usize = analysis.operation_counts[k].1;
        assert(counts[k as int].0 == name@ && counts[k as int].1 == count);
        if contains_text(name, "Assert") || contains_text(name, "Arithmetic") {
            arithmetic = add_clamped(arithmetic, count as u128);
        }
        k = k + 1;
    }
    let after_external: usize = if analysis.constraints >= external {
        analysis.constraints - external
    } else {
        0
    };
    let other: usize = if after_external >= arithmetic {
        after_external - arithmetic
    } else {
        0
    };
    ConstraintBreakdown { external, arithmetic, other }
}

} // verus!
