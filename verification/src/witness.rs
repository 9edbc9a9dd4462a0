//! Counting the witnesses of a circuit.

use vstd::prelude::*;
use crate::record::{CircuitRecord, OpcodeView, RecordView};
use crate::text::same_text;

verus! {

/// The witnesses that a list of terms, inputs or outputs names.
pub open spec fn names_in(list: Seq<Option<Seq<char>>>) -> Set<Seq<char>> {
    Set::new(|name: Seq<char>| list.contains(Some(name)))
}

/// The witnesses that an opcode refers to: those of its terms if it is an
/// arithmetic constraint, those of its inputs and outputs if it calls an
/// external primitive, and none otherwise.
pub open spec fn witnesses_in(opcode: OpcodeView) -> Set<Seq<char>> {
    if opcode.kind == "AssertZero"@ {
        names_in(opcode.terms)
    } else if opcode.kind == "BlackBoxFunction"@ {
        names_in(opcode.inputs).union(names_in(opcode.outputs))
    } else {
        Set::empty()
    }
}

/// The witnesses that the first `count` opcodes refer to.
pub open spec fn witnesses_upto(opcodes: Seq<OpcodeView>, count: nat) -> Set<Seq<char>>
    decreases count,
{
    if count == 0 {
        Set::empty()
    } else {
        witnesses_upto(opcodes, (count - 1) as nat).union(witnesses_in(opcodes[count - 1]))
    }
}

/// The number of witnesses of a circuit: the number that the record
/// declares, else the number of distinct witnesses that its opcodes refer to.
pub open spec fn witness_total(record: RecordView) -> nat {
    match record.witnesses {
        Some(count) => count,
        None => witnesses_upto(record.opcodes, record.opcodes.len()).len(),
    }
}

/// The number of private inputs: the witnesses that are not public inputs.
pub open spec fn private_inputs_of(record: RecordView) -> nat {
    if witness_total(record) >= record.public_inputs {
        (witness_total(record) - record.public_inputs) as nat
    } else {
        0
    }
}

/// Where there are at least as many witnesses as public inputs, private and
/// public inputs together are the witnesses.
pub proof fn lemma_inputs_partition_witnesses(record: RecordView)
    requires
        witness_total(record) >= record.public_inputs,
    ensures
        private_inputs_of(record) + record.public_inputs == witness_total(record),
{
}

/// The characters of each string.
pub open spec fn texts_of(strings: Seq<String>) -> Seq<Seq<char>> {
    Seq::new(strings.len(), |i: int| strings[i]@)
}

/// Whether `name` is among `seen`.
pub fn is_noted(seen: &Vec<String>, name: &str) -> (found: bool)
    ensures
        found == texts_of(seen@).contains(name@),
{
    let mut i: usize = 0;
    while i < seen.len()
        invariant
            i <= seen@.len(),
            forall|j: int| 0 <= j < i ==> texts_of(seen@)[j] != name@,
        decreases seen@.len() - i,
    {
        if same_text(seen[i].as_str(), name) {
            assert(texts_of(seen@)[i as int] == name@);
            return true;
        }
        i = i + 1;
    }
    false
}

/// Adds to `seen` the witnesses that `list` names and `seen` lacks.
fn note_names(seen: &mut Vec<String>, list: &Vec<Option<String>>)
    requires
        texts_of(old(seen)@).no_duplicates(),
    ensures
        texts_of(final(seen)@).no_duplicates(),
        texts_of(final(seen)@).to_set() == texts_of(old(seen)@).to_set().union(
            names_in(list.deep_view()),
        ),
{
    let ghost start = texts_of(seen@).to_set();
    let ghost names = list.deep_view();
    let mut i: usize = 0;
    assert(texts_of(seen@).to_set() =~= start.union(names_in(names.take(0))));
    while i < list.len()
        invariant
            i <= list@.len(),
            names == list.deep_view(),
            names.len() == list@.len(),
            texts_of(seen@).no_duplicates(),
            texts_of(seen@).to_set() == start.union(names_in(names.take(i as int))),
        decreases list@.len() - i,
    {
        let ghost before = texts_of(seen@);
        let ghost sofar = names.take(i as int);
        let ghost longer = names.take(i + 1);
        assert(longer =~= sofar.push(names[i as int]));
        assert(names[i as int] == list@[i as int].deep_view());
        match &list[i] {
            Some(name) => {
                assert(names[i as int] == Some(name@));
                if !is_noted(seen, name.as_str()) {
                    seen.push(name.clone());
                    assert(texts_of(seen@) =~= before.push(name@));
                    proof {
                        before.lemma_push_to_set_commute(name@);
                    }
                }
                assert(names_in(longer) =~= names_in(sofar).insert(name@)) by {
                    assert forall|other: Seq<char>| names_in(longer).contains(other)
                        == names_in(sofar).insert(name@).contains(other) by {
                        if longer.contains(Some(other)) {
                            let at = choose|k: int| 0 <= k < longer.len() && longer[k] == Some(other);
                            if at < i {
                                assert(sofar[at] == Some(other));
                            }
                        }
                        if sofar.contains(Some(other)) {
                            let at = choose|k: int| 0 <= k < sofar.len() && sofar[k] == Some(other);
                            assert(longer[at] == Some(other));
                        }
                        if other == name@ {
                            assert(longer[i as int] == Some(other));
                        }
                    }
                }
                assert(texts_of(seen@).to_set() =~= start.union(names_in(longer)));
            },
            None => {
                assert(names_in(longer) =~= names_in(sofar)) by {
                    assert forall|other: Seq<char>| names_in(longer).contains(other)
                        == names_in(sofar).contains(other) by {
                        if longer.contains(Some(other)) {
                            let at = choose|k: int| 0 <= k < longer.len() && longer[k] == Some(other);
                            assert(sofar[at] == Some(other));
                        }
                        if sofar.contains(Some(other)) {
                            let at = choose|k: int| 0 <= k < sofar.len() && sofar[k] == Some(other);
                            assert(longer[at] == Some(other));
                        }
                    }
                }
            },
        }
        i = i + 1;
    }
    assert(names.take(i as int) =~= names);
}

/// The number of witnesses of the circuit.
pub fn count_witnesses(record: &CircuitRecord) -> (count: usize)
    ensures
        count == witness_total(record@),
{
    match record.witnesses {
        Some(declared) => declared,
        None => {
            let ghost opcodes = record@.opcodes;
            let mut seen: Vec<String> = Vec::new();
            let mut i: usize = 0;
            assert(texts_of(seen@).to_set() =~= Set::<Seq<char>>::empty());
            while i < record.opcodes.len()
                invariant
                    i <= record.opcodes@.len(),
                    opcodes == record@.opcodes,
                    opcodes.len() == record.opcodes@.len(),
                    texts_of(seen@).no_duplicates(),
                    texts_of(seen@).to_set() == witnesses_upto(opcodes, i as nat),
                decreases record.opcodes@.len() - i,
            {
                let opcode = &record.opcodes[i];
                assert(opcodes[i as int] == opcode@);
                let ghost before = texts_of(seen@).to_set();
                if same_text(opcode.kind.as_str(), "AssertZero") {
                    note_names(&mut seen, &opcode.terms);
                } else if same_text(opcode.kind.as_str(), "BlackBoxFunction") {
                    note_names(&mut seen, &opcode.inputs);
                    note_names(&mut seen, &opcode.outputs);
                    assert(texts_of(seen@).to_set() =~= before.union(witnesses_in(opcode@)));
                } else {
                    assert(before =~= before.union(witnesses_in(opcode@)));
                }
                i = i + 1;
            }
            proof {
                texts_of(seen@).unique_seq_to_set();
            }
            seen.len()
        },
    }
}

/// The number of private inputs of the circuit.
pub fn count_private_inputs(record: &CircuitRecord) -> (count: usize)
    ensures
        count == private_inputs_of(record@),
{
    let witnesses = count_witnesses(record);
    if witnesses >= record.public_inputs {
        witnesses - record.public_inputs
    } else {
        0
    }
}

} // verus!
