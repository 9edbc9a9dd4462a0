//! Circuit records: what an analysis reads of a compiled circuit, and how
//! it is read out of a JSON document.

use vstd::prelude::*;
use crate::error::AnalysisError;
use crate::json::{
    json_as_array, json_as_object, json_as_str, json_document, json_get, json_model,
    json_models, json_object_len, parse_json, JsonModel,
};

verus! {

/// One opcode of a circuit.
#[derive(Clone, Debug)]
pub struct Opcode {
    /// The opcode's type; `"Unknown"` where the document gives none.
    pub kind: String,
    /// The primitive that a black-box opcode calls; `"unknown"` where the
    /// document gives none.
    pub function: String,
    /// For each term of the opcode's expression, the witness it names.
    pub terms: Vec<Option<String>>,
    /// For each input of the opcode, the witness it names.
    pub inputs: Vec<Option<String>>,
    /// For each output of the opcode, the witness it names.
    pub outputs: Vec<Option<String>>,
}

/// An opcode as a value.
pub struct OpcodeView {
    pub kind: Seq<char>,
    pub function: Seq<char>,
    pub terms: Seq<Option<Seq<char>>>,
    pub inputs: Seq<Option<Seq<char>>>,
    pub outputs: Seq<Option<Seq<char>>>,
}

impl View for Opcode {
    type V = OpcodeView;

    open spec fn view(&self) -> OpcodeView {
        OpcodeView {
            kind: self.kind@,
            function: self.function@,
            terms: self.terms.deep_view(),
            inputs: self.inputs.deep_view(),
            outputs: self.outputs.deep_view(),
        }
    }
}

/// A circuit record.
#[derive(Clone, Debug)]
pub struct CircuitRecord {
    /// The opcodes, in program order.
    pub opcodes: Vec<Opcode>,
    /// The number of public inputs.
    pub public_inputs: usize,
    /// The number of return values.
    pub return_values: usize,
    /// The number of witnesses that the record declares, if it declares any.
    pub witnesses: Option<usize>,
}

/// A circuit record as a value.
pub struct RecordView {
    pub opcodes: Seq<OpcodeView>,
    pub public_inputs: nat,
    pub return_values: nat,
    pub witnesses: Option<nat>,
}

/// The views of a sequence of opcodes.
pub open spec fn opcode_views(opcodes: Seq<Opcode>) -> Seq<OpcodeView> {
    Seq::new(opcodes.len(), |i: int| opcodes[i]@)
}

impl View for CircuitRecord {
    type V = RecordView;

    open spec fn view(&self) -> RecordView {
        RecordView {
            opcodes: opcode_views(self.opcodes@),
            public_inputs: self.public_inputs as nat,
            return_values: self.return_values as nat,
            witnesses: match self.witnesses {
                Some(count) => Some(count as nat),
                None => None,
            },
        }
    }
}

/// The string under `key`, or `fallback` where there is none.
pub open spec fn text_or(doc: JsonModel, key: Seq<char>, fallback: Seq<char>) -> Seq<char> {
    match doc.member(key).text() {
        Some(chars) => chars,
        None => fallback,
    }
}

/// For each element of an array, the string under its key `variable`.
pub open spec fn variables_of(doc: JsonModel) -> Seq<Option<Seq<char>>> {
    Seq::new(doc.elements().len(), |i: int| doc.elements()[i].member("variable"@).text())
}

/// The opcode that a JSON value describes.
pub open spec fn opcode_of(doc: JsonModel) -> OpcodeView {
    OpcodeView {
        kind: text_or(doc, "type"@, "Unknown"@),
        function: text_or(doc, "function"@, "unknown"@),
        terms: variables_of(doc.member("expression"@).member("terms"@)),
        inputs: variables_of(doc.member("inputs"@)),
        outputs: variables_of(doc.member("outputs"@)),
    }
}

/// The record that a JSON document describes.  A missing or ill-typed field
/// counts as empty.
pub open spec fn record_of(doc: JsonModel) -> RecordView {
    RecordView {
        opcodes: Seq::new(
            doc.member("opcodes"@).elements().len(),
            |i: int| opcode_of(doc.member("opcodes"@).elements()[i]),
        ),
        public_inputs: doc.member("public_inputs"@).elements().len(),
        return_values: doc.member("return_values"@).elements().len(),
        witnesses: doc.member("witnesses"@).member_count(),
    }
}

/// What an optional value holds: `Null` where there is none.
pub open spec fn model_of(value: Option<&serde_json::Value>) -> JsonModel {
    match value {
        Some(inner) => json_model(*inner),
        None => JsonModel::Null,
    }
}

/// The member `key` of `value`.
fn member<'a>(value: Option<&'a serde_json::Value>, key: &str) -> (r: Option<
    &'a serde_json::Value,
>)
    ensures
        model_of(r) == model_of(value).member(key@),
{
    match value {
        Some(inner) => json_get(inner, key),
        None => None,
    }
}

/// The elements of `value`, if it is an array.
fn elements<'a>(value: Option<&'a serde_json::Value>) -> (r: Option<&'a Vec<serde_json::Value>>)
    ensures
        match r {
            Some(items) => json_models(items@) == model_of(value).elements(),
            None => model_of(value).elements().len() == 0,
        },
{
    match value {
        Some(inner) => json_as_array(inner),
        None => None,
    }
}

/// The number of elements of `value`; zero if it is no array.
fn element_count(value: Option<&serde_json::Value>) -> (count: usize)
    ensures
        count == model_of(value).elements().len(),
{
    match elements(value) {
        Some(items) => items.len(),
        None => 0,
    }
}

/// The number of members of `value`, if it is an object.
fn member_count(value: Option<&serde_json::Value>) -> (count: Option<usize>)
    ensures
        match count {
            Some(number) => model_of(value).member_count() == Some(number as nat),
            None => model_of(value).member_count() is None,
        },
{
    match value {
        Some(inner) => match json_as_object(inner) {
            Some(object) => Some(json_object_len(object)),
            None => None,
        },
        None => None,
    }
}

/// The string under `key` of `value`, or `fallback`.
fn text_field(value: &serde_json::Value, key: &str, fallback: &str) -> (r: String)
    ensures
        r@ == text_or(json_model(*value), key@, fallback@),
{
    match json_get(value, key) {
        Some(inner) => match json_as_str(inner) {
            Some(chars) => chars.to_owned(),
            None => fallback.to_owned(),
        },
        None => fallback.to_owned(),
    }
}

/// For each element of `value`, the witness it names.
fn read_variables(value: Option<&serde_json::Value>) -> (names: Vec<Option<String>>)
    ensures
        names.deep_view() == variables_of(model_of(value)),
{
    let mut names: Vec<Option<String>> = Vec::new();
    match elements(value) {
        Some(items) => {
            let mut i: usize = 0;
            while i < items.len()
                invariant
                    i <= items@.len(),
                    json_models(items@) == model_of(value).elements(),
                    names@.len() == i,
                    forall|j: int|
                        0 <= j < i ==> (#[trigger] names@[j]).deep_view() == variables_of(
                            model_of(value),
                        )[j],
                decreases items@.len() - i,
            {
                let holder = json_get(&items[i], "variable");
                let name: Option<String> = match holder {
                    Some(inner) => match json_as_str(inner) {
                        Some(chars) => Some(chars.to_owned()),
                        None => None,
                    },
                    None => None,
                };
                assert(json_models(items@)[i as int] == json_model(items@[i as int]));
                assert(name.deep_view() == variables_of(model_of(value))[i as int]);
                names.push(name);
                i = i + 1;
            }
            assert(names.deep_view() =~= variables_of(model_of(value)));
        },
        None => {
            assert(names.deep_view() =~= variables_of(model_of(value)));
        },
    }
    names
}

/// The opcode that `value` describes.
fn read_opcode(value: &serde_json::Value) -> (opcode: Opcode)
    ensures
        opcode@ == opcode_of(json_model(*value)),
{
    let kind = text_field(value, "type", "Unknown");
    let function = text_field(value, "function", "unknown");
    let whole = Some(value);
    let terms = read_variables(member(member(whole, "expression"), "terms"));
    let inputs = read_variables(member(whole, "inputs"));
    let outputs = read_variables(member(whole, "outputs"));
    Opcode { kind, function, terms, inputs, outputs }
}

/// The record that `value` describes.
fn read_record(value: &serde_json::Value) -> (record: CircuitRecord)
    ensures
        record@ == record_of(json_model(*value)),
{
    let whole = Some(value);
    let mut opcodes: Vec<Opcode> = Vec::new();
    let listed = member(whole, "opcodes");
    match elements(listed) {
        Some(items) => {
            let mut i: usize = 0;
            while i < items.len()
                invariant
                    i <= items@.len(),
                    json_models(items@) == model_of(listed).elements(),
                    opcodes@.len() == i,
                    forall|j: int|
                        0 <= j < i ==> (#[trigger] opcodes@[j])@ == opcode_of(
                            model_of(listed).elements()[j],
                        ),
                decreases items@.len() - i,
            {
                let opcode = read_opcode(&items[i]);
                assert(json_models(items@)[i as int] == json_model(items@[i as int]));
                opcodes.push(opcode);
                i = i + 1;
            }
        },
        None => {},
    }
    let public_inputs = element_count(member(whole, "public_inputs"));
    let return_values = element_count(member(whole, "return_values"));
    let witnesses = member_count(member(whole, "witnesses"));
    let record = CircuitRecord { opcodes, public_inputs, return_values, witnesses };
    assert(record@.opcodes =~= record_of(json_model(*value)).opcodes);
    record
}

/// The record that the JSON text describes.  It fails, with
/// `DecodeFailure`, exactly when the text is not one JSON value.
pub fn parse_circuit(text: &str) -> (r: Result<CircuitRecord, AnalysisError>)
    ensures
        match json_document(text@) {
            Some(doc) => r is Ok && r->Ok_0@ == record_of(doc),
            None => r == Err::<CircuitRecord, AnalysisError>(AnalysisError::DecodeFailure),
        },
{
    match parse_json(text) {
        Ok(value) => Ok(read_record(&value)),
        Err(_) => Err(AnalysisError::DecodeFailure),
    }
}

} // verus!
