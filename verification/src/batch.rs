//! The batch driver: analysing each circuit file of a directory in turn.

use vstd::prelude::*;
use crate::analyzer::{analyze_circuit, is_run, result_view, AnalysisView, CircuitAnalysis};
use crate::cost_model::{CostDatabase, CostTable};
use crate::error::AnalysisError;
use crate::text::same_text;

verus! {

/// A file found under the directory, and what could be read of it.
#[derive(Clone, Debug)]
pub struct CircuitFile {
    /// The file's name, without its directory.
    pub name: String,
    /// The extension of the file's name, if it has one.
    pub extension: Option<String>,
    /// Whether it is a regular file.
    pub is_file: bool,
    /// Its length in bytes.
    pub len: u64,
    /// Its content, if it could be read.
    pub content: Option<String>,
}

/// A file as a value.
pub struct FileView {
    pub name: Seq<char>,
    pub extension: Option<Seq<char>>,
    pub is_file: bool,
    pub len: nat,
    pub content: Option<Seq<char>>,
}

/// An optional string, by its characters.
pub open spec fn optional_text(text: Option<String>) -> Option<Seq<char>> {
    match text {
        Some(chars) => Some(chars@),
        None => None,
    }
}

impl View for CircuitFile {
    type V = FileView;

    open spec fn view(&self) -> FileView {
        FileView {
            name: self.name@,
            extension: optional_text(self.extension),
            is_file: self.is_file,
            len: self.len as nat,
            content: optional_text(self.content),
        }
    }
}

/// The views of a sequence of files.
pub open spec fn file_views(files: Seq<CircuitFile>) -> Seq<FileView> {
    Seq::new(files.len(), |i: int| files[i]@)
}

/// A file counts as a circuit: it is a regular file, it is not empty, and
/// its extension is `json`.
pub open spec fn is_circuit(extension: Option<Seq<char>>, is_file: bool, len: nat) -> bool {
    extension == Some("json"@) && is_file && len > 0
}

/// Whether a file counts as a circuit.
pub fn is_circuit_file(extension: Option<&str>, is_file: bool, len: u64) -> (r: bool)
    ensures
        r == is_circuit(
            match extension {
                Some(text) => Some(text@),
                None => None,
            },
            is_file,
            len as nat,
        ),
{
    match extension {
        Some(text) => same_text(text, "json") && is_file && len > 0,
        None => false,
    }
}

/// Those of the first `count` files that count as circuits, in their order.
pub open spec fn circuits_upto(files: Seq<FileView>, count: nat) -> Seq<FileView>
    decreases count,
{
    if count == 0 {
        Seq::empty()
    } else {
        let earlier = circuits_upto(files, (count - 1) as nat);
        let file = files[count - 1];
        if is_circuit(file.extension, file.is_file, file.len) {
            earlier.push(file)
        } else {
            earlier
        }
    }
}

/// What the batch reports of one circuit file: `FileReadFailure`, with
/// the database as it was, if the file could not be read; else what a run
/// of the analyzer on its content does.
pub open spec fn is_file_result(
    result: Result<AnalysisView, AnalysisError>,
    after: CostTable,
    before: CostTable,
    content: Option<Seq<char>>,
) -> bool {
    match content {
        Some(json) => is_run(result, after, before, json),
        None => result == Err::<AnalysisView, AnalysisError>(AnalysisError::FileReadFailure)
            && after == before,
    }
}

/// The results of a batch, as values.
pub open spec fn results_view(results: Seq<(String, Result<CircuitAnalysis, AnalysisError>)>) -> Seq<
    (Seq<char>, Result<AnalysisView, AnalysisError>),
> {
    Seq::new(results.len(), |i: int| (results[i].0@, result_view(results[i].1)))
}

/// `results` reports on each of `circuits` in turn, under its name, and
/// `states` holds the database before the first, between each two, and
/// after the last.
pub open spec fn is_batch(
    results: Seq<(Seq<char>, Result<AnalysisView, AnalysisError>)>,
    states: Seq<CostTable>,
    circuits: Seq<FileView>,
) -> bool {
    &&& results.len() == circuits.len()
    &&& states.len() == circuits.len() + 1
    &&& forall|k: int|
        0 <= k < circuits.len() ==> (#[trigger] results[k]).0 == circuits[k].name
            && is_file_result(results[k].1, states[k + 1], states[k], circuits[k].content)
}

/// What `batch_analyze` does.  Where the target is no directory it fails
/// with `NotADirectory` and leaves the database as it was.  Else it reports
/// on each file that counts as a circuit, in the order given, each analysed
/// on the database as the one before left it.
pub open spec fn is_batch_outcome(
    outcome: Result<Seq<(Seq<char>, Result<AnalysisView, AnalysisError>)>, AnalysisError>,
    after: CostTable,
    before: CostTable,
    is_directory: bool,
    files: Seq<FileView>,
) -> bool {
    if is_directory {
        outcome is Ok && exists|states: Seq<CostTable>| #[trigger]
            is_batch(outcome->Ok_0, states, circuits_upto(files, files.len())) && states[0]
                == before && states[states.len() - 1] == after
    } else {
        outcome == Err::<Seq<(Seq<char>, Result<AnalysisView, AnalysisError>)>, AnalysisError>(
            AnalysisError::NotADirectory,
        ) && after == before
    }
}

/// The outcome of a batch, as a value.
pub open spec fn outcome_view(
    outcome: Result<Vec<(String, Result<CircuitAnalysis, AnalysisError>)>, AnalysisError>,
) -> Result<Seq<(Seq<char>, Result<AnalysisView, AnalysisError>)>, AnalysisError> {
    match outcome {
        Ok(results) => Ok(results_view(results@)),
        Err(error) => Err(error),
    }
}

/// Analyses each circuit file among `files`, in the order given, and
/// reports on each under its name.  A file that could not be read, or
/// whose content is not one JSON value, is reported as an error and the
/// batch goes on.  `is_directory` says whether the target of the batch is
/// a directory at all.
pub fn batch_analyze(db: &mut CostDatabase, is_directory: bool, files: &Vec<CircuitFile>) -> (outcome:
    Result<Vec<(String, Result<CircuitAnalysis, AnalysisError>)>, AnalysisError>)
    ensures
        is_batch_outcome(
            outcome_view(outcome),
            final(db)@,
            old(db)@,
            is_directory,
            file_views(files@),
        ),
{
    if !is_directory {
        return Err(AnalysisError::NotADirectory);
    }
    let ghost listed = file_views(files@);
    let ghost mut states: Seq<CostTable> = seq![db@];
    let mut results: Vec<(String, Result<CircuitAnalysis, AnalysisError>)> = Vec::new();
    let mut i: usize = 0;
    assert(results_view(results@).len() == circuits_upto(listed, 0).len());
    while i < files.len()
        invariant
            i <= files@.len(),
            listed == file_views(files@),
            is_batch(results_view(results@), states, circuits_upto(listed, i as nat)),
            states[0] == old(db)@,
            states[states.len() - 1] == db@,
        decreases files@.len() - i,
    {
        let file = &files[i];
        assert(listed[i as int] == file@);
        let extension: Option<&str> = match &file.extension {
            Some(text) => Some(text.as_str()),
            None => None,
        };
        if is_circuit_file(extension, file.is_file, file.len) {
            let ghost before = db@;
            let ghost earlier = results_view(results@);
            let ghost circuits = circuits_upto(listed, i as nat);
            let ghost old_states = states;
            let result: Result<CircuitAnalysis, AnalysisError> = match &file.content {
                Some(json) => analyze_circuit(db, json.as_str()),
                None => Err(AnalysisError::FileReadFailure),
            };
            assert(is_file_result(result_view(result), db@, before, file@.content));
            results.push((file.name.clone(), result));
            proof {
                states = old_states.push(db@);
                let now = results_view(results@);
                let longer = circuits_upto(listed, (i + 1) as nat);
                assert(longer == circuits.push(file@));
                assert(now =~= earlier.push((file@.name, result_view(result))));
                assert forall|k: int| 0 <= k < longer.len() implies (#[trigger] now[k]).0
                    == longer[k].name && is_file_result(
                    now[k].1,
                    states[k + 1],
                    states[k],
                    longer[k].content,
                ) by {
                    if k < circuits.len() {
                        assert(now[k] == earlier[k]);
                        assert(states[k] == old_states[k]);
                        assert(states[k + 1] == old_states[k + 1]);
                    }
                }
            }
        }
        i = i + 1;
    }
    let outcome: Result<Vec<(String, Result<CircuitAnalysis, AnalysisError>)>, AnalysisError> = Ok(
        results,
    );
    assert(is_batch(outcome_view(outcome)->Ok_0, states, circuits_upto(listed, listed.len())));
    outcome
}

} // verus!
