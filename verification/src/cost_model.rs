//! The cost database: per-operation costs, their confidence and sample
//! counts, the noise applied on every read, and the blending of new
//! measurements into stored ones.

use vstd::prelude::*;
use crate::clock::{
    clock_reading, clock_readings, local_timestamp, nth_reading, pair_position, paired_reading,
    reading_at, NANOS_PER_SECOND,
};
use crate::ordering::{arranged, is_permutation, is_stable_order, stable_order};
use crate::search::{
    distinct_names, lemma_first_true_is, lemma_position_of,
    equal_flags, overlap_flags, overlap_position, position_of,
};
use crate::text::{overlapping, same_text};

verus! {

/// A confidence of one, in millionths.
pub const CONFIDENCE_SCALE: u32 = 1_000_000;

/// The confidence of a seeded or newly inserted entry.
pub const SEED_CONFIDENCE: u32 = 830_000;

/// The confidence that no number of samples exceeds.
pub const CONFIDENCE_CEILING: u32 = 990_000;

/// The confidence that each sample adds: a fiftieth.
pub const CONFIDENCE_PER_SAMPLE: u32 = 20_000;

/// The cost assumed of an operation that nothing is known of.
pub const FALLBACK_COST: usize = 1000;

/// The confidence below which no match is reported: 0.8.
pub const CONFIDENCE_FLOOR: u32 = 800_000;

/// The number of operations in the default table.
pub const DEFAULT_COUNT: usize = 4;

/// What is stored for one operation.  `confidence` is in millionths.
#[derive(Clone, Copy, Debug, PartialEq, Eq)]
pub struct CostEntry {
    pub cost: usize,
    pub confidence: u32,
    pub samples: usize,
}

/// `n`, or the nearest bound of `usize` where it lies outside.
pub open spec fn clamped(n: int) -> usize {
    if n < 0 {
        0
    } else if n > usize::MAX {
        usize::MAX
    } else {
        n as usize
    }
}

/// The factor, in thousandths, that a clock reading stands for: 980 to 1019.
pub open spec fn noise_factor(reading: nat) -> nat {
    980 + reading % 40
}

/// `cost` times the factor of `reading`, rounded down.
pub open spec fn perturbed(cost: nat, reading: nat) -> nat {
    cost * noise_factor(reading) / 1000
}

/// The perturbed cost as the machine holds it.
pub open spec fn observed(cost: nat, reading: nat) -> usize {
    clamped(perturbed(cost, reading) as int)
}

/// A perturbed cost stays within a fiftieth of the cost.
pub proof fn lemma_perturbed_bounds(cost: nat, reading: nat)
    ensures
        cost * 980 / 1000 <= perturbed(cost, reading) <= cost * 1019 / 1000,
        perturbed(cost, reading) * 1000 <= cost * 1019,
        cost * 980 < (perturbed(cost, reading) + 1) * 1000,
        observed(cost, reading) <= perturbed(cost, reading),
{
    let factor = noise_factor(reading);
    assert(980 <= factor <= 1019);
    assert(cost * 980 <= cost * factor <= cost * 1019) by (nonlinear_arith)
        requires
            980 <= factor <= 1019,
    ;
}

/// The cost as measured under the noise that `reading` stands for.
pub fn variability_at(cost: usize, reading: u32) -> (r: usize)
    ensures
        r == observed(cost as nat, reading as nat),
{
    let factor: u128 = 980 + (reading % 40) as u128;
    assert(cost as u128 * factor <= 0xffff_ffff_ffff_ffff * 1019) by (nonlinear_arith)
        requires
            cost <= 0xffff_ffff_ffff_ffff,
            factor <= 1019,
    ;
    let scaled: u128 = cost as u128 * factor / 1000;
    if scaled > usize::MAX as u128 {
        usize::MAX
    } else {
        scaled as usize
    }
}

/// The cost as measured now: perturbed by a factor of 0.980 to 1.019 that
/// the wall clock picks.
pub fn apply_real_world_variability(cost: usize) -> (r: usize)
    ensures
        exists|reading: u32|
            reading < NANOS_PER_SECOND && r == #[trigger] observed(cost as nat, reading as nat),
{
    let reading = clock_reading();
    variability_at(cost, reading)
}

/// The default table: the operations whose cost is known beforehand.
pub open spec fn default_names() -> Seq<Seq<char>> {
    seq!["sha256"@, "keccak256"@, "pedersen_hash"@, "ecdsa_secp256k1"@]
}

/// The costs of the default table, in the order of `default_names`.
pub open spec fn default_costs() -> Seq<nat> {
    seq![38_799, 55_000, 28_742, 5_000]
}

/// The name at `index` of the default table.
fn default_name(index: usize) -> (name: &'static str)
    requires
        index < DEFAULT_COUNT,
    ensures
        name@ == default_names()[index as int],
{
    if index == 0 {
        "sha256"
    } else if index == 1 {
        "keccak256"
    } else if index == 2 {
        "pedersen_hash"
    } else {
        "ecdsa_secp256k1"
    }
}

/// The cost at `index` of the default table.
fn default_cost(index: usize) -> (cost: usize)
    requires
        index < DEFAULT_COUNT,
    ensures
        cost == default_costs()[index as int],
{
    if index == 0 {
        38_799
    } else if index == 1 {
        55_000
    } else if index == 2 {
        28_742
    } else {
        5_000
    }
}

/// The database as a value: its entries in stored order, and the time of
/// the last update.
pub struct CostTable {
    pub entries: Seq<(Seq<char>, CostEntry)>,
    pub last_updated: Option<Seq<char>>,
}

/// The names of the entries, in their order.
pub open spec fn entry_names(entries: Seq<(Seq<char>, CostEntry)>) -> Seq<Seq<char>> {
    Seq::new(entries.len(), |i: int| entries[i].0)
}

/// No operation occurs twice among the entries, and no confidence exceeds
/// one.
pub open spec fn entries_wf(entries: Seq<(Seq<char>, CostEntry)>) -> bool {
    &&& distinct_names(entry_names(entries))
    &&& forall|i: int|
        0 <= i < entries.len() ==> (#[trigger] entries[i]).1.confidence <= CONFIDENCE_SCALE
}

impl CostTable {
    /// The names of the entries, in stored order.
    pub open spec fn names(self) -> Seq<Seq<char>> {
        entry_names(self.entries)
    }

    /// No operation is stored twice, and no confidence exceeds one.
    pub open spec fn wf(self) -> bool {
        entries_wf(self.entries)
    }

    /// Where `name` is stored, or the number of entries if it is not.
    pub open spec fn position(self, name: Seq<char>) -> int {
        position_of(self.names(), name)
    }

    /// Whether `name` is stored.
    pub open spec fn contains(self, name: Seq<char>) -> bool {
        self.position(name) < self.entries.len()
    }

    /// The entry stored for `name`.
    pub open spec fn entry(self, name: Seq<char>) -> CostEntry
        recommends
            self.contains(name),
    {
        self.entries[self.position(name)].1
    }

    /// The stored cost of `name`; failing that, of the first stored
    /// operation whose name overlaps it.
    pub open spec fn cost_of(self, name: Seq<char>) -> Option<usize> {
        let near = overlap_position(self.names(), name);
        if self.contains(name) {
            Some(self.entry(name).cost)
        } else if near < self.entries.len() {
            Some(self.entries[near].1.cost)
        } else {
            None
        }
    }

    /// The cost and confidence to assume of `name` before noise: those
    /// stored; failing that, the cost of the first default operation whose
    /// name overlaps it; failing that, the fallback cost.
    pub open spec fn expected(self, name: Seq<char>) -> (nat, u32) {
        let near = overlap_position(default_names(), name);
        if self.contains(name) {
            (self.entry(name).cost as nat, self.entry(name).confidence)
        } else if near < default_names().len() {
            (default_costs()[near], SEED_CONFIDENCE)
        } else {
            (FALLBACK_COST as nat, SEED_CONFIDENCE)
        }
    }

    /// The cost and confidence read for `name` under the noise of `reading`.
    pub open spec fn details(self, name: Seq<char>, reading: nat) -> (usize, u32) {
        (observed(self.expected(name).0, reading), self.expected(name).1)
    }

    /// The table after a measurement of `measured` for `name`, taken under
    /// the noise of `reading` at the time `stamp`.
    pub open spec fn updated(
        self,
        name: Seq<char>,
        measured: nat,
        reading: nat,
        stamp: Seq<char>,
    ) -> CostTable {
        let seen = observed(measured, reading);
        let at = self.position(name);
        CostTable {
            entries: if self.contains(name) {
                self.entries.update(at, (name, blended_entry(self.entries[at].1, seen)))
            } else {
                self.entries.push((name, fresh_entry(seen)))
            },
            last_updated: Some(stamp),
        }
    }
}

/// The weight, in tenths, of a new measurement against `samples` earlier ones.
pub open spec fn blend_weight(samples: nat) -> nat {
    if samples < 3 {
        5
    } else if samples < 10 {
        3
    } else {
        2
    }
}

/// The moving average of a stored cost and a new measurement, rounded down.
pub open spec fn blended_cost(stored: nat, seen: nat, samples: nat) -> nat {
    (((10 - blend_weight(samples)) * stored + blend_weight(samples) * seen) / 10) as nat
}

/// The confidence that `samples` samples give: 0.83 and a fiftieth for each,
/// at most 0.99.
pub open spec fn confidence_of(samples: nat) -> nat {
    if SEED_CONFIDENCE + CONFIDENCE_PER_SAMPLE * samples < CONFIDENCE_CEILING {
        (SEED_CONFIDENCE + CONFIDENCE_PER_SAMPLE * samples) as nat
    } else {
        CONFIDENCE_CEILING as nat
    }
}

/// The entry of an operation measured for the first time.
pub open spec fn fresh_entry(seen: usize) -> CostEntry {
    CostEntry { cost: seen, confidence: SEED_CONFIDENCE, samples: 1 }
}

/// An entry after one more measurement.  The sample count stops at the
/// largest `usize`.
pub open spec fn blended_entry(entry: CostEntry, seen: usize) -> CostEntry {
    let samples = clamped(entry.samples + 1);
    CostEntry {
        cost: blended_cost(entry.cost as nat, seen as nat, entry.samples as nat) as usize,
        confidence: confidence_of(samples as nat) as u32,
        samples,
    }
}

/// A moving average lies between the two costs it blends.
pub proof fn lemma_blended_cost_between(stored: nat, seen: nat, samples: nat)
    ensures
        stored <= seen ==> stored <= blended_cost(stored, seen, samples) <= seen,
        seen <= stored ==> seen <= blended_cost(stored, seen, samples) <= stored,
{
    let weight = blend_weight(samples);
    if weight == 5 {
        assert((10 - weight) * stored + weight * seen == 5 * stored + 5 * seen);
    } else if weight == 3 {
        assert((10 - weight) * stored + weight * seen == 7 * stored + 3 * seen);
    } else {
        assert((10 - weight) * stored + weight * seen == 8 * stored + 2 * seen);
    }
}

/// After an update, the operation is stored.  If it was stored before, its
/// sample count has gone up by one, short of the largest `usize`, and its
/// confidence is 0.83 and a fiftieth for each sample, at most 0.99.  If it
/// was not, it holds one sample at the seed confidence.  Every other
/// operation stands as it stood.
pub proof fn lemma_update_counts_sample(
    table: CostTable,
    name: Seq<char>,
    measured: nat,
    reading: nat,
    stamp: Seq<char>,
)
    requires
        table.wf(),
    ensures
        ({
            let after = table.updated(name, measured, reading, stamp);
            &&& after.contains(name)
            &&& after.last_updated == Some(stamp)
            &&& SEED_CONFIDENCE <= after.entry(name).confidence <= CONFIDENCE_CEILING
            &&& table.contains(name) && table.entry(name).samples < usize::MAX ==> {
                &&& after.entry(name).samples == table.entry(name).samples + 1
                &&& after.entry(name).confidence == confidence_of(after.entry(name).samples as nat)
            }
            &&& table.contains(name) ==> after.entry(name).samples >= table.entry(name).samples
            &&& !table.contains(name) ==> after.entry(name) == fresh_entry(
                observed(measured, reading),
            )
            &&& forall|other: Seq<char>|
                other != name ==> #[trigger] after.contains(other) == table.contains(other)
            &&& forall|other: Seq<char>|
                other != name && table.contains(other) ==> #[trigger] after.entry(other)
                    == table.entry(other)
        }),
{
    let after = table.updated(name, measured, reading, stamp);
    let names = table.names();
    let at = table.position(name);
    lemma_position_of(names, name);
    lemma_updated_wf(table, name, measured, reading, stamp);
    if table.contains(name) {
        assert(after.names() =~= names);
    } else {
        assert(after.names() =~= names.push(name));
        lemma_first_true_is(equal_flags(after.names(), name), names.len() as int);
    }
    assert forall|other: Seq<char>| other != name implies (#[trigger] after.contains(other))
        == table.contains(other) && (table.contains(other) ==> after.entry(other) == table.entry(
        other,
    )) by {
        let was = table.position(other);
        lemma_position_of(names, other);
        lemma_position_of(after.names(), other);
        if was < names.len() {
            assert(after.names()[was] == other);
            lemma_first_true_is(equal_flags(after.names(), other), was);
            assert(after.entries[was] == table.entries[was]);
        } else {
            let now = after.position(other);
            if now < after.entries.len() {
                if now < names.len() {
                    assert(names[now] == other);
                }
            }
        }
    }
    assert forall|other: Seq<char>| other != name && table.contains(other) implies #[trigger] after.entry(
        other,
    ) == table.entry(other) by {
        assert(after.contains(other) == table.contains(other));
    }
}

/// Entries as the database holds them, by name and value.
pub open spec fn entries_view(costs: Seq<(String, CostEntry)>) -> Seq<(Seq<char>, CostEntry)> {
    Seq::new(costs.len(), |i: int| (costs[i].0@, costs[i].1))
}

/// A time stamp, by its characters.
pub open spec fn stamp_view(stamp: Option<String>) -> Option<Seq<char>> {
    match stamp {
        Some(text) => Some(text@),
        None => None,
    }
}

/// The cost database: for each operation its cost, the confidence in it
/// and the number of samples behind it, in the order in which the
/// operations entered; and the time of the last update.
#[derive(Debug)]
pub struct CostDatabase {
    costs: Vec<(String, CostEntry)>,
    last_updated: Option<String>,
}

impl View for CostDatabase {
    type V = CostTable;

    closed spec fn view(&self) -> CostTable {
        CostTable {
            entries: entries_view(self.costs@),
            last_updated: stamp_view(self.last_updated),
        }
    }
}

impl CostDatabase {
    /// Every database is well formed: no operation twice, no confidence
    /// above one.
    #[verifier::type_invariant]
    pub open spec fn wf(self) -> bool {
        self@.wf()
    }

    /// A database with no entry.
    pub fn new() -> (db: Self)
        ensures
            db@.entries.len() == 0,
            db@.last_updated is None,
            db@.wf(),
    {
        let db = CostDatabase { costs: Vec::new(), last_updated: None };
        assert(db@.entries =~= Seq::empty());
        db
    }

    /// The number of entries.
    pub fn len(&self) -> (n: usize)
        ensures
            n == self@.entries.len(),
    {
        self.costs.len()
    }
}

/// Where `operation` is stored in `costs`, or their number if it is not.
fn find_entry(costs: &Vec<(String, CostEntry)>, operation: &str) -> (at: usize)
    ensures
        at == position_of(entry_names(entries_view(costs@)), operation@),
        at <= costs@.len(),
{
    let ghost names = entry_names(entries_view(costs@));
    let mut i: usize = 0;
    while i < costs.len()
        invariant
            i <= costs@.len(),
            names == entry_names(entries_view(costs@)),
            names.len() == costs@.len(),
            forall|j: int| 0 <= j < costs@.len() ==> names[j] == (#[trigger] costs@[j]).0@,
            forall|j: int| 0 <= j < i ==> !equal_flags(names, operation@)[j],
        decreases costs@.len() - i,
    {
        if same_text(costs[i].0.as_str(), operation) {
            proof {
                lemma_first_true_is(equal_flags(names, operation@), i as int);
            }
            return i;
        }
        i = i + 1;
    }
    proof {
        lemma_first_true_is(equal_flags(names, operation@), i as int);
    }
    i
}

/// The stored cost of `operation`; failing that, of the first stored
/// operation whose name occurs in it or holds it.  No noise is applied.
pub fn get_operation_cost(db: &CostDatabase, operation: &str) -> (cost: Option<usize>)
    ensures
        cost == db@.cost_of(operation@),
{
    let at = find_entry(&db.costs, operation);
    if at < db.costs.len() {
        return Some(db.costs[at].1.cost);
    }
    let ghost names = db@.names();
    let mut i: usize = 0;
    while i < db.costs.len()
        invariant
            i <= db.costs@.len(),
            names == db@.names(),
            names.len() == db.costs@.len(),
            !db@.contains(operation@),
            forall|j: int| 0 <= j < i ==> !overlap_flags(names, operation@)[j],
        decreases db.costs@.len() - i,
    {
        if overlapping(db.costs[i].0.as_str(), operation) {
            proof {
                lemma_first_true_is(overlap_flags(names, operation@), i as int);
            }
            return Some(db.costs[i].1.cost);
        }
        i = i + 1;
    }
    proof {
        lemma_first_true_is(overlap_flags(names, operation@), i as int);
    }
    None
}

/// The cost and confidence of `operation` as read under the noise of
/// `reading`: the stored entry, else the default whose name overlaps it,
/// else the fallback cost, each at the seed confidence.
pub fn operation_details_at(db: &CostDatabase, operation: &str, reading: u32) -> (r: (usize, u32))
    ensures
        r == db@.details(operation@, reading as nat),
{
    let at = find_entry(&db.costs, operation);
    if at < db.costs.len() {
        let entry = db.costs[at].1;
        return (variability_at(entry.cost, reading), entry.confidence);
    }
    let ghost names = default_names();
    let mut i: usize = 0;
    while i < DEFAULT_COUNT
        invariant
            i <= DEFAULT_COUNT,
            names == default_names(),
            !db@.contains(operation@),
            forall|j: int| 0 <= j < i ==> !overlap_flags(names, operation@)[j],
        decreases DEFAULT_COUNT - i,
    {
        if overlapping(default_name(i), operation) {
            proof {
                lemma_first_true_is(overlap_flags(names, operation@), i as int);
            }
            return (variability_at(default_cost(i), reading), SEED_CONFIDENCE);
        }
        i = i + 1;
    }
    proof {
        lemma_first_true_is(overlap_flags(names, operation@), i as int);
    }
    (variability_at(FALLBACK_COST, reading), SEED_CONFIDENCE)
}

/// The cost and confidence of `operation` as read now, under the noise
/// that the wall clock picks.
pub fn get_operation_details(db: &CostDatabase, operation: &str) -> (r: (usize, u32))
    ensures
        exists|reading: u32|
            reading < NANOS_PER_SECOND && r == #[trigger] db@.details(operation@, reading as nat),
{
    let reading = clock_reading();
    operation_details_at(db, operation, reading)
}

/// An entry after one more measurement of `seen`.
fn blend(entry: CostEntry, seen: usize) -> (next: CostEntry)
    ensures
        next == blended_entry(entry, seen),
{
    let weight: u128 = if entry.samples < 3 {
        5
    } else if entry.samples < 10 {
        3
    } else {
        2
    };
    proof {
        lemma_blended_cost_between(entry.cost as nat, seen as nat, entry.samples as nat);
    }
    let cost: u128 = ((10 - weight) * (entry.cost as u128) + weight * (seen as u128)) / 10;
    let samples: usize = if entry.samples < usize::MAX {
        entry.samples + 1
    } else {
        usize::MAX
    };
    let confidence: u32 = if samples < 8 {
        SEED_CONFIDENCE + CONFIDENCE_PER_SAMPLE * (samples as u32)
    } else {
        CONFIDENCE_CEILING
    };
    CostEntry { cost: cost as usize, confidence, samples }
}

/// Blends a measurement of `operation`, taken under the noise of `reading`
/// at the time `stamp`, into the database.  A new operation enters with the
/// measured cost, the seed confidence and one sample; a stored one moves
/// towards the measurement and gains a sample.
pub fn update_cost_database_at(
    db: &mut CostDatabase,
    operation: &str,
    measured_cost: usize,
    reading: u32,
    stamp: &str,
)
    ensures
        final(db)@ == old(db)@.updated(
            operation@,
            measured_cost as nat,
            reading as nat,
            stamp@,
        ),
{
    proof {
        use_type_invariant(&*db);
    }
    let seen = variability_at(measured_cost, reading);
    let at = find_entry(&db.costs, operation);
    let ghost before = db@;
    let ghost names = before.names();
    proof {
        lemma_position_of(names, operation@);
    }
    let mut costs: Vec<(String, CostEntry)> = Vec::new();
    std::mem::swap(&mut costs, &mut db.costs);
    assert(entries_view(costs@) == before.entries);
    if at < costs.len() {
        let next = blend(costs[at].1, seen);
        costs.set(at, (operation.to_owned(), next));
        assert(entries_view(costs@) =~= before.entries.update(
            at as int,
            (operation@, blended_entry(before.entries[at as int].1, seen)),
        ));
    } else {
        costs.push(
            (operation.to_owned(), CostEntry { cost: seen, confidence: SEED_CONFIDENCE, samples: 1 }),
        );
        assert(entries_view(costs@) =~= before.entries.push((operation@, fresh_entry(seen))));
    }
    let ghost after = CostTable { entries: entries_view(costs@), last_updated: Some(stamp@) };
    proof {
        lemma_updated_wf(before, operation@, measured_cost as nat, reading as nat, stamp@);
        assert(after == before.updated(
            operation@,
            measured_cost as nat,
            reading as nat,
            stamp@,
        ));
    }
    db.costs = costs;
    db.last_updated = Some(stamp.to_owned());
}

/// Blends a measurement of `operation` taken now into the database, under
/// the noise that the wall clock picks, and stamps the database with the
/// local time.
pub fn update_cost_database(db: &mut CostDatabase, operation: &str, measured_cost: usize)
    ensures
        exists|reading: u32, stamp: Seq<char>|
            reading < NANOS_PER_SECOND && final(db)@ == #[trigger] old(db)@.updated(
                operation@,
                measured_cost as nat,
                reading as nat,
                stamp,
            ),
{
    let reading = clock_reading();
    let stamp = local_timestamp();
    update_cost_database_at(db, operation, measured_cost, reading, stamp.as_str());
}

/// An update keeps the table well formed.
pub proof fn lemma_updated_wf(
    table: CostTable,
    name: Seq<char>,
    measured: nat,
    reading: nat,
    stamp: Seq<char>,
)
    requires
        table.wf(),
    ensures
        table.updated(name, measured, reading, stamp).wf(),
{
    let after = table.updated(name, measured, reading, stamp);
    let names = table.names();
    let at = table.position(name);
    lemma_position_of(names, name);
    if table.contains(name) {
        assert(after.names() =~= names);
        assert forall|i: int| 0 <= i < after.entries.len() implies (#[trigger] after.entries[i]).1.confidence
            <= CONFIDENCE_SCALE by {
            if i != at {
                assert(after.entries[i] == table.entries[i]);
            }
        }
    } else {
        assert(after.names() =~= names.push(name));
        assert forall|i: int, j: int| 0 <= i < j < after.names().len() implies after.names()[i]
            != after.names()[j] by {
            if j < names.len() {
                assert(names[i] != names[j]);
            } else {
                assert(names[i] != name);
            }
        }
        assert forall|i: int| 0 <= i < after.entries.len() implies (#[trigger] after.entries[i]).1.confidence
            <= CONFIDENCE_SCALE by {
            if i < table.entries.len() {
                assert(after.entries[i] == table.entries[i]);
            }
        }
    }
}


/// The noise under which one search for matching operations runs.
#[derive(Clone, Debug)]
pub struct MatchNoise {
    /// The reading that widens the tolerance.
    pub tolerance: u32,
    /// The reading that may exchange the two best matches.
    pub exchange: u32,
    /// Two readings for each stored operation, by its index: one for its
    /// cost, one for its confidence.
    pub entries: Vec<u32>,
}

/// How far `cost` lies from `target`.
pub open spec fn distance(cost: nat, target: nat) -> nat {
    if cost >= target {
        (cost - target) as nat
    } else {
        (target - cost) as nat
    }
}

/// The tolerance around `target`, in millionths of a constraint:
/// `tolerance_hundredths` hundredths of a percent of the target, widened by
/// a factor of 1.00 to 1.19 that `reading` picks.
pub open spec fn allowance(target: nat, tolerance_hundredths: nat, reading: nat) -> nat {
    target * tolerance_hundredths * (100 + reading % 20)
}

/// `cost` lies within the tolerance of `target`.
pub open spec fn is_within(cost: nat, target: nat, allowed: nat) -> bool {
    distance(cost, target) * 1_000_000 <= allowed
}

/// `cost` lies closer to `target` than half the tolerance.
pub open spec fn is_well_within(cost: nat, target: nat, allowed: nat) -> bool {
    distance(cost, target) * 2_000_000 < allowed
}

/// The confidence reported for a match: the stored one less zero to four
/// hundredths of it, as `reading` picks, and at least the floor.
pub open spec fn shaded(confidence: nat, reading: nat) -> nat {
    let lowered = confidence * (100 - reading % 5) / 100;
    if lowered < CONFIDENCE_FLOOR {
        CONFIDENCE_FLOOR as nat
    } else {
        lowered as nat
    }
}

/// The matches among the first `count` stored operations, in stored order:
/// each operation whose cost, read under the noise of its first reading,
/// lies within the tolerance of `target`, with that cost and its shaded
/// confidence.
pub open spec fn candidates_upto(
    table: CostTable,
    target: nat,
    allowed: nat,
    readings: Seq<u32>,
    count: nat,
) -> Seq<(Seq<char>, nat, nat)>
    decreases count,
{
    if count == 0 {
        Seq::empty()
    } else {
        let earlier = candidates_upto(table, target, allowed, readings, (count - 1) as nat);
        let entry = table.entries[count - 1];
        let seen = observed(
            entry.1.cost as nat,
            reading_at(readings, pair_position(count - 1, false)),
        );
        if is_within(seen as nat, target, allowed) {
            earlier.push(
                (
                    entry.0,
                    seen as nat,
                    shaded(
                        entry.1.confidence as nat,
                        reading_at(readings, pair_position(count - 1, true)),
                    ),
                ),
            )
        } else {
            earlier
        }
    }
}

/// How far each match lies from `target`.
pub open spec fn distances(found: Seq<(Seq<char>, nat, nat)>, target: nat) -> Seq<u128> {
    Seq::new(found.len(), |i: int| distance(found[i].1, target) as u128)
}

/// Whether the two best matches change places: the reading says so, in one
/// case of five, and both lie closer to `target` than half the tolerance.
pub open spec fn exchanges(
    sorted: Seq<(Seq<char>, nat, nat)>,
    target: nat,
    allowed: nat,
    reading: nat,
) -> bool {
    &&& reading % 10 < 2
    &&& sorted.len() >= 2
    &&& is_well_within(sorted[0].1, target, allowed)
    &&& is_well_within(sorted[1].1, target, allowed)
}

/// `sorted` with its first two matches exchanged where `exchanges` holds.
pub open spec fn exchanged(
    sorted: Seq<(Seq<char>, nat, nat)>,
    target: nat,
    allowed: nat,
    reading: nat,
) -> Seq<(Seq<char>, nat, nat)> {
    if exchanges(sorted, target, allowed, reading) {
        sorted.update(0, sorted[1]).update(1, sorted[0])
    } else {
        sorted
    }
}

/// `result` lists the matches of `target` in `table`: the candidates, the
/// nearest first and equally near ones in stored order, the first two
/// exchanged where `exchanges` holds.
pub open spec fn is_match_list(
    result: Seq<(Seq<char>, nat, nat)>,
    table: CostTable,
    target: nat,
    tolerance_hundredths: nat,
    tolerance_reading: nat,
    exchange_reading: nat,
    readings: Seq<u32>,
) -> bool {
    let allowed = allowance(target, tolerance_hundredths, tolerance_reading);
    let found = candidates_upto(table, target, allowed, readings, table.entries.len());
    exists|order: Seq<usize>| #[trigger]
        is_stable_order(order, distances(found, target)) && result == exchanged(
            arranged(found, order),
            target,
            allowed,
            exchange_reading,
        )
}

/// Every candidate is a stored operation whose cost, as read, lies within
/// the tolerance, at a confidence between the floor and one.
pub proof fn lemma_candidates_within(
    table: CostTable,
    target: nat,
    allowed: nat,
    readings: Seq<u32>,
    count: nat,
)
    requires
        table.wf(),
        count <= table.entries.len(),
    ensures
        candidates_upto(table, target, allowed, readings, count).len() <= count,
        forall|j: int|
            0 <= j < candidates_upto(table, target, allowed, readings, count).len() ==> {
                let found = #[trigger] candidates_upto(table, target, allowed, readings, count)[j];
                &&& table.contains(found.0)
                &&& is_within(found.1, target, allowed)
                &&& CONFIDENCE_FLOOR <= found.2 <= CONFIDENCE_SCALE
            },
    decreases count,
{
    if count > 0 {
        let earlier = candidates_upto(table, target, allowed, readings, (count - 1) as nat);
        let now = candidates_upto(table, target, allowed, readings, count);
        lemma_candidates_within(table, target, allowed, readings, (count - 1) as nat);
        let entry = table.entries[count - 1];
        assert(entry.1.confidence <= CONFIDENCE_SCALE);
        assert(table.names()[count - 1] == entry.0);
        lemma_position_of(table.names(), entry.0);
        let kept = 100 - reading_at(readings, pair_position(count - 1, true)) % 5;
        assert(entry.1.confidence * kept <= entry.1.confidence * 100) by (nonlinear_arith)
            requires
                0 <= kept <= 100,
                entry.1.confidence >= 0,
        ;
        assert forall|j: int| 0 <= j < now.len() implies {
            let found = #[trigger] now[j];
            &&& table.contains(found.0)
            &&& is_within(found.1, target, allowed)
            &&& CONFIDENCE_FLOOR <= found.2 <= CONFIDENCE_SCALE
        } by {
            if j < earlier.len() {
                assert(now[j] == earlier[j]);
            }
        }
    }
}

/// Every match that a search reports is a stored operation whose cost, as
/// read, lies within the tolerance of the target, at a confidence between
/// the floor and one.
pub proof fn lemma_matches_within(
    result: Seq<(Seq<char>, nat, nat)>,
    table: CostTable,
    target: nat,
    tolerance_hundredths: nat,
    tolerance_reading: nat,
    exchange_reading: nat,
    readings: Seq<u32>,
)
    requires
        table.wf(),
        is_match_list(
            result,
            table,
            target,
            tolerance_hundredths,
            tolerance_reading,
            exchange_reading,
            readings,
        ),
    ensures
        result.len() <= table.entries.len(),
        forall|k: int|
            0 <= k < result.len() ==> {
                let found = #[trigger] result[k];
                &&& table.contains(found.0)
                &&& is_within(
                    found.1,
                    target,
                    allowance(target, tolerance_hundredths, tolerance_reading),
                )
                &&& CONFIDENCE_FLOOR <= found.2 <= CONFIDENCE_SCALE
            },
{
    let allowed = allowance(target, tolerance_hundredths, tolerance_reading);
    let found = candidates_upto(table, target, allowed, readings, table.entries.len());
    lemma_candidates_within(table, target, allowed, readings, table.entries.len());
    let order = choose|order: Seq<usize>| #[trigger]
        is_stable_order(order, distances(found, target)) && result == exchanged(
            arranged(found, order),
            target,
            allowed,
            exchange_reading,
        );
    let sorted = arranged(found, order);
    assert forall|k: int| 0 <= k < result.len() implies {
        let entry = #[trigger] result[k];
        &&& table.contains(entry.0)
        &&& is_within(entry.1, target, allowed)
        &&& CONFIDENCE_FLOOR <= entry.2 <= CONFIDENCE_SCALE
    } by {
        let from = if exchanges(sorted, target, allowed, exchange_reading) && k == 0 {
            1
        } else if exchanges(sorted, target, allowed, exchange_reading) && k == 1 {
            0
        } else {
            k
        };
        assert(result[k] == sorted[from]);
        assert(sorted[from] == found[order[from] as int]);
    }
}

/// A search reports the nearest match first: no match lies nearer to the
/// target than one before it, but that the first two may have changed
/// places where the exchange reading allows it.
pub proof fn lemma_matches_ascend(
    result: Seq<(Seq<char>, nat, nat)>,
    table: CostTable,
    target: nat,
    tolerance_hundredths: nat,
    tolerance_reading: nat,
    exchange_reading: nat,
    readings: Seq<u32>,
)
    requires
        table.wf(),
        target <= usize::MAX,
        is_match_list(
            result,
            table,
            target,
            tolerance_hundredths,
            tolerance_reading,
            exchange_reading,
            readings,
        ),
    ensures
        forall|i: int, j: int|
            0 <= i < j < result.len() && (exchange_reading % 10 >= 2 || j >= 2) ==> distance(
                result[i].1,
                target,
            ) <= distance(result[j].1, target),
{
    let allowed = allowance(target, tolerance_hundredths, tolerance_reading);
    let found = candidates_upto(table, target, allowed, readings, table.entries.len());
    let order = choose|order: Seq<usize>| #[trigger]
        is_stable_order(order, distances(found, target)) && result == exchanged(
            arranged(found, order),
            target,
            allowed,
            exchange_reading,
        );
    let sorted = arranged(found, order);
    let gaps = distances(found, target);
    assert forall|i: int, j: int| 0 <= i < j < sorted.len() implies distance(sorted[i].1, target)
        <= distance(sorted[j].1, target) by {
        let first = order[i] as int;
        let second = order[j] as int;
        assert(gaps[first] == distance(found[first].1, target) as u128);
        assert(gaps[second] == distance(found[second].1, target) as u128);
        lemma_candidate_costs_fit(table, target, allowed, readings, table.entries.len(), first);
        lemma_candidate_costs_fit(table, target, allowed, readings, table.entries.len(), second);
    }
    assert forall|i: int, j: int|
        0 <= i < j < result.len() && (exchange_reading % 10 >= 2 || j >= 2) implies distance(
        result[i].1,
        target,
    ) <= distance(result[j].1, target) by {
        if exchanges(sorted, target, allowed, exchange_reading) {
            let from = if i == 0 {
                1
            } else if i == 1 {
                0
            } else {
                i
            };
            assert(result[i] == sorted[from]);
            assert(result[j] == sorted[j]);
        }
    }
}

/// The cost of a candidate fits the machine's integers.
pub proof fn lemma_candidate_costs_fit(
    table: CostTable,
    target: nat,
    allowed: nat,
    readings: Seq<u32>,
    count: nat,
    at: int,
)
    requires
        0 <= at < candidates_upto(table, target, allowed, readings, count).len(),
    ensures
        candidates_upto(table, target, allowed, readings, count)[at].1 <= usize::MAX,
    decreases count,
{
    if count > 0 {
        let earlier = candidates_upto(table, target, allowed, readings, (count - 1) as nat);
        if at < earlier.len() {
            lemma_candidate_costs_fit(table, target, allowed, readings, (count - 1) as nat, at);
        }
    }
}

/// Matches as the machine holds them.
pub open spec fn matches_view(found: Seq<(String, usize, u32)>) -> Seq<(Seq<char>, nat, nat)> {
    Seq::new(found.len(), |i: int| (found[i].0@, found[i].1 as nat, found[i].2 as nat))
}

/// The confidence reported for a match.
fn shade(confidence: u32, reading: u32) -> (r: u32)
    requires
        confidence <= CONFIDENCE_SCALE,
    ensures
        r == shaded(confidence as nat, reading as nat),
{
    let kept: u64 = 100 - (reading % 5) as u64;
    assert(confidence as u64 * kept <= confidence as u64 * 100 <= 100_000_000) by (nonlinear_arith)
        requires
            confidence <= 1_000_000,
            kept <= 100,
    ;
    let lowered: u64 = confidence as u64 * kept / 100;
    if lowered < CONFIDENCE_FLOOR as u64 {
        CONFIDENCE_FLOOR
    } else {
        lowered as u32
    }
}

/// The stored operations whose cost, read under the given noise, lies
/// within `tolerance_hundredths` hundredths of a percent of `target_cost`,
/// the tolerance widened as the noise says: each with the cost read and its shaded
/// confidence, the nearest first, the first two exchanged where the noise
/// says so and both lie within half the tolerance.
pub fn find_operations_by_cost_at(
    db: &CostDatabase,
    target_cost: usize,
    tolerance_hundredths: u32,
    noise: &MatchNoise,
) -> (result: Vec<(String, usize, u32)>)
    ensures
        is_match_list(
            matches_view(result@),
            db@,
            target_cost as nat,
            tolerance_hundredths as nat,
            noise.tolerance as nat,
            noise.exchange as nat,
            noise.entries@,
        ),
{
    proof {
        use_type_invariant(db);
    }
    let ghost table = db@;
    let ghost target = target_cost as nat;
    let ghost allowed_nat = allowance(target, tolerance_hundredths as nat, noise.tolerance as nat);
    let widened: u128 = 100 + (noise.tolerance % 20) as u128;
    assert(target_cost as u128 * tolerance_hundredths as u128 <= 0xffff_ffff_ffff_ffff
        * 0xffff_ffff) by (nonlinear_arith)
        requires
            target_cost <= 0xffff_ffff_ffff_ffff,
            tolerance_hundredths <= 0xffff_ffff,
    ;
    let scaled: u128 = target_cost as u128 * tolerance_hundredths as u128;
    assert(scaled * widened <= 0xffff_ffff_ffff_ffff * 0xffff_ffff * 119) by (nonlinear_arith)
        requires
            scaled <= 0xffff_ffff_ffff_ffff * 0xffff_ffff,
            widened <= 119,
    ;
    let allowed: u128 = scaled * widened;
    assert(allowed == allowed_nat) by (nonlinear_arith)
        requires
            allowed == scaled * widened,
            scaled == target * (tolerance_hundredths as nat),
            widened == 100 + (noise.tolerance as nat) % 20,
            allowed_nat == target * (tolerance_hundredths as nat) * (100 + (noise.tolerance as nat)
                % 20),
    ;
    let mut found: Vec<(String, usize, u32)> = Vec::new();
    let mut gaps: Vec<u128> = Vec::new();
    let mut i: usize = 0;
    assert(matches_view(found@) =~= candidates_upto(table, target, allowed_nat, noise.entries@, 0));
    while i < db.costs.len()
        invariant
            i <= db.costs@.len(),
            table == db@,
            table.wf(),
            table.entries.len() == db.costs@.len(),
            allowed == allowed_nat,
            target == target_cost,
            matches_view(found@) == candidates_upto(
                table,
                target,
                allowed_nat,
                noise.entries@,
                i as nat,
            ),
            gaps@.len() == found@.len(),
            forall|j: int|
                0 <= j < found@.len() ==> (#[trigger] gaps@[j]) == distance(
                    found@[j].1 as nat,
                    target,
                ),
        decreases db.costs@.len() - i,
    {
        let entry = db.costs[i].1;
        assert(table.entries[i as int] == (db.costs@[i as int].0@, entry));
        let seen = variability_at(entry.cost, paired_reading(&noise.entries, i, false));
        let gap: u128 = if seen >= target_cost {
            (seen - target_cost) as u128
        } else {
            (target_cost - seen) as u128
        };
        if gap * 1_000_000 <= allowed {
            let ghost before = matches_view(found@);
            let confidence = shade(entry.confidence, paired_reading(&noise.entries, i, true));
            found.push((db.costs[i].0.clone(), seen, confidence));
            gaps.push(gap);
            assert(matches_view(found@) =~= before.push(
                (db.costs@[i as int].0@, seen as nat, confidence as nat),
            ));
        }
        i = i + 1;
    }
    let ghost candidates = matches_view(found@);
    assert(gaps@ =~= distances(candidates, target));
    let order = stable_order(&gaps);
    let exchange: bool = noise.exchange % 10 < 2 && order.len() >= 2 && gaps[order[0]] * 2_000_000
        < allowed && gaps[order[1]] * 2_000_000 < allowed;
    let ghost sorted = arranged(candidates, order@);
    assert(exchange == exchanges(sorted, target, allowed_nat, noise.exchange as nat));
    let mut result: Vec<(String, usize, u32)> = Vec::new();
    let mut k: usize = 0;
    while k < order.len()
        invariant
            k <= order@.len(),
            order@.len() == found@.len(),
            is_permutation(order@, found@.len() as nat),
            exchange ==> order@.len() >= 2,
            candidates == matches_view(found@),
            sorted == arranged(candidates, order@),
            result@.len() == k,
            forall|j: int|
                0 <= j < k ==> (#[trigger] matches_view(result@)[j]) == (if exchange && j == 0 {
                    sorted[1]
                } else if exchange && j == 1 {
                    sorted[0]
                } else {
                    sorted[j]
                }),
        decreases order@.len() - k,
    {
        let place: usize = if exchange && k == 0 {
            1
        } else if exchange && k == 1 {
            0
        } else {
            k
        };
        let from: usize = order[place];
        let ghost before = matches_view(result@);
        result.push((found[from].0.clone(), found[from].1, found[from].2));
        assert(matches_view(result@) =~= before.push(candidates[from as int]));
        assert(sorted[place as int] == candidates[from as int]);
        k = k + 1;
    }
    assert(matches_view(result@) =~= exchanged(sorted, target, allowed_nat, noise.exchange as nat));
    result
}

/// The stored operations whose cost, read now, lies within
/// `tolerance_hundredths` hundredths of a percent of `target_cost`, under
/// the noise that the wall clock picks.
pub fn find_operations_by_cost(db: &CostDatabase, target_cost: usize, tolerance_hundredths: u32) -> (result:
    Vec<(String, usize, u32)>)
    ensures
        exists|tolerance_reading: nat, exchange_reading: nat, readings: Seq<u32>| #[trigger]
            is_match_list(
                matches_view(result@),
                db@,
                target_cost as nat,
                tolerance_hundredths as nat,
                tolerance_reading,
                exchange_reading,
                readings,
            ),
{
    let tolerance = clock_reading();
    let wanted: usize = if db.costs.len() <= usize::MAX / 2 {
        2 * db.costs.len()
    } else {
        usize::MAX
    };
    let entries = clock_readings(wanted);
    let exchange = clock_reading();
    let noise = MatchNoise { tolerance, exchange, entries };
    let result = find_operations_by_cost_at(db, target_cost, tolerance_hundredths, &noise);
    assert(is_match_list(
        matches_view(result@),
        db@,
        target_cost as nat,
        tolerance_hundredths as nat,
        noise.tolerance as nat,
        noise.exchange as nat,
        noise.entries@,
    ));
    result
}


/// A copy of the database's contents, to read or to store.
#[derive(Clone, Debug)]
pub struct CostDatabaseView {
    costs: Vec<(String, CostEntry)>,
    last_updated: Option<String>,
}

impl View for CostDatabaseView {
    type V = CostTable;

    closed spec fn view(&self) -> CostTable {
        CostTable {
            entries: entries_view(self.costs@),
            last_updated: stamp_view(self.last_updated),
        }
    }
}

impl CostDatabaseView {
    /// The contents given: entries in order, and the time of the last
    /// update.
    pub fn new(costs: Vec<(String, CostEntry)>, last_updated: Option<String>) -> (contents: Self)
        ensures
            contents@ == (CostTable {
                entries: entries_view(costs@),
                last_updated: stamp_view(last_updated),
            }),
    {
        CostDatabaseView { costs, last_updated }
    }

    /// The entries, in stored order.
    pub fn iter(&self) -> (items: &Vec<(String, CostEntry)>)
        ensures
            entries_view(items@) == self@.entries,
    {
        &self.costs
    }

    /// The time of the last update, if there was one.
    pub fn last_updated(&self) -> (stamp: Option<&String>)
        ensures
            match stamp {
                Some(text) => self@.last_updated == Some(text@),
                None => self@.last_updated is None,
            },
    {
        self.last_updated.as_ref()
    }
}

/// A copy of the time stamp.
fn copy_stamp(stamp: &Option<String>) -> (copy: Option<String>)
    ensures
        stamp_view(copy) == stamp_view(*stamp),
{
    match stamp {
        Some(text) => Some(text.clone()),
        None => None,
    }
}

/// A copy of what the database holds now.
pub fn get_cost_database(db: &CostDatabase) -> (contents: CostDatabaseView)
    ensures
        contents@ == db@,
{
    let mut costs: Vec<(String, CostEntry)> = Vec::new();
    let mut i: usize = 0;
    while i < db.costs.len()
        invariant
            i <= db.costs@.len(),
            costs@.len() == i,
            forall|j: int|
                0 <= j < i ==> (#[trigger] costs@[j]).0@ == db.costs@[j].0@ && costs@[j].1
                    == db.costs@[j].1,
        decreases db.costs@.len() - i,
    {
        costs.push((db.costs[i].0.clone(), db.costs[i].1));
        i = i + 1;
    }
    assert(entries_view(costs@) =~= entries_view(db.costs@));
    CostDatabaseView { costs, last_updated: copy_stamp(&db.last_updated) }
}

/// The database that holds the default operations and nothing else: each
/// at its default cost as read under the noise of the reading at its
/// index, with the seed confidence and one sample.
pub open spec fn seeded_table(readings: Seq<u32>) -> CostTable {
    CostTable {
        entries: Seq::new(
            DEFAULT_COUNT as nat,
            |i: int| (default_names()[i], fresh_entry(observed(default_costs()[i], reading_at(readings, i)))),
        ),
        last_updated: None,
    }
}

/// An entry with its confidence brought down to one where it exceeds one.
pub open spec fn bounded_entry(entry: CostEntry) -> CostEntry {
    CostEntry {
        cost: entry.cost,
        confidence: if entry.confidence > CONFIDENCE_SCALE {
            CONFIDENCE_SCALE
        } else {
            entry.confidence
        },
        samples: entry.samples,
    }
}

/// The entries with `entry` stored for `name`: in the place of what was
/// stored for it, or at the end.
pub open spec fn placed(
    entries: Seq<(Seq<char>, CostEntry)>,
    name: Seq<char>,
    entry: CostEntry,
) -> Seq<(Seq<char>, CostEntry)> {
    let at = position_of(entry_names(entries), name);
    if at < entries.len() {
        entries.update(at, (name, entry))
    } else {
        entries.push((name, entry))
    }
}

/// The first `count` stored entries as a database admits them, taken in
/// turn: no confidence above one, and of a name stored more than once the
/// last entry, in the place of the first.
pub open spec fn admitted_upto(entries: Seq<(Seq<char>, CostEntry)>, count: nat) -> Seq<
    (Seq<char>, CostEntry),
>
    decreases count,
{
    if count == 0 {
        Seq::empty()
    } else {
        placed(
            admitted_upto(entries, (count - 1) as nat),
            entries[count - 1].0,
            bounded_entry(entries[count - 1].1),
        )
    }
}

/// Stored contents as a database admits them.
pub open spec fn admitted(table: CostTable) -> CostTable {
    CostTable {
        entries: admitted_upto(table.entries, table.entries.len()),
        last_updated: table.last_updated,
    }
}

/// The database that a start-up leaves: what was stored, as a database
/// admits it, if anything was; else the seeded database.
pub open spec fn restored(stored: Option<CostTable>, readings: Seq<u32>) -> CostTable {
    match stored {
        Some(table) => admitted(table),
        None => seeded_table(readings),
    }
}

/// Placing an entry of a confidence up to one keeps entries well formed.
pub proof fn lemma_placed_wf(
    entries: Seq<(Seq<char>, CostEntry)>,
    name: Seq<char>,
    entry: CostEntry,
)
    requires
        entries_wf(entries),
        entry.confidence <= CONFIDENCE_SCALE,
    ensures
        entries_wf(placed(entries, name, entry)),
{
    let after = placed(entries, name, entry);
    let names = entry_names(entries);
    let at = position_of(names, name);
    lemma_position_of(names, name);
    if at < entries.len() {
        assert(entry_names(after) =~= names);
        assert forall|i: int| 0 <= i < after.len() implies (#[trigger] after[i]).1.confidence
            <= CONFIDENCE_SCALE by {
            if i != at {
                assert(after[i] == entries[i]);
            }
        }
    } else {
        assert(entry_names(after) =~= names.push(name));
        assert forall|i: int, j: int| 0 <= i < j < entry_names(after).len() implies entry_names(
            after,
        )[i] != entry_names(after)[j] by {
            if j < names.len() {
                assert(names[i] != names[j]);
            } else {
                assert(names[i] != name);
            }
        }
        assert forall|i: int| 0 <= i < after.len() implies (#[trigger] after[i]).1.confidence
            <= CONFIDENCE_SCALE by {
            if i < entries.len() {
                assert(after[i] == entries[i]);
            }
        }
    }
}

/// What a database admits is well formed.
pub proof fn lemma_admitted_wf(entries: Seq<(Seq<char>, CostEntry)>, count: nat)
    ensures
        entries_wf(admitted_upto(entries, count)),
    decreases count,
{
    if count == 0 {
        assert(entry_names(admitted_upto(entries, count)) =~= Seq::empty());
    } else {
        lemma_admitted_wf(entries, (count - 1) as nat);
        lemma_placed_wf(
            admitted_upto(entries, (count - 1) as nat),
            entries[count - 1].0,
            bounded_entry(entries[count - 1].1),
        );
    }
}

/// Well-formed entries are admitted as they stand.
pub proof fn lemma_admitted_unchanged(entries: Seq<(Seq<char>, CostEntry)>, count: nat)
    requires
        entries_wf(entries),
        count <= entries.len(),
    ensures
        admitted_upto(entries, count) == entries.take(count as int),
    decreases count,
{
    if count == 0 {
        assert(admitted_upto(entries, count) =~= entries.take(0));
    } else {
        let earlier = entries.take(count - 1);
        let last = entries[count - 1];
        lemma_admitted_unchanged(entries, (count - 1) as nat);
        let names = entry_names(earlier);
        assert forall|j: int| 0 <= j < names.len() implies !equal_flags(names, last.0)[j] by {
            assert(names[j] == entry_names(entries)[j]);
            assert(entry_names(entries)[count - 1] == last.0);
        }
        lemma_first_true_is(equal_flags(names, last.0), names.len() as int);
        assert(bounded_entry(last.1) == last.1);
        assert(earlier.push(last) =~= entries.take(count as int));
    }
}

/// The default operations have four different names.
pub proof fn lemma_default_names_distinct()
    ensures
        distinct_names(default_names()),
        default_names().len() == DEFAULT_COUNT,
{
    reveal_strlit("sha256");
    reveal_strlit("keccak256");
    reveal_strlit("pedersen_hash");
    reveal_strlit("ecdsa_secp256k1");
    let names = default_names();
    assert(names[0].len() == 6);
    assert(names[1].len() == 9);
    assert(names[2].len() == 13);
    assert(names[3].len() == 15);
}

/// Every seeded database is well formed.
pub proof fn lemma_seeded_wf(readings: Seq<u32>)
    ensures
        seeded_table(readings).wf(),
{
    lemma_default_names_distinct();
    let table = seeded_table(readings);
    assert(table.names() =~= default_names());
}

/// A database stored as it stands and loaded again holds the same costs
/// and the same time stamp.
pub proof fn lemma_restored_unchanged(table: CostTable, readings: Seq<u32>)
    requires
        table.wf(),
    ensures
        restored(Some(table), readings) == table,
{
    lemma_admitted_unchanged(table.entries, table.entries.len());
    assert(table.entries.take(table.entries.len() as int) =~= table.entries);
}

/// The seeded database, each default cost read under the noise of the
/// reading at its index.
pub fn seeded_database_at(readings: &Vec<u32>) -> (db: CostDatabase)
    ensures
        db@ == seeded_table(readings@),
{
    let mut costs: Vec<(String, CostEntry)> = Vec::new();
    let mut i: usize = 0;
    while i < DEFAULT_COUNT
        invariant
            i <= DEFAULT_COUNT,
            costs@.len() == i,
            forall|j: int|
                0 <= j < i ==> (#[trigger] costs@[j]).0@ == default_names()[j] && costs@[j].1
                    == fresh_entry(observed(default_costs()[j], reading_at(readings@, j))),
        decreases DEFAULT_COUNT - i,
    {
        let cost = variability_at(default_cost(i), nth_reading(readings, i));
        costs.push(
            (default_name(i).to_owned(), CostEntry { cost, confidence: SEED_CONFIDENCE, samples: 1 }),
        );
        i = i + 1;
    }
    proof {
        lemma_seeded_wf(readings@);
        assert(entries_view(costs@) =~= seeded_table(readings@).entries);
    }
    CostDatabase { costs, last_updated: None }
}

/// What was stored, as a value.
pub open spec fn stored_table(stored: Option<CostDatabaseView>) -> Option<CostTable> {
    match stored {
        Some(contents) => Some(contents@),
        None => None,
    }
}

/// Stores `entry` for `name`: in the place of what was stored for it, or
/// at the end.
fn place_entry(costs: &mut Vec<(String, CostEntry)>, name: String, entry: CostEntry)
    ensures
        entries_view(final(costs)@) == placed(entries_view(old(costs)@), name@, entry),
{
    let at = find_entry(costs, name.as_str());
    if at < costs.len() {
        costs.set(at, (name, entry));
    } else {
        costs.push((name, entry));
    }
    assert(entries_view(costs@) =~= placed(entries_view(old(costs)@), name@, entry));
}

/// The database at start-up, given what was stored, if anything could be
/// read, and the noise under which the defaults are read otherwise.  Of
/// what was stored, a confidence above one comes down to one, and of a name
/// stored more than once the last entry stands.
pub fn load_cost_database_at(stored: Option<CostDatabaseView>, readings: &Vec<u32>) -> (db:
    CostDatabase)
    ensures
        db@ == restored(stored_table(stored), readings@),
{
    match stored {
        Some(contents) => {
            let ghost entries = contents@.entries;
            let mut costs: Vec<(String, CostEntry)> = Vec::new();
            let mut i: usize = 0;
            assert(entries_view(costs@) =~= admitted_upto(entries, 0));
            while i < contents.costs.len()
                invariant
                    i <= contents.costs@.len(),
                    entries == entries_view(contents.costs@),
                    entries_view(costs@) == admitted_upto(entries, i as nat),
                decreases contents.costs@.len() - i,
            {
                let entry = contents.costs[i].1;
                let confidence: u32 = if entry.confidence > CONFIDENCE_SCALE {
                    CONFIDENCE_SCALE
                } else {
                    entry.confidence
                };
                place_entry(
                    &mut costs,
                    contents.costs[i].0.clone(),
                    CostEntry { cost: entry.cost, confidence, samples: entry.samples },
                );
                i = i + 1;
            }
            proof {
                lemma_admitted_wf(entries, entries.len());
            }
            CostDatabase { costs, last_updated: contents.last_updated }
        },
        None => seeded_database_at(readings),
    }
}

/// The database at start-up: what was stored, as a database admits it, if
/// anything could be read; else the defaults as read now.
pub fn load_cost_database(stored: Option<CostDatabaseView>) -> (db: CostDatabase)
    ensures
        exists|readings: Seq<u32>| db@ == #[trigger] restored(stored_table(stored), readings),
{
    let readings = clock_readings(DEFAULT_COUNT);
    load_cost_database_at(stored, &readings)
}

} // verus!
