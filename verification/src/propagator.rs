//! Orbital state resolution, propagation orchestration and trajectory
//! aggregation.
//!
//! The analytic perturbation model comes from the `sgp4` crate and is an
//! external collaborator: its element constructor, constants derivation
//! and stepping function sit behind trusted declarations.  The model is
//! a pure function of the record handed to it, so whether it accepts a
//! record, and whether each propagation step succeeds, are named as
//! uninterpreted functions of the record's plain values
//! ([`model_accepts`], [`step_ok`]); the contracts around them then say
//! exactly which records are kept and which are skipped.  Everything
//! around the model — the per-minute sampling loop, the per-object error
//! policy and the assembly of the output collection — is verified.

use vstd::prelude::*;
use vstd::utf8::encode_utf8;

use crate::tle::RecordModel;
use crate::tle::TLE;

verus! {

/// Orbital elements parsed by the external model (opaque to this library;
/// they carry the object's epoch and mean orbital parameters).
#[verifier::external_type_specification]
#[verifier::external_body]
pub struct ExElements(sgp4::Elements);

/// Propagation constants derived by the external model (opaque).
#[verifier::external_type_specification]
#[verifier::external_body]
pub struct ExConstants(sgp4::Constants);

/// One predicted inertial-frame position and velocity sample (opaque).
#[verifier::external_type_specification]
#[verifier::external_body]
pub struct ExPrediction(sgp4::Prediction);

/// A line is safe to hand to the external element constructor: the
/// constructor's checksum verification subtracts the digit `'0'` from
/// byte 68 of each 69-byte line, so such a line must carry no smaller
/// byte there.
pub open spec fn tle_line_safe(line: Seq<char>) -> bool {
    encode_utf8(line).len() == 69 ==> encode_utf8(line)[68] >= 48
}

/// Whether the external model accepts a record: both constructors — the
/// element parser and the constants derivation — are pure functions of
/// the record's name and lines, so their joint success is a function of
/// those plain values.
pub uninterp spec fn model_accepts(name: Option<Seq<char>>, line1: Seq<char>, line2: Seq<char>) -> bool;

/// Whether the external model's stepping function succeeds at the given
/// minute for the record: the prediction is a pure function of the
/// elements (hence of the record's plain values) and the elapsed time.
pub uninterp spec fn step_ok(
    name: Option<Seq<char>>,
    line1: Seq<char>,
    line2: Seq<char>,
    minute: u32,
) -> bool;

/// Relies on `sgp4::Elements::from_tle` chained with
/// `sgp4::Constants::from_elements`: the former builds orbital elements
/// from the record's name and lines, validating field contents and
/// checksums, the latter derives the propagation constants.  Both are
/// pure functions of the record, so their joint success is the named
/// function [`model_accepts`] of its plain values; either failure is
/// returned as its display message.
#[verifier::external_body]
fn model_resolve(name: Option<String>, line1: &str, line2: &str) -> (r: Result<
    (sgp4::Elements, sgp4::Constants),
    String,
>)
    requires
        tle_line_safe(line1@),
        tle_line_safe(line2@),
    ensures
        (r is Ok) == model_accepts(name.deep_view(), line1@, line2@),
{
    let elements = match sgp4::Elements::from_tle(name, line1.as_bytes(), line2.as_bytes()) {
        Ok(elements) => elements,
        Err(e) => return Err(format!("{}", e)),
    };
    match sgp4::Constants::from_elements(&elements) {
        Ok(constants) => Ok((elements, constants)),
        Err(e) => Err(format!("{}", e)),
    }
}

/// Rejection of one record by the external elements constructor.
#[derive(Debug)]
pub struct ElementError {
    /// The external model's diagnostic.
    pub message: String,
}

/// A mid-propagation failure of one object.
#[derive(Debug)]
pub struct PropagationError {
    /// The sample index (elapsed minutes since epoch) at which the
    /// external model failed.
    pub step: u32,
    /// The external model's diagnostic.
    pub message: String,
}

/// The resolved orbital state of one object: the record it came from,
/// the elements parsed from it and the propagation constants derived
/// from them.  The fields are private and [`resolve`] is the only
/// constructor, so in every value `elements` and `constants` are exactly
/// what the external model derives from `name`, `line1` and `line2`;
/// the trusted stepping wrapper relies on that pairing.
#[derive(Debug)]
pub struct OrbitalState {
    name: Option<String>,
    line1: String,
    line2: String,
    elements: sgp4::Elements,
    constants: sgp4::Constants,
}

impl View for OrbitalState {
    type V = RecordModel;

    closed spec fn view(&self) -> RecordModel {
        RecordModel {
            name: match self.name {
                Some(n) => Some(n@),
                None => None,
            },
            line1: self.line1@,
            line2: self.line2@,
        }
    }
}

/// Relies on `sgp4::Constants::propagate`: predicts position and
/// velocity the given number of minutes after the elements' epoch.  The
/// prediction is a pure function of the constants and the minute, and an
/// [`OrbitalState`]'s constants are those the model derives from its
/// record (see that type's documentation), so success is the named function
/// [`step_ok`] of the record's plain values and the minute; a
/// numerically diverged state is returned as its display message.
#[verifier::external_body]
fn propagate_prediction(state: &OrbitalState, minutes: u32) -> (r: Result<sgp4::Prediction, String>)
    ensures
        (r is Ok) == step_ok(state@.name, state@.line1, state@.line2, minutes),
{
    match state.constants.propagate(sgp4::MinutesSinceEpoch(minutes.into())) {
        Ok(prediction) => Ok(prediction),
        Err(e) => Err(format!("{}", e)),
    }
}

/// One object's name and ordered position history in the output
/// collection.
#[derive(Debug)]
pub struct Trajectory {
    /// The object's name, or the default label when the record had none.
    pub object_name: String,
    /// The index of the record this trajectory was computed from, in
    /// parse order.
    pub source_index: usize,
    /// The elements the object was resolved from; consumers read the
    /// epoch from them when rotating samples into an Earth-fixed frame.
    pub elements: sgp4::Elements,
    /// One predicted position per elapsed minute since the epoch, in
    /// order of non-decreasing elapsed time.
    pub positions: Vec<sgp4::Prediction>,
}

/// Checks that a line may be handed to the external element constructor
/// (see [`tle_line_safe`]).
fn line_is_safe(line: &str) -> (r: bool)
    ensures
        r == tle_line_safe(line@),
{
    let bytes = line.as_bytes();
    bytes.len() != 69 || bytes[68] >= 48
}

/// Resolves one record into an orbital state by forwarding its name and
/// lines verbatim to the external model's constructors; this succeeds
/// exactly when the model accepts the record, and any rejection is
/// surfaced as an [`ElementError`] carrying the external diagnostic.  A
/// 69-byte line without a digit-range byte at the checksum position is
/// rejected directly, mirroring the constructor's checksum validation,
/// which cannot accept such a line; only for that case the diagnostic is
/// this library's own wording of the model's bad-checksum rejection.
pub fn resolve(tle: &TLE) -> (r: Result<OrbitalState, ElementError>)
    ensures
        r is Ok <==> tle_line_safe(tle@.line1) && tle_line_safe(tle@.line2) && model_accepts(
            tle@.name,
            tle@.line1,
            tle@.line2,
        ),
        r matches Ok(state) ==> state@ == tle@,
{
    if !line_is_safe(tle.line1.as_str()) || !line_is_safe(tle.line2.as_str()) {
        return Err(ElementError { message: "TLE parse error: Bad line checksum".to_owned() });
    }
    let name = match &tle.name {
        Some(n) => Some(n.clone()),
        None => None,
    };
    let (elements, constants) = match model_resolve(
        name,
        tle.line1.as_str(),
        tle.line2.as_str(),
    ) {
        Ok(parts) => parts,
        Err(message) => {
            return Err(ElementError { message });
        },
    };
    let name = match &tle.name {
        Some(n) => Some(n.clone()),
        None => None,
    };
    Ok(
        OrbitalState {
            name,
            line1: tle.line1.clone(),
            line2: tle.line2.clone(),
            elements,
            constants,
        },
    )
}

/// All steps strictly below `duration` succeed for the record.
pub open spec fn steps_ok_below(rec: RecordModel, duration: int) -> bool {
    forall|m: u32|
        (m as int) < duration ==> #[trigger] step_ok(rec.name, rec.line1, rec.line2, m)
}

/// Steps an orbital state forward at a fixed cadence of one sample per
/// minute.  A window of `duration_minutes` succeeds exactly when every
/// step in it does, and then yields one position per elapsed minute
/// `0, 1, …, duration_minutes - 1`; a window of zero minutes always
/// succeeds with an empty history.  Otherwise the whole propagation of
/// this object fails at the first failing minute, and no partial history
/// is returned.
pub fn propagate(state: &OrbitalState, duration_minutes: u32) -> (r: Result<
    Vec<sgp4::Prediction>,
    PropagationError,
>)
    ensures
        r is Ok <==> steps_ok_below(state@, duration_minutes as int),
        r matches Ok(samples) ==> samples@.len() == duration_minutes,
        duration_minutes == 0 ==> r is Ok,
        r matches Err(e) ==> e.step < duration_minutes && !step_ok(
            state@.name,
            state@.line1,
            state@.line2,
            e.step,
        ) && steps_ok_below(state@, e.step as int),
{
    let mut samples: Vec<sgp4::Prediction> = Vec::new();
    let mut minutes: u32 = 0;
    while minutes < duration_minutes
        invariant
            minutes <= duration_minutes,
            samples@.len() == minutes,
            steps_ok_below(state@, minutes as int),
        decreases duration_minutes - minutes,
    {
        match propagate_prediction(state, minutes) {
            Ok(prediction) => samples.push(prediction),
            Err(message) => {
                return Err(PropagationError { step: minutes, message });
            },
        }
        minutes = minutes + 1;
    }
    Ok(samples)
}

/// The object name recorded in a trajectory: the record's own name, or
/// the default label for unnamed objects.
pub open spec fn object_name_of(name: Option<Seq<char>>) -> Seq<char> {
    match name {
        Some(n) => n,
        None => "Unnamed object"@,
    }
}

/// The default label given to records without a name line.
pub fn unnamed_object_label() -> (s: String)
    ensures
        s@ == object_name_of(None),
{
    "Unnamed object".to_owned()
}

/// Assembles one object's trajectory: applies the default name when the
/// record has none, and keeps the positions exactly as propagated.
pub fn aggregate(
    record_name: Option<String>,
    elements: sgp4::Elements,
    positions: Vec<sgp4::Prediction>,
    source_index: usize,
) -> (t: Trajectory)
    ensures
        t.object_name@ == object_name_of(record_name.deep_view()),
        t.positions == positions,
        t.source_index == source_index,
        t.elements == elements,
{
    let object_name = match record_name {
        Some(n) => n,
        None => unnamed_object_label(),
    };
    Trajectory { object_name, source_index, elements, positions }
}

/// Why a record produced no trajectory.
#[derive(Debug)]
pub enum SkipReason {
    /// The external model rejected the record's element data.
    Element(ElementError),
    /// The external model failed while stepping the object.
    Propagation(PropagationError),
}

/// The diagnostic that one record was skipped: a malformed object must
/// not prevent propagating the valid ones, but its failure is reported.
#[derive(Debug)]
pub struct SkippedObject {
    /// Index of the skipped record, in parse order.
    pub source_index: usize,
    /// What failed.
    pub reason: SkipReason,
}

/// The whole run succeeds for a record: its lines can be handed to the
/// model, the model accepts them, and every step of the window succeeds.
pub open spec fn record_succeeds(rec: RecordModel, duration: int) -> bool {
    &&& tle_line_safe(rec.line1)
    &&& tle_line_safe(rec.line2)
    &&& model_accepts(rec.name, rec.line1, rec.line2)
    &&& steps_ok_below(rec, duration)
}

/// Some trajectory in `kept` points at record index `k`.
pub open spec fn record_kept(k: int, kept: Seq<Trajectory>) -> bool {
    exists|i: int| 0 <= i < kept.len() && (#[trigger] kept[i]).source_index == k
}

/// Some diagnostic in `skipped` points at record index `k`.
pub open spec fn record_skipped(k: int, skipped: Seq<SkippedObject>) -> bool {
    exists|j: int| 0 <= j < skipped.len() && (#[trigger] skipped[j]).source_index == k
}

/// A skip diagnostic tells the truth about its record: an `Element`
/// reason exactly when the model rejects the record (or its lines cannot
/// be handed over), and a `Propagation` reason carrying the first
/// failing minute of an accepted record.
pub open spec fn skip_reflects(s: SkippedObject, records: Seq<RecordModel>, duration: int) -> bool {
    &&& 0 <= s.source_index < records.len()
    &&& {
        let rec = records[s.source_index as int];
        match s.reason {
            SkipReason::Element(_) => !(tle_line_safe(rec.line1) && tle_line_safe(rec.line2)
                && model_accepts(rec.name, rec.line1, rec.line2)),
            SkipReason::Propagation(p) => {
                &&& tle_line_safe(rec.line1)
                &&& tle_line_safe(rec.line2)
                &&& model_accepts(rec.name, rec.line1, rec.line2)
                &&& p.step < duration
                &&& !step_ok(rec.name, rec.line1, rec.line2, p.step)
                &&& steps_ok_below(rec, p.step as int)
            },
        }
    }
}

/// Whether trajectory `t` faithfully reports on one of `records` across a
/// window of `duration` minutes: it points at a record, carries that
/// record's (defaulted) name, and holds one position per minute.
pub open spec fn trajectory_matches(
    t: Trajectory,
    records: Seq<RecordModel>,
    duration: int,
) -> bool {
    &&& t.positions@.len() == duration
    &&& 0 <= t.source_index < records.len()
    &&& t.object_name@ == object_name_of(records[t.source_index as int].name)
}

/// Everything the orchestration promises of an outcome: the two
/// collections account for every record exactly once, in record order; a
/// record is kept exactly when the whole run succeeds for it, and
/// skipped — with a truthful diagnostic — exactly when it does not; and
/// every trajectory reports its record's (defaulted) name with one
/// position per minute of the window.
pub open spec fn outcome_matches(
    records: Seq<RecordModel>,
    duration: int,
    kept: Seq<Trajectory>,
    skipped: Seq<SkippedObject>,
) -> bool {
    &&& kept.len() + skipped.len() == records.len()
    &&& forall|i: int|
        0 <= i < kept.len() ==> trajectory_matches(#[trigger] kept[i], records, duration)
    &&& forall|i: int, j: int| 0 <= i < j < kept.len() ==> kept[i].source_index < kept[j].source_index
    &&& forall|i: int, j: int|
        0 <= i < j < skipped.len() ==> skipped[i].source_index < skipped[j].source_index
    &&& forall|j: int|
        0 <= j < skipped.len() ==> skip_reflects(#[trigger] skipped[j], records, duration)
    &&& forall|k: int|
        record_kept(k, kept) <==> (0 <= k < records.len() && record_succeeds(records[k], duration))
    &&& forall|k: int|
        0 <= k < records.len() ==> (record_skipped(k, skipped) <==> !record_succeeds(
            records[k],
            duration,
        ))
}

/// Some position of `a` holds `k`.
spec fn seq_has(a: Seq<int>, k: int) -> bool {
    exists|i: int| #![trigger a[i]] 0 <= i < a.len() && a[i] == k
}

/// Two strictly increasing integer sequences with the same members are
/// equal.
proof fn lemma_increasing_same_members(a: Seq<int>, b: Seq<int>)
    requires
        forall|i: int, j: int| 0 <= i < j < a.len() ==> a[i] < a[j],
        forall|i: int, j: int| 0 <= i < j < b.len() ==> b[i] < b[j],
        forall|k: int| seq_has(a, k) <==> seq_has(b, k),
    ensures
        a == b,
    decreases a.len(),
{
    if a.len() == 0 {
        if b.len() > 0 {
            assert(seq_has(b, b[0]));
            let i = choose|i: int| #![trigger a[i]] 0 <= i < a.len() && a[i] == b[0];
            assert(false);
        }
        assert(a =~= b);
    } else if b.len() == 0 {
        assert(seq_has(a, a[0]));
        let i = choose|i: int| #![trigger b[i]] 0 <= i < b.len() && b[i] == a[0];
        assert(false);
    } else {
        assert(seq_has(a, a[0]));
        assert(seq_has(b, b[0]));
        let ib = choose|i: int| #![trigger b[i]] 0 <= i < b.len() && b[i] == a[0];
        let ia = choose|i: int| #![trigger a[i]] 0 <= i < a.len() && a[i] == b[0];
        assert(ib == 0 || b[0] < b[ib]);
        assert(ia == 0 || a[0] < a[ia]);
        assert(a[0] == b[0]);
        let at = a.drop_first();
        let bt = b.drop_first();
        assert forall|i: int, j: int| 0 <= i < j < at.len() implies at[i] < at[j] by {
            assert(at[i] == a[i + 1] && at[j] == a[j + 1]);
        }
        assert forall|i: int, j: int| 0 <= i < j < bt.len() implies bt[i] < bt[j] by {
            assert(bt[i] == b[i + 1] && bt[j] == b[j + 1]);
        }
        assert forall|k: int| seq_has(at, k) <==> seq_has(bt, k) by {
            if seq_has(at, k) {
                let i = choose|i: int| #![trigger at[i]] 0 <= i < at.len() && at[i] == k;
                assert(a[i + 1] == k);
                assert(a[0] < k);
                assert(seq_has(a, k));
                let j = choose|j: int| #![trigger b[j]] 0 <= j < b.len() && b[j] == k;
                assert(j != 0);
                assert(bt[j - 1] == k);
            }
            if seq_has(bt, k) {
                let i = choose|i: int| #![trigger bt[i]] 0 <= i < bt.len() && bt[i] == k;
                assert(b[i + 1] == k);
                assert(b[0] < k);
                assert(seq_has(b, k));
                let j = choose|j: int| #![trigger a[j]] 0 <= j < a.len() && a[j] == k;
                assert(j != 0);
                assert(at[j - 1] == k);
            }
        }
        lemma_increasing_same_members(at, bt);
        assert(a =~= b) by {
            assert(a.len() == b.len());
            assert forall|i: int| 0 <= i < a.len() implies a[i] == b[i] by {
                if i > 0 {
                    assert(a[i] == at[i - 1] && b[i] == bt[i - 1]);
                }
            }
        }
    }
}

/// Law: the outcome is a function of the records and the window alone.
/// Any two outcomes of the same records over the same window keep
/// exactly the same record indices, in the same order, with the same
/// (defaulted) names and the same sample counts, and skip exactly the
/// same record indices.  (The predicted coordinates themselves are
/// values of the external model, which this library does not model.)
pub proof fn lemma_outcome_deterministic(
    records: Seq<RecordModel>,
    duration: int,
    kept1: Seq<Trajectory>,
    skipped1: Seq<SkippedObject>,
    kept2: Seq<Trajectory>,
    skipped2: Seq<SkippedObject>,
)
    requires
        outcome_matches(records, duration, kept1, skipped1),
        outcome_matches(records, duration, kept2, skipped2),
    ensures
        kept1.len() == kept2.len(),
        forall|i: int|
            0 <= i < kept1.len() ==> {
                &&& (#[trigger] kept1[i]).source_index == kept2[i].source_index
                &&& kept1[i].object_name@ == kept2[i].object_name@
                &&& kept1[i].positions@.len() == kept2[i].positions@.len()
            },
        skipped1.len() == skipped2.len(),
        forall|j: int|
            0 <= j < skipped1.len() ==> (#[trigger] skipped1[j]).source_index
                == skipped2[j].source_index,
{
    let sa = Seq::new(kept1.len(), |i: int| kept1[i].source_index as int);
    let sb = Seq::new(kept2.len(), |i: int| kept2[i].source_index as int);
    assert forall|k: int| seq_has(sa, k) <==> seq_has(sb, k) by {
        lemma_members_are_kept(kept1, sa, k);
        lemma_members_are_kept(kept2, sb, k);
    }
    lemma_increasing_same_members(sa, sb);
    assert forall|i: int|
        0 <= i < kept1.len() implies {
        &&& (#[trigger] kept1[i]).source_index == kept2[i].source_index
        &&& kept1[i].object_name@ == kept2[i].object_name@
        &&& kept1[i].positions@.len() == kept2[i].positions@.len()
    } by {
        assert(sa[i] == sb[i]);
        assert(trajectory_matches(kept1[i], records, duration));
        assert(trajectory_matches(kept2[i], records, duration));
    }
    let ta = Seq::new(skipped1.len(), |j: int| skipped1[j].source_index as int);
    let tb = Seq::new(skipped2.len(), |j: int| skipped2[j].source_index as int);
    assert forall|k: int| seq_has(ta, k) <==> seq_has(tb, k) by {
        lemma_members_are_skipped(skipped1, ta, k);
        lemma_members_are_skipped(skipped2, tb, k);
        if !(0 <= k < records.len()) {
            if record_skipped(k, skipped1) {
                let j = choose|j: int|
                    0 <= j < skipped1.len() && (#[trigger] skipped1[j]).source_index == k;
                assert(skip_reflects(skipped1[j], records, duration));
                assert(false);
            }
            if record_skipped(k, skipped2) {
                let j = choose|j: int|
                    0 <= j < skipped2.len() && (#[trigger] skipped2[j]).source_index == k;
                assert(skip_reflects(skipped2[j], records, duration));
                assert(false);
            }
        }
    }
    lemma_increasing_same_members(ta, tb);
    assert forall|j: int|
        0 <= j < skipped1.len() implies (#[trigger] skipped1[j]).source_index
        == skipped2[j].source_index by {
        assert(ta[j] == tb[j]);
    }
}

/// The index sequence of `kept` holds `k` exactly when record `k` is
/// kept.
proof fn lemma_members_are_kept(kept: Seq<Trajectory>, sa: Seq<int>, k: int)
    requires
        sa == Seq::new(kept.len(), |i: int| kept[i].source_index as int),
    ensures
        seq_has(sa, k) <==> record_kept(k, kept),
{
    if seq_has(sa, k) {
        let i = choose|i: int| #![trigger sa[i]] 0 <= i < sa.len() && sa[i] == k;
        assert((kept[i]).source_index == k);
    }
    if record_kept(k, kept) {
        let i = choose|i: int| 0 <= i < kept.len() && (#[trigger] kept[i]).source_index == k;
        assert(sa[i] == k);
    }
}

/// The index sequence of `skipped` holds `k` exactly when record `k` is
/// skipped.
proof fn lemma_members_are_skipped(skipped: Seq<SkippedObject>, ta: Seq<int>, k: int)
    requires
        ta == Seq::new(skipped.len(), |j: int| skipped[j].source_index as int),
    ensures
        seq_has(ta, k) <==> record_skipped(k, skipped),
{
    if seq_has(ta, k) {
        let j = choose|j: int| #![trigger ta[j]] 0 <= j < ta.len() && ta[j] == k;
        assert((skipped[j]).source_index == k);
    }
    if record_skipped(k, skipped) {
        let j = choose|j: int| 0 <= j < skipped.len() && (#[trigger] skipped[j]).source_index == k;
        assert(ta[j] == k);
    }
}

/// Appending a trajectory keeps a record exactly when it was kept before
/// or the new trajectory points at it.
proof fn lemma_kept_push(kept: Seq<Trajectory>, t: Trajectory, k: int)
    ensures
        record_kept(k, kept.push(t)) <==> (record_kept(k, kept) || t.source_index == k),
{
    if record_kept(k, kept.push(t)) {
        let i = choose|i: int|
            0 <= i < kept.push(t).len() && (#[trigger] kept.push(t)[i]).source_index == k;
        if i < kept.len() {
            assert((kept[i]).source_index == k);
        }
    }
    if record_kept(k, kept) {
        let i = choose|i: int| 0 <= i < kept.len() && (#[trigger] kept[i]).source_index == k;
        assert((kept.push(t)[i]).source_index == k);
    }
    if t.source_index == k {
        assert((kept.push(t)[kept.len() as int]).source_index == k);
    }
}

/// Appending a diagnostic marks a record as skipped exactly when it was
/// skipped before or the new diagnostic points at it.
proof fn lemma_skipped_push(skipped: Seq<SkippedObject>, s: SkippedObject, k: int)
    ensures
        record_skipped(k, skipped.push(s)) <==> (record_skipped(k, skipped) || s.source_index == k),
{
    if record_skipped(k, skipped.push(s)) {
        let j = choose|j: int|
            0 <= j < skipped.push(s).len() && (#[trigger] skipped.push(s)[j]).source_index == k;
        if j < skipped.len() {
            assert((skipped[j]).source_index == k);
        }
    }
    if record_skipped(k, skipped) {
        let j = choose|j: int|
            0 <= j < skipped.len() && (#[trigger] skipped[j]).source_index == k;
        assert((skipped.push(s)[j]).source_index == k);
    }
    if s.source_index == k {
        assert((skipped.push(s)[skipped.len() as int]).source_index == k);
    }
}

/// Resolves and propagates each record at one-minute cadence across the
/// configured window.  The first collection holds one trajectory per
/// record the model carries through the whole window, in record order;
/// the second reports every other record with its failure, so that a
/// malformed object neither prevents propagating the valid ones nor
/// disappears silently (see [`outcome_matches`]).
pub fn propagate_tles(tle_list: Vec<TLE>, optional_time: Option<u32>) -> (r: (
    Vec<Trajectory>,
    Vec<SkippedObject>,
))
    requires
        optional_time matches Some(h) ==> h * crate::MINUTES_PER_HOUR <= u32::MAX,
    ensures
        outcome_matches(
            tle_list@.map_values(|t: TLE| t@),
            crate::spec_duration_minutes(optional_time),
            r.0@,
            r.1@,
        ),
{
    let minutes = crate::duration_minutes(optional_time);
    let ghost records = tle_list@.map_values(|t: TLE| t@);
    let mut results: Vec<Trajectory> = Vec::new();
    let mut skipped: Vec<SkippedObject> = Vec::new();
    let mut idx: usize = 0;
    while idx < tle_list.len()
        invariant
            idx <= tle_list@.len(),
            minutes == crate::spec_duration_minutes(optional_time),
            records == tle_list@.map_values(|t: TLE| t@),
            results@.len() + skipped@.len() == idx,
            forall|i: int|
                0 <= i < results@.len() ==> trajectory_matches(
                    #[trigger] results@[i],
                    records,
                    minutes as int,
                ),
            forall|i: int|
                0 <= i < results@.len() ==> (#[trigger] results@[i]).source_index < idx,
            forall|i: int, j: int|
                0 <= i < j < results@.len() ==> results@[i].source_index
                    < results@[j].source_index,
            forall|j: int| 0 <= j < skipped@.len() ==> (#[trigger] skipped@[j]).source_index < idx,
            forall|i: int, j: int|
                0 <= i < j < skipped@.len() ==> skipped@[i].source_index
                    < skipped@[j].source_index,
            forall|j: int|
                0 <= j < skipped@.len() ==> skip_reflects(
                    #[trigger] skipped@[j],
                    records,
                    minutes as int,
                ),
            forall|k: int|
                record_kept(k, results@) <==> (0 <= k < idx && record_succeeds(
                    records[k],
                    minutes as int,
                )),
            forall|k: int|
                0 <= k < idx ==> (record_skipped(k, skipped@) <==> !record_succeeds(
                    records[k],
                    minutes as int,
                )),
        decreases tle_list@.len() - idx,
    {
        let ghost prev_results = results@;
        let ghost prev_skipped = skipped@;
        let ghost rec = records[idx as int];
        let tle = &tle_list[idx];
        proof {
            assert(rec == tle_list@[idx as int]@);
        }
        match resolve(tle) {
            Ok(state) => {
                match propagate(&state, minutes) {
                    Ok(positions) => {
                        let name = match &tle.name {
                            Some(n) => Some(n.clone()),
                            None => None,
                        };
                        let OrbitalState { elements, .. } = state;
                        let t = aggregate(name, elements, positions, idx);
                        results.push(t);
                        proof {
                            assert(record_succeeds(rec, minutes as int));
                            assert forall|k: int|
                                record_kept(k, results@) <==> (0 <= k < idx + 1
                                    && record_succeeds(records[k], minutes as int)) by {
                                lemma_kept_push(prev_results, t, k);
                            }
                            assert(!record_skipped(idx as int, skipped@)) by {
                                if record_skipped(idx as int, skipped@) {
                                    let j = choose|j: int|
                                        0 <= j < skipped@.len() && (#[trigger] skipped@[j]).source_index
                                            == idx as int;
                                }
                            }
                        }
                    },
                    Err(failure) => {
                        let ghost step = failure.step;
                        let s = SkippedObject {
                            source_index: idx,
                            reason: SkipReason::Propagation(failure),
                        };
                        skipped.push(s);
                        proof {
                            assert(!record_succeeds(rec, minutes as int)) by {
                                if record_succeeds(rec, minutes as int) {
                                    assert(step_ok(rec.name, rec.line1, rec.line2, step));
                                }
                            }
                            assert(skip_reflects(s, records, minutes as int));
                            lemma_push_skip_facts(
                                prev_results,
                                prev_skipped,
                                s,
                                records,
                                idx as int,
                                minutes as int,
                            );
                        }
                    },
                }
            },
            Err(rejection) => {
                let s = SkippedObject { source_index: idx, reason: SkipReason::Element(rejection) };
                skipped.push(s);
                proof {
                    assert(!record_succeeds(rec, minutes as int));
                    assert(skip_reflects(s, records, minutes as int));
                    lemma_push_skip_facts(
                        prev_results,
                        prev_skipped,
                        s,
                        records,
                        idx as int,
                        minutes as int,
                    );
                }
            },
        }
        idx = idx + 1;
    }
    (results, skipped)
}

/// After a skip diagnostic for record `idx` is appended, the kept and
/// skipped bookkeeping extends from the processed prefix to `idx`.
proof fn lemma_push_skip_facts(
    kept: Seq<Trajectory>,
    skipped: Seq<SkippedObject>,
    s: SkippedObject,
    records: Seq<RecordModel>,
    idx: int,
    duration: int,
)
    requires
        s.source_index == idx,
        !record_succeeds(records[idx], duration),
        forall|i: int| 0 <= i < kept.len() ==> (#[trigger] kept[i]).source_index < idx,
        forall|k: int|
            record_kept(k, kept) <==> (0 <= k < idx && record_succeeds(records[k], duration)),
        forall|k: int|
            0 <= k < idx ==> (record_skipped(k, skipped) <==> !record_succeeds(
                records[k],
                duration,
            )),
    ensures
        forall|k: int|
            record_kept(k, kept) <==> (0 <= k < idx + 1 && record_succeeds(records[k], duration)),
        forall|k: int|
            0 <= k < idx + 1 ==> (record_skipped(k, skipped.push(s)) <==> !record_succeeds(
                records[k],
                duration,
            )),
{
    assert forall|k: int|
        record_kept(k, kept) <==> (0 <= k < idx + 1 && record_succeeds(records[k], duration)) by {
        if k == idx && record_kept(k, kept) {
            let i = choose|i: int| 0 <= i < kept.len() && (#[trigger] kept[i]).source_index == k;
        }
    }
    assert forall|k: int| 0 <= k < idx + 1 implies (record_skipped(k, skipped.push(s))
        <==> !record_succeeds(records[k], duration)) by {
        lemma_skipped_push(skipped, s, k);
    }
}

} // verus!
