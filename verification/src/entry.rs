//! A single decision record and the alternatives it weighed.
use vstd::prelude::*;
use crate::text::{chars_of, decimal, push_decimal, trim, trim_range};

verus! {

/// An alternative that was considered during decision-making.
#[derive(Debug, Clone, PartialEq)]
pub struct Alternative {
    pub name: String,
    pub reason: String,
    pub selected: bool,
}

/// The abstract value of an [`Alternative`].
pub struct AlternativeView {
    pub name: Seq<char>,
    pub reason: Seq<char>,
    pub selected: bool,
}

impl View for Alternative {
    type V = AlternativeView;

    open spec fn view(&self) -> AlternativeView {
        AlternativeView { name: self.name@, reason: self.reason@, selected: self.selected }
    }
}

impl Alternative {
    pub fn new(name: &str, reason: &str, selected: bool) -> (a: Self)
        ensures
            a@ == (AlternativeView { name: name@, reason: reason@, selected }),
    {
        Alternative { name: String::from_str(name), reason: String::from_str(reason), selected }
    }
}

/// A single provenance entry: a decision record.
///
/// `conservation_cost` holds the IEEE-754 binary64 encoding of the cost
/// (`f64::to_bits`); all arithmetic and formatting of the cost happen
/// outside this library.
#[derive(Debug, Clone, PartialEq)]
pub struct ProvenanceEntry {
    pub id: String,
    pub timestamp: u64,
    pub commit_sha: Option<String>,
    pub intent: String,
    pub model_used: String,
    pub agent_host: String,
    pub alternatives: Vec<Alternative>,
    pub tradeoffs: String,
    pub debt: String,
    pub files_changed: Vec<String>,
    pub tests_passed: bool,
    pub conservation_cost: u64,
    pub room_id: Option<String>,
}

/// The abstract value of a [`ProvenanceEntry`].
pub struct EntryView {
    pub id: Seq<char>,
    pub timestamp: u64,
    pub commit_sha: Option<Seq<char>>,
    pub intent: Seq<char>,
    pub model_used: Seq<char>,
    pub agent_host: Seq<char>,
    pub alternatives: Seq<AlternativeView>,
    pub tradeoffs: Seq<char>,
    pub debt: Seq<char>,
    pub files_changed: Seq<Seq<char>>,
    pub tests_passed: bool,
    pub conservation_cost: u64,
    pub room_id: Option<Seq<char>>,
}

/// The characters of an optional string.
pub open spec fn opt_view(o: Option<String>) -> Option<Seq<char>> {
    match o {
        Some(s) => Some(s@),
        None => None,
    }
}

/// The characters of each string.
pub open spec fn strings_view(v: Seq<String>) -> Seq<Seq<char>> {
    v.map_values(|s: String| s@)
}

/// The abstract value of each alternative.
pub open spec fn alternatives_view(v: Seq<Alternative>) -> Seq<AlternativeView> {
    v.map_values(|a: Alternative| a@)
}

impl View for ProvenanceEntry {
    type V = EntryView;

    open spec fn view(&self) -> EntryView {
        EntryView {
            id: self.id@,
            timestamp: self.timestamp,
            commit_sha: opt_view(self.commit_sha),
            intent: self.intent@,
            model_used: self.model_used@,
            agent_host: self.agent_host@,
            alternatives: alternatives_view(self.alternatives@),
            tradeoffs: self.tradeoffs@,
            debt: self.debt@,
            files_changed: strings_view(self.files_changed@),
            tests_passed: self.tests_passed,
            conservation_cost: self.conservation_cost,
            room_id: opt_view(self.room_id),
        }
    }
}

/// The identifier an entry created at `millis` milliseconds past the Unix
/// epoch gets: `prov-` and the decimal milliseconds.
pub open spec fn provenance_id(millis: nat) -> Seq<char> {
    "prov-"@ + decimal(millis)
}

/// A new entry with the given intent and model, created at `millis`
/// milliseconds and `secs` seconds past the Unix epoch.
pub open spec fn fresh_entry(intent: Seq<char>, model: Seq<char>, millis: nat, secs: u64) -> EntryView {
    EntryView {
        id: provenance_id(millis),
        timestamp: secs,
        commit_sha: None,
        intent,
        model_used: model,
        agent_host: Seq::empty(),
        alternatives: Seq::empty(),
        tradeoffs: Seq::empty(),
        debt: Seq::empty(),
        files_changed: Seq::empty(),
        tests_passed: false,
        conservation_cost: 0,
        room_id: None,
    }
}

/// `text` is empty once its surrounding whitespace is removed.
pub open spec fn is_blank(text: Seq<char>) -> bool {
    trim(text).len() == 0
}

/// The messages that validation reports for `e`, in order.
pub open spec fn validation_errors(e: EntryView) -> Seq<Seq<char>> {
    (if is_blank(e.intent) { seq!["Intent is required"@] } else { Seq::empty() })
    + (if e.alternatives.len() == 0 {
        seq!["At least one alternative is required"@]
    } else {
        Seq::empty()
    }) + (if is_blank(e.tradeoffs) { seq!["Tradeoffs are required"@] } else { Seq::empty() })
}

/// `e` has an intent, at least one alternative and trade-offs.
pub open spec fn is_valid(e: EntryView) -> bool {
    validation_errors(e).len() == 0
}

/// The current time as `SystemTime::now()` reports it, measured from the
/// Unix epoch: whole seconds and the nanoseconds past them. A clock set
/// before the epoch reads as zero. Nothing is promised of the value but
/// that the nanoseconds are less than one second.
#[verifier::external_body]
fn unix_time_now() -> (t: (u64, u32))
    ensures
        t.1 < 1_000_000_000,
{
    let d = std::time::SystemTime::now().duration_since(std::time::UNIX_EPOCH).unwrap_or_default();
    (d.as_secs(), d.subsec_nanos())
}

/// The milliseconds of a time of `secs` whole seconds and `nanos`
/// nanoseconds (`Duration::as_millis`).
pub open spec fn millis_of(secs: u64, nanos: u32) -> nat {
    secs as nat * 1000 + (nanos / 1_000_000) as nat
}

/// Milliseconds past the Unix epoch now (`Duration::as_millis`): the whole
/// seconds of a clock reading times one thousand, plus the whole
/// milliseconds of its nanoseconds.
pub(crate) fn now_millis() -> (m: u128)
    ensures
        exists|secs: u64, nanos: u32|
            nanos < 1_000_000_000 && m == #[trigger] millis_of(secs, nanos),
{
    let (secs, nanos) = unix_time_now();
    let m = secs as u128 * 1000 + (nanos / 1_000_000) as u128;
    assert(nanos < 1_000_000_000 && m == millis_of(secs, nanos));
    m
}

/// Whole seconds past the Unix epoch now (`Duration::as_secs`).
pub(crate) fn now_secs() -> (s: u64) {
    let (secs, _nanos) = unix_time_now();
    secs
}

/// Whether `s` is empty once trimmed.
pub fn blank(s: &str) -> (r: bool)
    ensures
        r == is_blank(s@),
{
    let cs = chars_of(s);
    let (a, b) = trim_range(&cs, 0, cs.len());
    assert(cs@.subrange(0, cs@.len() as int) =~= s@);
    a == b
}

impl ProvenanceEntry {
    /// A new entry with the given intent and model, stamped with the given
    /// creation time: `millis` for its identifier, `secs` for its timestamp.
    pub fn new_at(intent: &str, model: &str, millis: u128, secs: u64) -> (e: Self)
        ensures
            e@ == fresh_entry(intent@, model@, millis as nat, secs),
    {
        let mut id = String::from_str("prov-");
        push_decimal(&mut id, millis);
        let e = ProvenanceEntry {
            id,
            timestamp: secs,
            commit_sha: None,
            intent: String::from_str(intent),
            model_used: String::from_str(model),
            agent_host: String::new(),
            alternatives: Vec::new(),
            tradeoffs: String::new(),
            debt: String::new(),
            files_changed: Vec::new(),
            tests_passed: false,
            conservation_cost: 0,
            room_id: None,
        };
        assert(alternatives_view(e.alternatives@) =~= Seq::empty());
        assert(strings_view(e.files_changed@) =~= Seq::empty());
        e
    }

    /// A new entry with the given intent and model, identified and stamped
    /// with the current time.
    pub fn new(intent: &str, model: &str) -> (e: Self)
        ensures
            exists|millis: nat, secs: u64| e@ == fresh_entry(intent@, model@, millis, secs),
    {
        let millis = now_millis();
        let secs = now_secs();
        Self::new_at(intent, model, millis, secs)
    }

    /// Add an alternative that was considered.
    pub fn add_alternative(&mut self, name: &str, reason: &str, selected: bool)
        ensures
            final(self)@ == (EntryView {
                alternatives: old(self)@.alternatives.push(
                    AlternativeView { name: name@, reason: reason@, selected },
                ),
                ..old(self)@
            }),
    {
        let alt = Alternative::new(name, reason, selected);
        self.alternatives.push(alt);
        assert(alternatives_view(self.alternatives@) =~= alternatives_view(
            old(self).alternatives@,
        ).push(alt@));
    }

    /// Set the tradeoffs description.
    pub fn set_tradeoffs(&mut self, t: &str)
        ensures
            final(self)@ == (EntryView { tradeoffs: t@, ..old(self)@ }),
    {
        self.tradeoffs = String::from_str(t);
    }

    /// Set the technical debt incurred.
    pub fn set_debt(&mut self, d: &str)
        ensures
            final(self)@ == (EntryView { debt: d@, ..old(self)@ }),
    {
        self.debt = String::from_str(d);
    }

    /// Link this entry to a git commit.
    pub fn link_commit(&mut self, sha: &str)
        ensures
            final(self)@ == (EntryView { commit_sha: Some(sha@), ..old(self)@ }),
    {
        self.commit_sha = Some(String::from_str(sha));
    }

    /// Link this entry to a room.
    pub fn link_room(&mut self, room: &str)
        ensures
            final(self)@ == (EntryView { room_id: Some(room@), ..old(self)@ }),
    {
        self.room_id = Some(String::from_str(room));
    }

    /// Link files that were changed; the list replaces any earlier one.
    pub fn link_files(&mut self, files: &[&str])
        ensures
            final(self)@ == (EntryView {
                files_changed: files@.map_values(|f: &str| f@),
                ..old(self)@
            }),
    {
        let mut v: Vec<String> = Vec::new();
        let mut i: usize = 0;
        while i < files.len()
            invariant
                i <= files@.len(),
                strings_view(v@) =~= files@.take(i as int).map_values(|f: &str| f@),
            decreases files.len() - i,
        {
            let ghost before = v@;
            v.push(String::from_str(files[i]));
            assert(files@.take(i + 1) =~= files@.take(i as int).push(files@[i as int]));
            assert(strings_view(v@) =~= strings_view(before).push(files@[i as int]@));
            i += 1;
        }
        assert(files@.take(files@.len() as int) =~= files@);
        self.files_changed = v;
    }

    /// Set whether tests passed.
    pub fn set_tests_passed(&mut self, passed: bool)
        ensures
            final(self)@ == (EntryView { tests_passed: passed, ..old(self)@ }),
    {
        self.tests_passed = passed;
    }

    /// Validate this entry: it must have an intent, at least one alternative
    /// and trade-offs. The errors name every missing part, in that order.
    pub fn validate(&self) -> (r: Result<(), Vec<String>>)
        ensures
            r is Ok <==> is_valid(self@),
            r matches Err(errs) ==> strings_view(errs@) == validation_errors(self@),
    {
        let mut errors: Vec<String> = Vec::new();
        if blank(self.intent.as_str()) {
            errors.push(String::from_str("Intent is required"));
        }
        if self.alternatives.len() == 0 {
            errors.push(String::from_str("At least one alternative is required"));
        }
        if blank(self.tradeoffs.as_str()) {
            errors.push(String::from_str("Tradeoffs are required"));
        }
        assert(strings_view(errors@) =~= validation_errors(self@));
        if errors.len() == 0 {
            Ok(())
        } else {
            Err(errors)
        }
    }
}

} // verus!
