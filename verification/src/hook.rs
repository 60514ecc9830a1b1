//! Pre-commit enforcement: a commit needs a provenance entry for the files
//! it changes.
use vstd::prelude::*;
use crate::entry::{EntryView, ProvenanceEntry, blank, is_valid, strings_view, validation_errors};
use crate::error::HookError;
use crate::ledger::{ProvenanceLedger, same_text};

verus! {

/// Pre-commit hook enforcement for provenance.
#[derive(Debug, Clone, PartialEq)]
pub struct ProvenanceHook {
    pub ledger: ProvenanceLedger,
    pub strict: bool,
}

/// `e` lists one of the files `files` among the files it changed.
pub open spec fn touches(e: ProvenanceEntry, files: Seq<Seq<char>>) -> bool {
    exists|f: Seq<char>| files.contains(f) && strings_view(e.files_changed@).contains(f)
}

/// The index of the last entry of `es` that touches one of `files`.
pub open spec fn last_touching(es: Seq<ProvenanceEntry>, files: Seq<Seq<char>>) -> Option<int>
    decreases es.len(),
{
    if es.len() == 0 {
        None
    } else if touches(es.last(), files) {
        Some(es.len() - 1)
    } else {
        last_touching(es.drop_last(), files)
    }
}

/// Some alternative of `e` was selected.
pub open spec fn has_selected(e: EntryView) -> bool {
    exists|i: int| 0 <= i < e.alternatives.len() && (#[trigger] e.alternatives[i]).selected
}

/// The messages that enforcement reports for `e`, in order.
pub open spec fn enforcement_errors(e: EntryView) -> Seq<Seq<char>> {
    validation_errors(e) + (if e.files_changed.len() == 0 {
        seq!["At least one file must be listed"@]
    } else {
        Seq::empty()
    }) + (if !has_selected(e) {
        seq!["At least one alternative must be selected"@]
    } else {
        Seq::empty()
    })
}

/// The staged files as texts.
pub open spec fn staged(files: Seq<&str>) -> Seq<Seq<char>> {
    files.map_values(|f: &str| f@)
}

/// `e` lists the file `f` among the files it changed.
pub open spec fn names(e: ProvenanceEntry, f: Seq<char>) -> bool {
    strings_view(e.files_changed@).contains(f)
}

/// The index of the last entry of `es` that lists the file `f`.
pub open spec fn last_naming(es: Seq<ProvenanceEntry>, f: Seq<char>) -> Option<int>
    decreases es.len(),
{
    if es.len() == 0 {
        None
    } else if names(es.last(), f) {
        Some(es.len() - 1)
    } else {
        last_naming(es.drop_last(), f)
    }
}

/// The latest entry of `es` that lists the file `f` exists and passes
/// validation.
pub open spec fn file_ok(es: Seq<ProvenanceEntry>, f: Seq<char>) -> bool {
    match last_naming(es, f) {
        Some(k) => 0 <= k < es.len() && is_valid(es[k]@),
        None => false,
    }
}

/// `files[i]` is the first of `files` whose latest entry is missing or
/// fails validation.
pub open spec fn first_failing_at(es: Seq<ProvenanceEntry>, files: Seq<Seq<char>>, i: int) -> bool {
    &&& 0 <= i < files.len()
    &&& !file_ok(es, files[i])
    &&& forall|j: int| 0 <= j < i ==> file_ok(es, #[trigger] files[j])
}

/// What strict validation answers for the file `f` that fails it: no entry
/// lists it, or the latest that does fails validation with these errors.
pub open spec fn failure_answer(
    es: Seq<ProvenanceEntry>,
    f: Seq<char>,
    r: Result<Option<&ProvenanceEntry>, HookError>,
) -> bool {
    match last_naming(es, f) {
        None => r == Err::<Option<&ProvenanceEntry>, HookError>(HookError::NoEntryFound),
        Some(k) => 0 <= k < es.len() && (r matches Err(HookError::EntryInvalid(errs))
            && strings_view(errs@) == validation_errors(es[k]@)),
    }
}

/// What `validate_commit` answers for the staged files `files`: no entry
/// touches them; or the latest entry that does, which in strict mode must
/// pass validation and after which each staged file must pass too (the
/// first that fails decides the error).
pub open spec fn commit_answer(
    strict: bool,
    es: Seq<ProvenanceEntry>,
    files: Seq<Seq<char>>,
    r: Result<Option<&ProvenanceEntry>, HookError>,
) -> bool {
    match last_touching(es, files) {
        None => r == Err::<Option<&ProvenanceEntry>, HookError>(HookError::NoEntryFound),
        Some(k) => 0 <= k < es.len() && if !strict {
            r matches Ok(Some(found)) && *found == es[k]
        } else if !is_valid(es[k]@) {
            r matches Err(HookError::EntryInvalid(errs)) && strings_view(errs@) == validation_errors(
                es[k]@,
            )
        } else {
            &&& forall|i: int| first_failing_at(es, files, i) ==> failure_answer(es, #[trigger] files[i], r)
            &&& (forall|j: int| 0 <= j < files.len() ==> file_ok(es, #[trigger] files[j])) ==> (r matches Ok(
                Some(found),
            ) && *found == es[k])
        },
    }
}

/// The last entry that lists a file lies in the ledger.
pub proof fn lemma_last_naming_bounds(es: Seq<ProvenanceEntry>, f: Seq<char>)
    ensures
        last_naming(es, f) matches Some(k) ==> 0 <= k < es.len() && names(es[k], f),
    decreases es.len(),
{
    if es.len() > 0 && !names(es.last(), f) {
        lemma_last_naming_bounds(es.drop_last(), f);
        if let Some(k) = last_naming(es.drop_last(), f) {
            assert(es[k] == es.drop_last()[k]);
        }
    }
}

/// Whether `e` lists one of `files` among the files it changed.
fn touches_any(e: &ProvenanceEntry, files: &[&str]) -> (r: bool)
    ensures
        r == touches(*e, files@.map_values(|f: &str| f@)),
{
    let ghost fs = files@.map_values(|f: &str| f@);
    let ghost efs = strings_view(e.files_changed@);
    let mut i: usize = 0;
    while i < files.len()
        invariant
            i <= files@.len(),
            fs == files@.map_values(|f: &str| f@),
            efs == strings_view(e.files_changed@),
            forall|a: int, b: int| 0 <= a < i && 0 <= b < efs.len() ==> fs[a] != efs[b],
        decreases files.len() - i,
    {
        let mut j: usize = 0;
        while j < e.files_changed.len()
            invariant
                i < files@.len(),
                j <= e.files_changed@.len(),
                fs == files@.map_values(|f: &str| f@),
                efs == strings_view(e.files_changed@),
                forall|a: int, b: int| 0 <= a < i && 0 <= b < efs.len() ==> fs[a] != efs[b],
                forall|b: int| 0 <= b < j ==> fs[i as int] != efs[b],
            decreases e.files_changed.len() - j,
        {
            if same_text(e.files_changed[j].as_str(), files[i]) {
                assert(fs.contains(fs[i as int]));
                assert(efs[j as int] == fs[i as int]);
                assert(efs.contains(fs[i as int]));
                return true;
            }
            j += 1;
        }
        i += 1;
    }
    assert forall|f: Seq<char>| !(fs.contains(f) && efs.contains(f)) by {
        if fs.contains(f) && efs.contains(f) {
            let a = choose|a: int| 0 <= a < fs.len() && fs[a] == f;
            let b = choose|b: int| 0 <= b < efs.len() && efs[b] == f;
            assert(fs[a] != efs[b]);
        }
    }
    false
}

/// Whether `e` lists the file `f`.
fn names_file(e: &ProvenanceEntry, f: &str) -> (r: bool)
    ensures
        r == names(*e, f@),
{
    let ghost efs = strings_view(e.files_changed@);
    let mut j: usize = 0;
    while j < e.files_changed.len()
        invariant
            j <= e.files_changed@.len(),
            efs == strings_view(e.files_changed@),
            forall|b: int| 0 <= b < j ==> efs[b] != f@,
        decreases e.files_changed.len() - j,
    {
        if same_text(e.files_changed[j].as_str(), f) {
            assert(efs[j as int] == f@);
            return true;
        }
        j += 1;
    }
    assert(!efs.contains(f@));
    false
}

impl ProvenanceHook {
    /// A hook backed by `ledger`, not strict.
    pub fn new(ledger: ProvenanceLedger) -> (h: Self)
        ensures
            h.ledger == ledger,
            !h.strict,
    {
        ProvenanceHook { ledger, strict: false }
    }

    /// The index of the latest entry that lists the file `f`.
    fn latest_naming(&self, f: &str) -> (r: Option<usize>)
        ensures
            r matches Some(k) ==> last_naming(self.ledger.entries@, f@) == Some(k as int),
            r is None ==> last_naming(self.ledger.entries@, f@) is None,
    {
        let ghost es = self.ledger.entries@;
        let mut i = self.ledger.entries.len();
        assert(es.take(i as int) =~= es);
        while i > 0
            invariant
                i <= es.len(),
                es == self.ledger.entries@,
                last_naming(es, f@) == last_naming(es.take(i as int), f@),
            decreases i,
        {
            let ghost t = es.take(i as int);
            assert(t.last() == es[i - 1]);
            assert(t.drop_last() =~= es.take(i - 1));
            if names_file(&self.ledger.entries[i - 1], f) {
                return Some(i - 1);
            }
            i -= 1;
        }
        assert(es.take(0) =~= Seq::<ProvenanceEntry>::empty());
        None
    }

    /// The index of the latest entry that lists one of `files`.
    fn latest_touching(&self, files: &[&str]) -> (r: Option<usize>)
        ensures
            r matches Some(k) ==> last_touching(self.ledger.entries@, staged(files@)) == Some(
                k as int,
            ) && k < self.ledger.entries@.len(),
            r is None ==> last_touching(self.ledger.entries@, staged(files@)) is None,
    {
        let ghost es = self.ledger.entries@;
        let ghost fs = staged(files@);
        let mut i = self.ledger.entries.len();
        assert(es.take(i as int) =~= es);
        while i > 0
            invariant
                i <= es.len(),
                es == self.ledger.entries@,
                fs == staged(files@),
                last_touching(es, fs) == last_touching(es.take(i as int), fs),
            decreases i,
        {
            let ghost t = es.take(i as int);
            assert(t.last() == es[i - 1]);
            assert(t.drop_last() =~= es.take(i - 1));
            if touches_any(&self.ledger.entries[i - 1], files) {
                return Some(i - 1);
            }
            i -= 1;
        }
        assert(es.take(0) =~= Seq::<ProvenanceEntry>::empty());
        None
    }

    /// Validate that the files being committed have a provenance entry: the
    /// latest entry that lists one of them. In strict mode that entry must
    /// pass validation, and then every staged file must be listed by an
    /// entry whose latest one passes validation; the first staged file for
    /// which this fails decides the error.
    pub fn validate_commit(&self, files_changed: &[&str]) -> (r: Result<
        Option<&ProvenanceEntry>,
        HookError,
    >)
        ensures
            files_changed@.len() == 0 ==> r == Err::<Option<&ProvenanceEntry>, HookError>(
                HookError::NotStaged,
            ),
            files_changed@.len() > 0 ==> commit_answer(
                self.strict,
                self.ledger.entries@,
                staged(files_changed@),
                r,
            ),
    {
        if files_changed.len() == 0 {
            return Err(HookError::NotStaged);
        }
        let ghost fs = staged(files_changed@);
        let ghost es = self.ledger.entries@;
        let k = match self.latest_touching(files_changed) {
            None => {
                return Err(HookError::NoEntryFound);
            },
            Some(k) => k,
        };
        if self.strict {
            match self.ledger.entries[k].validate() {
                Ok(()) => {},
                Err(errs) => {
                    return Err(HookError::EntryInvalid(errs));
                },
            }
            let mut i: usize = 0;
            while i < files_changed.len()
                invariant
                    i <= files_changed@.len(),
                    self.strict,
                    es == self.ledger.entries@,
                    fs == staged(files_changed@),
                    k < es.len(),
                    last_touching(es, fs) == Some(k as int),
                    is_valid(es[k as int]@),
                    forall|j: int| 0 <= j < i ==> file_ok(es, #[trigger] fs[j]),
                decreases files_changed.len() - i,
            {
                proof {
                    lemma_last_naming_bounds(es, fs[i as int]);
                }
                assert(fs[i as int] == files_changed@[i as int]@);
                match self.latest_naming(files_changed[i]) {
                    None => {
                        proof {
                            assert forall|i2: int| first_failing_at(es, fs, i2) implies i2
                                == i by {
                                if i2 < i {
                                    assert(file_ok(es, fs[i2]));
                                } else if i2 > i {
                                    assert(file_ok(es, fs[i as int]) == false);
                                }
                            }
                        }
                        return Err(HookError::NoEntryFound);
                    },
                    Some(n) => {
                        match self.ledger.entries[n].validate() {
                            Ok(()) => {},
                            Err(errs) => {
                                proof {
                                    assert forall|i2: int| first_failing_at(es, fs, i2) implies i2
                                        == i by {
                                        if i2 < i {
                                            assert(file_ok(es, fs[i2]));
                                        } else if i2 > i {
                                            assert(file_ok(es, fs[i as int]) == false);
                                        }
                                    }
                                }
                                return Err(HookError::EntryInvalid(errs));
                            },
                        }
                    },
                }
                i += 1;
            }
        }
        Ok(Some(&self.ledger.entries[k]))
    }

    /// Enforce that an entry has all required fields: intent, at least one
    /// alternative, trade-offs, at least one changed file and a selected
    /// alternative. The errors name every missing part, in that order.
    pub fn enforce(&self, entry: &ProvenanceEntry) -> (r: Result<(), Vec<String>>)
        ensures
            r is Ok <==> enforcement_errors(entry@).len() == 0,
            r matches Err(errs) ==> strings_view(errs@) == enforcement_errors(entry@),
    {
        let ghost e = entry@;
        let mut errors: Vec<String> = Vec::new();
        if blank(entry.intent.as_str()) {
            errors.push(String::from_str("Intent is required"));
        }
        if entry.alternatives.len() == 0 {
            errors.push(String::from_str("At least one alternative is required"));
        }
        if blank(entry.tradeoffs.as_str()) {
            errors.push(String::from_str("Tradeoffs are required"));
        }
        if entry.files_changed.len() == 0 {
            errors.push(String::from_str("At least one file must be listed"));
        }
        let mut any_selected = false;
        let mut i: usize = 0;
        while i < entry.alternatives.len()
            invariant
                e == entry@,
                i <= entry.alternatives@.len(),
                any_selected <==> exists|j: int| 0 <= j < i && (#[trigger] e.alternatives[j]).selected,
            decreases entry.alternatives.len() - i,
        {
            assert(e.alternatives[i as int] == entry.alternatives@[i as int]@);
            if entry.alternatives[i].selected {
                any_selected = true;
            }
            i += 1;
        }
        if !any_selected {
            errors.push(String::from_str("At least one alternative must be selected"));
        }
        assert(strings_view(errors@) =~= enforcement_errors(e));
        if errors.len() == 0 {
            Ok(())
        } else {
            Err(errors)
        }
    }
}

} // verus!
