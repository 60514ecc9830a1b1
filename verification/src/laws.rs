//! Laws that relate several functions of the library: time-range queries,
//! identifiers and timestamps, validation and enforcement, the commit hook,
//! search, the summary and the order of texts.
use vstd::prelude::*;
use crate::entry::{EntryView, ProvenanceEntry, is_valid, provenance_id, strings_view, validation_errors};
use crate::error::HookError;
use crate::hook::{
    commit_answer, enforcement_errors, file_ok, first_failing_at, last_naming, last_touching,
    touches,
};
use crate::ledger::{all_valid, count_passed, entries_between, entries_since, matches_query, text_less};
use crate::markdown::{id_timestamp, summary_text};
use crate::text::{contains, decimal, lowercase_of, trim};

verus! {

// ---------------------------------------------------------------------
// Filtering
// ---------------------------------------------------------------------

/// Filtering by `p` then by `q` is filtering by `pq` when `pq` is `p` and `q`.
proof fn lemma_filter_both(
    es: Seq<ProvenanceEntry>,
    p: spec_fn(ProvenanceEntry) -> bool,
    q: spec_fn(ProvenanceEntry) -> bool,
    pq: spec_fn(ProvenanceEntry) -> bool,
)
    requires
        forall|e: ProvenanceEntry| #[trigger] pq(e) == (p(e) && q(e)),
    ensures
        es.filter(p).filter(q) == es.filter(pq),
    decreases es.len(),
{
    reveal_with_fuel(Seq::<ProvenanceEntry>::filter, 1);
    if es.len() > 0 {
        lemma_filter_both(es.drop_last(), p, q, pq);
        assert(pq(es.last()) == (p(es.last()) && q(es.last())));
        if p(es.last()) {
            let f = es.drop_last().filter(p);
            assert(es.filter(p) == f.push(es.last()));
            assert(f.push(es.last()).drop_last() =~= f);
            assert(f.push(es.last()).last() == es.last());
        }
    }
}

/// Filtering by a predicate that every element meets keeps every element.
proof fn lemma_filter_all(es: Seq<ProvenanceEntry>, p: spec_fn(ProvenanceEntry) -> bool)
    requires
        forall|e: ProvenanceEntry| #[trigger] p(e),
    ensures
        es.filter(p) == es,
    decreases es.len(),
{
    reveal_with_fuel(Seq::<ProvenanceEntry>::filter, 1);
    if es.len() > 0 {
        lemma_filter_all(es.drop_last(), p);
        assert(p(es.last()));
        assert(es.drop_last().push(es.last()) =~= es);
    }
}

// ---------------------------------------------------------------------
// Time-range queries
// ---------------------------------------------------------------------

/// Every entry is recorded at or after time zero: `since(0)` returns the
/// whole ledger.
pub proof fn lemma_since_zero(es: Seq<ProvenanceEntry>)
    ensures
        entries_since(es, 0) == es,
{
    lemma_filter_all(es, |e: ProvenanceEntry| crate::ledger::recorded_since(e, 0));
}

/// `between(from, to)` is `since(from)` without the entries recorded after
/// `to`, in the same order.
pub proof fn lemma_between_within_since(es: Seq<ProvenanceEntry>, from: u64, to: u64)
    ensures
        entries_between(es, from, to) == entries_since(es, from).filter(
            |e: ProvenanceEntry| e.timestamp <= to,
        ),
{
    lemma_filter_both(
        es,
        |e: ProvenanceEntry| crate::ledger::recorded_since(e, from),
        |e: ProvenanceEntry| e.timestamp <= to,
        |e: ProvenanceEntry| crate::ledger::recorded_between(e, from, to),
    );
}

/// A range that is open at its end is `since`: `between(from, u64::MAX)`
/// returns what `since(from)` does.
pub proof fn lemma_between_to_end(es: Seq<ProvenanceEntry>, from: u64)
    ensures
        entries_between(es, from, u64::MAX) == entries_since(es, from),
{
    let all = |e: ProvenanceEntry| e.timestamp <= u64::MAX;
    lemma_between_within_since(es, from, u64::MAX);
    lemma_filter_all(entries_since(es, from), all);
}

// ---------------------------------------------------------------------
// Identifiers and timestamps
// ---------------------------------------------------------------------

/// The identifier of an entry created at `millis` milliseconds gives back,
/// when read from markdown, the whole seconds of that time.
pub proof fn lemma_id_timestamp(millis: nat, current: u64)
    requires
        millis <= u64::MAX,
    ensures
        id_timestamp(provenance_id(millis), current) == millis / 1000,
{
    reveal_strlit("prov-");
    let id = provenance_id(millis);
    crate::text::lemma_parse_decimal(millis);
    assert(id.subrange(0, 5) =~= "prov-"@);
    assert(id.subrange(5, id.len() as int) =~= crate::text::decimal(millis));
}

// ---------------------------------------------------------------------
// Statistics
// ---------------------------------------------------------------------

/// No more entries passed their tests than there are entries: the pass
/// rate is at most one.
pub proof fn lemma_passed_at_most_total(es: Seq<ProvenanceEntry>)
    ensures
        count_passed(es) <= es.len(),
    decreases es.len(),
{
    if es.len() > 0 {
        lemma_passed_at_most_total(es.drop_last());
    }
}

// ---------------------------------------------------------------------
// Validation and enforcement
// ---------------------------------------------------------------------

/// Enforcement reports every validation error, first and in the same
/// order; so an entry that enforcement accepts passes validation.
pub proof fn lemma_enforce_extends_validate(e: EntryView)
    ensures
        validation_errors(e).len() <= enforcement_errors(e).len(),
        enforcement_errors(e).subrange(0, validation_errors(e).len() as int) == validation_errors(e),
        enforcement_errors(e).len() == 0 ==> is_valid(e),
{
    let v = validation_errors(e);
    assert(enforcement_errors(e).subrange(0, v.len() as int) =~= v);
}

/// Over a ledger whose entries all pass validation (as every ledger built
/// with `new` and `add` does), the strict hook fails only for a staged file
/// that no entry lists; when every staged file is listed, every file passes
/// and the strict hook answers as the lenient one.
pub proof fn lemma_strict_on_valid_ledger(es: Seq<ProvenanceEntry>, files: Seq<Seq<char>>)
    requires
        all_valid(es),
    ensures
        forall|i: int| first_failing_at(es, files, i) ==> last_naming(es, #[trigger] files[i]) is None,
        (forall|j: int| 0 <= j < files.len() ==> last_naming(es, #[trigger] files[j]) is Some)
            ==> forall|j: int| 0 <= j < files.len() ==> file_ok(es, #[trigger] files[j]),
{
    assert forall|f: Seq<char>| last_naming(es, f) is Some implies #[trigger] file_ok(es, f) by {
        crate::hook::lemma_last_naming_bounds(es, f);
        let k = last_naming(es, f).unwrap();
        assert(is_valid(es[k]@));
    }
}

// ---------------------------------------------------------------------
// The entry that the hook finds
// ---------------------------------------------------------------------

/// The last entry touching the staged files touches them, and no later one
/// does; without one, no entry touches them.
proof fn lemma_last_touching_is_last(es: Seq<ProvenanceEntry>, files: Seq<Seq<char>>)
    ensures
        match last_touching(es, files) {
            Some(k) => 0 <= k < es.len() && touches(es[k], files) && forall|j: int|
                k < j < es.len() ==> !touches(#[trigger] es[j], files),
            None => forall|j: int| 0 <= j < es.len() ==> !touches(#[trigger] es[j], files),
        },
    decreases es.len(),
{
    if es.len() > 0 && !touches(es.last(), files) {
        let d = es.drop_last();
        lemma_last_touching_is_last(d, files);
        match last_touching(d, files) {
            Some(k) => {
                assert(es[k] == d[k]);
                assert forall|j: int| k < j < es.len() implies !touches(#[trigger] es[j], files) by {
                    if j < es.len() - 1 {
                        assert(es[j] == d[j]);
                    }
                }
            },
            None => {
                assert forall|j: int| 0 <= j < es.len() implies !touches(#[trigger] es[j], files) by {
                    if j < es.len() - 1 {
                        assert(es[j] == d[j]);
                    }
                }
            },
        }
    }
}

/// A staged file that fails strict validation means a first one fails.
proof fn lemma_first_failing_exists(es: Seq<ProvenanceEntry>, files: Seq<Seq<char>>, j: int)
    requires
        0 <= j < files.len(),
        !file_ok(es, files[j]),
    ensures
        exists|i: int| first_failing_at(es, files, i),
    decreases j,
{
    if forall|k: int| 0 <= k < j ==> file_ok(es, #[trigger] files[k]) {
        assert(first_failing_at(es, files, j));
    } else {
        let k = choose|k: int| 0 <= k < j && !file_ok(es, #[trigger] files[k]);
        lemma_first_failing_exists(es, files, k);
    }
}

/// What the hook answers for staged files is found in the ledger: the entry
/// it returns lists one of the staged files, and no later entry lists any
/// of them. In lenient mode it returns an entry exactly when some entry
/// lists a staged file; it never answers `Ok(None)`.
pub proof fn lemma_commit_finds_latest(
    strict: bool,
    es: Seq<ProvenanceEntry>,
    files: Seq<Seq<char>>,
    r: Result<Option<&ProvenanceEntry>, HookError>,
)
    requires
        commit_answer(strict, es, files, r),
    ensures
        r matches Ok(Some(found)) ==> exists|k: int|
            0 <= k < es.len() && es[k] == *found && (exists|f: Seq<char>|
                files.contains(f) && #[trigger] strings_view(es[k].files_changed@).contains(f))
                && (forall|j: int, f: Seq<char>|
                k < j < es.len() && files.contains(f) ==> !#[trigger] strings_view(
                    es[j].files_changed@,
                ).contains(f)),
        !(r matches Ok(None)),
        !strict ==> (r is Ok <==> exists|j: int, f: Seq<char>|
            0 <= j < es.len() && files.contains(f) && #[trigger] strings_view(
                es[j].files_changed@,
            ).contains(f)),
{
    lemma_last_touching_is_last(es, files);
    match last_touching(es, files) {
        Some(k) => {
            if strict && is_valid(es[k]@) && !(forall|j: int|
                0 <= j < files.len() ==> file_ok(es, #[trigger] files[j])) {
                let j = choose|j: int| 0 <= j < files.len() && !file_ok(es, #[trigger] files[j]);
                lemma_first_failing_exists(es, files, j);
                let i = choose|i: int| first_failing_at(es, files, i);
                assert(crate::hook::failure_answer(es, files[i], r));
                assert(r is Err);
            }
            assert(touches(es[k], files));
            let f = choose|f: Seq<char>|
                files.contains(f) && strings_view(es[k].files_changed@).contains(f);
            assert(files.contains(f) && strings_view(es[k].files_changed@).contains(f));
            assert forall|j: int, g: Seq<char>|
                k < j < es.len() && files.contains(g) implies !#[trigger] strings_view(
                    es[j].files_changed@,
                ).contains(g) by {
                assert(!touches(es[j], files));
            }
        },
        None => {
            assert forall|j: int, g: Seq<char>|
                0 <= j < es.len() && files.contains(g) implies !#[trigger] strings_view(
                    es[j].files_changed@,
                ).contains(g) by {
                assert(!touches(es[j], files));
            }
        },
    }
}

// ---------------------------------------------------------------------
// Enforcement of a selected alternative
// ---------------------------------------------------------------------

/// Enforcement asks for a selected alternative exactly when no alternative,
/// at any position, is selected; an entry with an intent, trade-offs, a
/// changed file and some selected alternative passes enforcement.
pub proof fn lemma_enforce_selected(e: EntryView)
    ensures
        enforcement_errors(e).contains("At least one alternative must be selected"@) <==> forall|
            i: int,
        | 0 <= i < e.alternatives.len() ==> !(#[trigger] e.alternatives[i]).selected,
        (exists|i: int| 0 <= i < e.alternatives.len() && (#[trigger] e.alternatives[i]).selected)
            && trim(e.intent).len() > 0 && trim(e.tradeoffs).len() > 0 && e.files_changed.len() > 0
            ==> enforcement_errors(e).len() == 0,
{
    reveal_strlit("At least one alternative must be selected");
    reveal_strlit("At least one alternative is required");
    reveal_strlit("At least one file must be listed");
    reveal_strlit("Intent is required");
    reveal_strlit("Tradeoffs are required");
    let msg = "At least one alternative must be selected"@;
    let errs = enforcement_errors(e);
    assert(msg.len() == 41);
    if crate::hook::has_selected(e) {
        assert forall|k: int| 0 <= k < errs.len() implies (#[trigger] errs[k]).len() != 41 by {}
        if errs.contains(msg) {
            let k = choose|k: int| 0 <= k < errs.len() && errs[k] == msg;
            assert(errs[k].len() != 41);
        }
        let i = choose|i: int| 0 <= i < e.alternatives.len() && (#[trigger] e.alternatives[i]).selected;
        assert(e.alternatives[i].selected);
    } else {
        assert(errs[errs.len() - 1] == msg);
        assert(errs.contains(msg));
    }
}

// ---------------------------------------------------------------------
// Search
// ---------------------------------------------------------------------

/// Search looks at the intent and the trade-offs and nothing else: two
/// entries with the same intent and trade-offs are both found or both not,
/// whatever their other fields hold; an entry is found when its lowercased
/// intent or trade-offs holds the lowercased query, and never otherwise.
pub proof fn lemma_search_fields(e1: ProvenanceEntry, e2: ProvenanceEntry, q: Seq<char>)
    ensures
        e1.intent@ == e2.intent@ && e1.tradeoffs@ == e2.tradeoffs@ ==> matches_query(e1, q)
            == matches_query(e2, q),
        contains(lowercase_of(e1.intent@), lowercase_of(q)) ==> matches_query(e1, q),
        contains(lowercase_of(e1.tradeoffs@), lowercase_of(q)) ==> matches_query(e1, q),
        !contains(lowercase_of(e1.intent@), lowercase_of(q)) && !contains(
            lowercase_of(e1.tradeoffs@),
            lowercase_of(q),
        ) ==> !matches_query(e1, q),
{
}

// ---------------------------------------------------------------------
// The summary
// ---------------------------------------------------------------------

/// The summary counts the changed files: entries that agree on the commit,
/// intent and model have the same summary when they list as many files,
/// whatever else differs (their alternatives among it), and different
/// summaries when they list different numbers of files.
pub proof fn lemma_summary_counts_files(e1: EntryView, e2: EntryView, cost: Seq<char>)
    requires
        e1.commit_sha == e2.commit_sha,
        e1.intent == e2.intent,
        e1.model_used == e2.model_used,
    ensures
        e1.files_changed.len() == e2.files_changed.len() ==> summary_text(e1, cost)
            == summary_text(e2, cost),
        e1.files_changed.len() != e2.files_changed.len() ==> summary_text(e1, cost)
            != summary_text(e2, cost),
{
    let p = "["@ + (match e1.commit_sha {
        Some(sha) => sha,
        None => "no-commit"@,
    }) + "] "@ + e1.intent + " (model="@ + e1.model_used + ", files="@;
    let tail = ", cost="@ + cost + ")"@;
    let d1 = decimal(e1.files_changed.len());
    let d2 = decimal(e2.files_changed.len());
    let s1 = summary_text(e1, cost);
    let s2 = summary_text(e2, cost);
    assert(s1 =~= p + d1 + tail);
    assert(s2 =~= p + d2 + tail);
    if e1.files_changed.len() != e2.files_changed.len() && s1 == s2 {
        assert(d1.len() == d2.len());
        assert(s1.subrange(p.len() as int, (p.len() + d1.len()) as int) =~= d1);
        assert(s2.subrange(p.len() as int, (p.len() + d2.len()) as int) =~= d2);
        crate::text::lemma_decimal_digits(e1.files_changed.len());
        crate::text::lemma_decimal_digits(e2.files_changed.len());
        assert(d1 == d2);
    }
}

// ---------------------------------------------------------------------
// The order of texts
// ---------------------------------------------------------------------

/// A text comes before every longer text that it begins, and never after
/// it (the order of `String`): the empty text first, `"room-1"` before
/// `"room-10"`.
pub proof fn lemma_text_less_prefix(a: Seq<char>, b: Seq<char>)
    requires
        b.len() > 0,
    ensures
        text_less(a, a + b),
        !text_less(a + b, a),
    decreases a.len(),
{
    if a.len() > 0 {
        assert((a + b)[0] == a[0]);
        assert((a + b).drop_first() =~= a.drop_first() + b);
        lemma_text_less_prefix(a.drop_first(), b);
    } else {
        assert(a + b =~= b);
    }
}

/// Texts that differ first at some position are ordered by the characters
/// there.
pub proof fn lemma_text_less_first_difference(a: Seq<char>, b: Seq<char>, i: int)
    requires
        0 <= i < a.len(),
        i < b.len(),
        a.subrange(0, i) == b.subrange(0, i),
        a[i] != b[i],
    ensures
        text_less(a, b) == (a[i] < b[i]),
    decreases i,
{
    if i > 0 {
        assert(a[0] == a.subrange(0, i)[0]);
        assert(b[0] == b.subrange(0, i)[0]);
        assert(a.drop_first().subrange(0, i - 1) =~= a.subrange(0, i).drop_first());
        assert(b.drop_first().subrange(0, i - 1) =~= b.subrange(0, i).drop_first());
        lemma_text_less_first_difference(a.drop_first(), b.drop_first(), i - 1);
    }
}

} // verus!
