//! The ledger: a collection of validated entries with queries, rendering
//! and statistics.
use vstd::prelude::*;
use crate::entry::{ProvenanceEntry, is_valid, opt_view, strings_view, validation_errors};
use crate::error::ProvenanceError;
use crate::markdown::render;
use crate::text::{chars_of, contains, find_range, lowercase_of, to_lowercase};

verus! {

/// A collection of provenance entries.
#[derive(Debug, Clone, PartialEq)]
pub struct ProvenanceLedger {
    pub entries: Vec<ProvenanceEntry>,
    pub repo_path: Option<String>,
}

/// The entries themselves, from references to them.
pub open spec fn derefs(v: Seq<&ProvenanceEntry>) -> Seq<ProvenanceEntry> {
    v.map_values(|e: &ProvenanceEntry| *e)
}

/// `e` is linked to the commit `sha`.
pub open spec fn has_commit(e: ProvenanceEntry, sha: Seq<char>) -> bool {
    opt_view(e.commit_sha) == Some(sha)
}

/// `e` is linked to the room `room`.
pub open spec fn in_room(e: ProvenanceEntry, room: Seq<char>) -> bool {
    opt_view(e.room_id) == Some(room)
}

/// `e` was recorded at or after `ts`.
pub open spec fn recorded_since(e: ProvenanceEntry, ts: u64) -> bool {
    e.timestamp >= ts
}

/// `e` was recorded between `from` and `to`, both included.
pub open spec fn recorded_between(e: ProvenanceEntry, from: u64, to: u64) -> bool {
    from <= e.timestamp && e.timestamp <= to
}

/// The lowercased `query` occurs in the lowercased intent or trade-offs of `e`.
pub open spec fn matches_query(e: ProvenanceEntry, query: Seq<char>) -> bool {
    ||| contains(lowercase_of(e.intent@), lowercase_of(query))
    ||| contains(lowercase_of(e.tradeoffs@), lowercase_of(query))
}

/// The entries of `es` recorded at or after `ts`, in order.
pub open spec fn entries_since(es: Seq<ProvenanceEntry>, ts: u64) -> Seq<ProvenanceEntry> {
    es.filter(|e: ProvenanceEntry| recorded_since(e, ts))
}

/// The entries of `es` recorded between `from` and `to`, in order.
pub open spec fn entries_between(es: Seq<ProvenanceEntry>, from: u64, to: u64) -> Seq<
    ProvenanceEntry,
> {
    es.filter(|e: ProvenanceEntry| recorded_between(e, from, to))
}

/// Every entry of `es` passes validation.
pub open spec fn all_valid(es: Seq<ProvenanceEntry>) -> bool {
    forall|i: int| 0 <= i < es.len() ==> is_valid((#[trigger] es[i])@)
}

/// The markdown of the entries of `es` recorded at or after `ts`, each with
/// its cost text from `costs` and followed by a `---` rule.
pub open spec fn rendered_since(es: Seq<ProvenanceEntry>, costs: Seq<Seq<char>>, ts: u64) -> Seq<
    char,
>
    decreases es.len(),
{
    if es.len() == 0 || costs.len() == 0 {
        Seq::empty()
    } else {
        rendered_since(es.drop_last(), costs.drop_last(), ts) + (if es.last().timestamp >= ts {
            render(es.last()@, costs.last()) + "\n---\n\n"@
        } else {
            Seq::empty()
        })
    }
}

/// Whether `a` and `b` hold the same text.
pub fn same_text(a: &str, b: &str) -> (r: bool)
    ensures
        r == (a@ == b@),
{
    let x = String::from_str(a);
    let y = String::from_str(b);
    x == y
}

/// Whether `needle` occurs in `haystack` (`str::contains`).
pub fn text_contains(haystack: &str, needle: &str) -> (r: bool)
    ensures
        r == contains(haystack@, needle@),
{
    let h = chars_of(haystack);
    let n = chars_of(needle);
    assert(h@.subrange(0, h@.len() as int) =~= h@);
    find_range(&h, 0, h.len(), &n).is_some()
}

impl ProvenanceLedger {
    /// An empty ledger.
    pub fn new() -> (l: Self)
        ensures
            l.entries@ == Seq::<ProvenanceEntry>::empty(),
            l.repo_path is None,
            all_valid(l.entries@),
    {
        ProvenanceLedger { entries: Vec::new(), repo_path: None }
    }

    /// Add an entry; an entry that fails validation is refused with the
    /// validation errors and the ledger is left unchanged.
    pub fn add(&mut self, entry: ProvenanceEntry) -> (r: Result<(), ProvenanceError>)
        ensures
            r is Ok <==> is_valid(entry@),
            r is Ok ==> final(self).entries@ == old(self).entries@.push(entry)
                && final(self).repo_path == old(self).repo_path,
            all_valid(old(self).entries@) ==> all_valid(final(self).entries@),
            r is Err ==> *final(self) == *old(self),
            r is Err ==> (r matches Err(ProvenanceError::ValidationFailed(errs)) && strings_view(
                errs@,
            ) == validation_errors(entry@)),
    {
        match entry.validate() {
            Ok(()) => {
                self.entries.push(entry);
                Ok(())
            },
            Err(errs) => Err(ProvenanceError::ValidationFailed(errs)),
        }
    }

    /// The most recently added entry.
    pub fn latest(&self) -> (r: Option<&ProvenanceEntry>)
        ensures
            match r {
                Some(e) => self.entries@.len() > 0 && *e == self.entries@.last(),
                None => self.entries@.len() == 0,
            },
    {
        let n = self.entries.len();
        if n == 0 {
            None
        } else {
            Some(&self.entries[n - 1])
        }
    }

    /// The first entry linked to the commit `sha`.
    pub fn for_commit(&self, sha: &str) -> (r: Option<&ProvenanceEntry>)
        ensures
            match r {
                Some(e) => exists|i: int|
                    0 <= i < self.entries@.len() && self.entries@[i] == *e && has_commit(
                        self.entries@[i],
                        sha@,
                    ) && forall|j: int| 0 <= j < i ==> !has_commit(#[trigger] self.entries@[j], sha@),
                None => forall|j: int|
                    0 <= j < self.entries@.len() ==> !has_commit(#[trigger] self.entries@[j], sha@),
            },
    {
        let mut i: usize = 0;
        while i < self.entries.len()
            invariant
                i <= self.entries@.len(),
                forall|j: int| 0 <= j < i ==> !has_commit(#[trigger] self.entries@[j], sha@),
            decreases self.entries.len() - i,
        {
            let e = &self.entries[i];
            match &e.commit_sha {
                Some(c) => {
                    if same_text(c.as_str(), sha) {
                        return Some(e);
                    }
                },
                None => {},
            }
            i += 1;
        }
        None
    }

    /// All entries linked to the room `room`, in ledger order.
    pub fn for_room(&self, room: &str) -> (r: Vec<&ProvenanceEntry>)
        ensures
            derefs(r@) == self.entries@.filter(|e: ProvenanceEntry| in_room(e, room@)),
    {
        let ghost pred = |e: ProvenanceEntry| in_room(e, room@);
        let mut r: Vec<&ProvenanceEntry> = Vec::new();
        let mut i: usize = 0;
        while i < self.entries.len()
            invariant
                i <= self.entries@.len(),
                pred == (|e: ProvenanceEntry| in_room(e, room@)),
                derefs(r@) == self.entries@.take(i as int).filter(pred),
            decreases self.entries.len() - i,
        {
            let e = &self.entries[i];
            let keep = match &e.room_id {
                Some(x) => same_text(x.as_str(), room),
                None => false,
            };
            let ghost before = r@;
            if keep {
                r.push(e);
            }
            proof {
                reveal_with_fuel(Seq::<ProvenanceEntry>::filter, 1);
                assert(self.entries@.take(i + 1).drop_last() =~= self.entries@.take(i as int));
                assert(derefs(before.push(e)) =~= derefs(before).push(*e));
            }
            i += 1;
        }
        assert(self.entries@.take(self.entries@.len() as int) =~= self.entries@);
        r
    }

    /// All entries recorded at or after `ts`, in ledger order.
    pub fn since(&self, ts: u64) -> (r: Vec<&ProvenanceEntry>)
        ensures
            derefs(r@) == entries_since(self.entries@, ts),
    {
        let ghost pred = |e: ProvenanceEntry| recorded_since(e, ts);
        let mut r: Vec<&ProvenanceEntry> = Vec::new();
        let mut i: usize = 0;
        while i < self.entries.len()
            invariant
                i <= self.entries@.len(),
                pred == (|e: ProvenanceEntry| recorded_since(e, ts)),
                derefs(r@) == self.entries@.take(i as int).filter(pred),
            decreases self.entries.len() - i,
        {
            let e = &self.entries[i];
            let ghost before = r@;
            if e.timestamp >= ts {
                r.push(e);
            }
            proof {
                reveal_with_fuel(Seq::<ProvenanceEntry>::filter, 1);
                assert(self.entries@.take(i + 1).drop_last() =~= self.entries@.take(i as int));
                assert(derefs(before.push(e)) =~= derefs(before).push(*e));
            }
            i += 1;
        }
        assert(self.entries@.take(self.entries@.len() as int) =~= self.entries@);
        r
    }

    /// All entries recorded between `from` and `to` (both included), in
    /// ledger order.
    pub fn between(&self, from: u64, to: u64) -> (r: Vec<&ProvenanceEntry>)
        ensures
            derefs(r@) == entries_between(self.entries@, from, to),
    {
        let ghost pred = |e: ProvenanceEntry| recorded_between(e, from, to);
        let mut r: Vec<&ProvenanceEntry> = Vec::new();
        let mut i: usize = 0;
        while i < self.entries.len()
            invariant
                i <= self.entries@.len(),
                pred == (|e: ProvenanceEntry| recorded_between(e, from, to)),
                derefs(r@) == self.entries@.take(i as int).filter(pred),
            decreases self.entries.len() - i,
        {
            let e = &self.entries[i];
            let ghost before = r@;
            if e.timestamp >= from && e.timestamp <= to {
                r.push(e);
            }
            proof {
                reveal_with_fuel(Seq::<ProvenanceEntry>::filter, 1);
                assert(self.entries@.take(i + 1).drop_last() =~= self.entries@.take(i as int));
                assert(derefs(before.push(e)) =~= derefs(before).push(*e));
            }
            i += 1;
        }
        assert(self.entries@.take(self.entries@.len() as int) =~= self.entries@);
        r
    }

    /// Case-insensitive search of the intent and trade-offs, in ledger order.
    pub fn search(&self, query: &str) -> (r: Vec<&ProvenanceEntry>)
        ensures
            derefs(r@) == self.entries@.filter(|e: ProvenanceEntry| matches_query(e, query@)),
    {
        let q = to_lowercase(query);
        let ghost pred = |e: ProvenanceEntry| matches_query(e, query@);
        let mut r: Vec<&ProvenanceEntry> = Vec::new();
        let mut i: usize = 0;
        while i < self.entries.len()
            invariant
                i <= self.entries@.len(),
                q@ == lowercase_of(query@),
                pred == (|e: ProvenanceEntry| matches_query(e, query@)),
                derefs(r@) == self.entries@.take(i as int).filter(pred),
            decreases self.entries.len() - i,
        {
            let e = &self.entries[i];
            let intent = to_lowercase(e.intent.as_str());
            let tradeoffs = to_lowercase(e.tradeoffs.as_str());
            let hit = text_contains(intent.as_str(), q.as_str()) || text_contains(
                tradeoffs.as_str(),
                q.as_str(),
            );
            let ghost before = r@;
            if hit {
                r.push(e);
            }
            proof {
                reveal_with_fuel(Seq::<ProvenanceEntry>::filter, 1);
                assert(self.entries@.take(i + 1).drop_last() =~= self.entries@.take(i as int));
                assert(derefs(before.push(e)) =~= derefs(before).push(*e));
            }
            i += 1;
        }
        assert(self.entries@.take(self.entries@.len() as int) =~= self.entries@);
        r
    }

    /// Number of entries in the ledger.
    pub fn count(&self) -> (n: usize)
        ensures
            n == self.entries@.len(),
    {
        self.entries.len()
    }
}


impl Default for ProvenanceLedger {
    fn default() -> (l: Self)
        ensures
            l.entries@ == Seq::<ProvenanceEntry>::empty(),
            l.repo_path is None,
            all_valid(l.entries@),
    {
        Self::new()
    }
}

impl ProvenanceLedger {
    /// The full ledger as markdown: a title, then each entry rendered with
    /// its cost text (`costs[i]` for `entries[i]`) and followed by a rule.
    pub fn render_full(&self, costs: &Vec<String>) -> (md: String)
        requires
            costs@.len() == self.entries@.len(),
        ensures
            md@ == "# Provenance Ledger\n\n"@ + rendered_since(
                self.entries@,
                strings_view(costs@),
                0,
            ),
    {
        self.render_entries("# Provenance Ledger\n\n", costs, 0)
    }

    /// The entries recorded at or after `ts` as markdown, under their own
    /// title; `costs[i]` is the cost text of `entries[i]`.
    pub fn render_since(&self, ts: u64, costs: &Vec<String>) -> (md: String)
        requires
            costs@.len() == self.entries@.len(),
        ensures
            md@ == "# Provenance Ledger (recent)\n\n"@ + rendered_since(
                self.entries@,
                strings_view(costs@),
                ts,
            ),
    {
        self.render_entries("# Provenance Ledger (recent)\n\n", costs, ts)
    }

    fn render_entries(&self, title: &str, costs: &Vec<String>, ts: u64) -> (md: String)
        requires
            costs@.len() == self.entries@.len(),
        ensures
            md@ == title@ + rendered_since(self.entries@, strings_view(costs@), ts),
    {
        let ghost es = self.entries@;
        let ghost cv = strings_view(costs@);
        let mut md = String::from_str(title);
        let mut i: usize = 0;
        assert(es.take(0) =~= Seq::<ProvenanceEntry>::empty());
        assert(md@ =~= title@ + rendered_since(es.take(0), cv.take(0), ts));
        while i < self.entries.len()
            invariant
                es == self.entries@,
                cv == strings_view(costs@),
                costs@.len() == es.len(),
                i <= es.len(),
                md@ == title@ + rendered_since(es.take(i as int), cv.take(i as int), ts),
            decreases self.entries.len() - i,
        {
            let e = &self.entries[i];
            let ghost before = md@;
            if e.timestamp >= ts {
                let r = e.render_markdown(costs[i].as_str());
                md.append(r.as_str());
                md.append("\n---\n\n");
            }
            proof {
                assert(es.take(i + 1).drop_last() =~= es.take(i as int));
                assert(cv.take(i + 1).drop_last() =~= cv.take(i as int));
                assert(es.take(i + 1).last() == es[i as int]);
                assert(cv.take(i + 1).last() == costs@[i as int]@);
                if e.timestamp >= ts {
                    assert(md@ =~= before + (render(e@, costs@[i as int]@) + "\n---\n\n"@));
                } else {
                    assert(md@ =~= before + Seq::<char>::empty());
                }
            }
            i += 1;
        }
        assert(es.take(es.len() as int) =~= es);
        assert(cv.take(cv.len() as int) =~= cv);
        md
    }
}

// ---------------------------------------------------------------------
// Statistics
// ---------------------------------------------------------------------

/// Aggregate statistics over a ledger. The pass rate is
/// `tests_passed / total_entries` and the average number of alternatives
/// is `total_alternatives / total_entries` (both zero for an empty ledger).
#[derive(Debug, Clone, PartialEq)]
pub struct LedgerStats {
    pub total_entries: usize,
    pub unique_models: Vec<String>,
    pub unique_rooms: Vec<String>,
    pub tests_passed: usize,
    pub total_alternatives: usize,
}

/// `a` comes before `b` in lexicographic order of code points (the order
/// of `String`'s `Ord`, since UTF-8 preserves code point order).
pub open spec fn text_less(a: Seq<char>, b: Seq<char>) -> bool
    decreases a.len(),
{
    if b.len() == 0 {
        false
    } else if a.len() == 0 {
        true
    } else if a[0] != b[0] {
        a[0] < b[0]
    } else {
        text_less(a.drop_first(), b.drop_first())
    }
}

/// Each text of `v` comes strictly before the next: sorted, no repeats.
pub open spec fn strictly_sorted(v: Seq<Seq<char>>) -> bool {
    forall|i: int, j: int| 0 <= i < j < v.len() ==> text_less(#[trigger] v[i], #[trigger] v[j])
}

/// The number of entries of `es` whose tests passed.
pub open spec fn count_passed(es: Seq<ProvenanceEntry>) -> nat
    decreases es.len(),
{
    if es.len() == 0 {
        0
    } else {
        count_passed(es.drop_last()) + (if es.last().tests_passed {
            1nat
        } else {
            0nat
        })
    }
}

/// The number of alternatives over all entries of `es`.
pub open spec fn sum_alternatives(es: Seq<ProvenanceEntry>) -> nat
    decreases es.len(),
{
    if es.len() == 0 {
        0
    } else {
        sum_alternatives(es.drop_last()) + es.last().alternatives@.len()
    }
}

/// `x` is the model of some entry of `es`.
pub open spec fn is_model_of(es: Seq<ProvenanceEntry>, x: Seq<char>) -> bool {
    exists|j: int| 0 <= j < es.len() && (#[trigger] es[j]).model_used@ == x
}

/// `x` is the room of some entry of `es`.
pub open spec fn is_room_of(es: Seq<ProvenanceEntry>, x: Seq<char>) -> bool {
    exists|j: int| 0 <= j < es.len() && opt_view((#[trigger] es[j]).room_id) == Some(x)
}

pub proof fn lemma_text_less_irreflexive(a: Seq<char>)
    ensures
        !text_less(a, a),
    decreases a.len(),
{
    if a.len() > 0 {
        lemma_text_less_irreflexive(a.drop_first());
    }
}

pub proof fn lemma_text_less_total(a: Seq<char>, b: Seq<char>)
    ensures
        a != b ==> text_less(a, b) || text_less(b, a),
        !(text_less(a, b) && text_less(b, a)),
    decreases a.len(),
{
    if a.len() > 0 && b.len() > 0 && a[0] == b[0] {
        lemma_text_less_total(a.drop_first(), b.drop_first());
        if a != b {
            assert(a.drop_first() != b.drop_first()) by {
                if a.drop_first() == b.drop_first() {
                    assert(a =~= seq![a[0]] + a.drop_first());
                    assert(b =~= seq![b[0]] + b.drop_first());
                }
            }
        }
    } else if a.len() == 0 && b.len() == 0 {
        assert(a =~= b);
    }
}

pub proof fn lemma_text_less_transitive(a: Seq<char>, b: Seq<char>, c: Seq<char>)
    requires
        text_less(a, b),
        text_less(b, c),
    ensures
        text_less(a, c),
    decreases a.len(),
{
    if a.len() > 0 && b.len() > 0 && c.len() > 0 && a[0] == b[0] && b[0] == c[0] {
        lemma_text_less_transitive(a.drop_first(), b.drop_first(), c.drop_first());
    }
}

/// Whether `a` comes before `b` in lexicographic order of code points.
fn chars_less(a: &Vec<char>, b: &Vec<char>) -> (r: bool)
    ensures
        r == text_less(a@, b@),
{
    let mut i: usize = 0;
    assert(a@.skip(0) =~= a@);
    assert(b@.skip(0) =~= b@);
    while i < a.len() && i < b.len() && a[i] == b[i]
        invariant
            i <= a@.len(),
            i <= b@.len(),
            text_less(a@, b@) == text_less(a@.skip(i as int), b@.skip(i as int)),
        decreases a.len() - i,
    {
        assert(a@.skip(i as int).drop_first() =~= a@.skip(i + 1));
        assert(b@.skip(i as int).drop_first() =~= b@.skip(i + 1));
        i += 1;
    }
    if i == b.len() {
        false
    } else if i == a.len() {
        true
    } else {
        assert(a@.skip(i as int)[0] == a@[i as int]);
        assert(b@.skip(i as int)[0] == b@[i as int]);
        a[i] < b[i]
    }
}

/// Adds `s` to the strictly sorted `v` unless it is already there.
fn insert_sorted(v: &mut Vec<String>, s: &String)
    requires
        strictly_sorted(strings_view(old(v)@)),
    ensures
        strictly_sorted(strings_view(final(v)@)),
        forall|x: Seq<char>|
            strings_view(final(v)@).contains(x) <==> (strings_view(old(v)@).contains(x) || x
                == s@),
{
    let ghost old_view = strings_view(v@);
    let sc = chars_of(s.as_str());
    let mut k: usize = 0;
    let mut stop = false;
    while k < v.len() && !stop
        invariant
            k <= v@.len(),
            old_view == strings_view(v@),
            sc@ == s@,
            forall|j: int| 0 <= j < k ==> text_less(#[trigger] old_view[j], s@),
            stop ==> k < v@.len() && !text_less(old_view[k as int], s@),
        decreases v.len() - k + (if stop { 0int } else { 1int }),
    {
        let vk = chars_of(v[k].as_str());
        assert(old_view[k as int] == v@[k as int]@);
        if chars_less(&vk, &sc) {
            k += 1;
        } else {
            stop = true;
        }
    }
    if k < v.len() && same_text(v[k].as_str(), s.as_str()) {
        assert(old_view[k as int] == s@);
        assert forall|x: Seq<char>|
            strings_view(v@).contains(x) <==> (old_view.contains(x) || x == s@) by {
            if x == s@ {
                assert(old_view[k as int] == x);
            }
        }
        return;
    }
    proof {
        if k < v@.len() {
            lemma_text_less_total(old_view[k as int], s@);
        }
    }
    v.insert(k, s.clone());
    let ghost nv = strings_view(v@);
    assert(nv =~= old_view.insert(k as int, s@));
    assert forall|i: int, j: int| 0 <= i < j < nv.len() implies text_less(
        #[trigger] nv[i],
        #[trigger] nv[j],
    ) by {
        if j < k {
        } else if i < k && j == k {
        } else if i < k && j > k {
            lemma_text_less_transitive(nv[i], s@, old_view[k as int]);
            if j - 1 > k {
                lemma_text_less_transitive(nv[i], old_view[k as int], old_view[j - 1]);
            }
        } else if i == k {
            if j - 1 > k {
                lemma_text_less_transitive(s@, old_view[k as int], old_view[j - 1]);
            }
        } else {
        }
    }
    assert forall|x: Seq<char>| nv.contains(x) <==> (old_view.contains(x) || x == s@) by {
        if nv.contains(x) {
            let i = choose|i: int| 0 <= i < nv.len() && nv[i] == x;
            if i < k {
                assert(old_view[i] == x);
            } else if i > k {
                assert(old_view[i - 1] == x);
            }
        }
        if old_view.contains(x) {
            let i = choose|i: int| 0 <= i < old_view.len() && old_view[i] == x;
            if i < k {
                assert(nv[i] == x);
            } else {
                assert(nv[i + 1] == x);
            }
        }
        if x == s@ {
            assert(nv[k as int] == x);
        }
    }
}

pub proof fn lemma_sum_alternatives_prefix(es: Seq<ProvenanceEntry>, i: int)
    requires
        0 <= i <= es.len(),
    ensures
        sum_alternatives(es.take(i)) <= sum_alternatives(es),
    decreases es.len(),
{
    if i < es.len() {
        assert(es.drop_last().take(i) =~= es.take(i));
        lemma_sum_alternatives_prefix(es.drop_last(), i);
    } else {
        assert(es.take(i) =~= es);
    }
}

impl ProvenanceLedger {
    /// Statistics over the ledger: the number of entries, the distinct
    /// models and rooms in sorted order, how many entries passed their
    /// tests and how many alternatives the entries weighed in all.
    pub fn stats(&self) -> (s: LedgerStats)
        requires
            sum_alternatives(self.entries@) <= usize::MAX,
        ensures
            s.total_entries == self.entries@.len(),
            strictly_sorted(strings_view(s.unique_models@)),
            forall|x: Seq<char>|
                strings_view(s.unique_models@).contains(x) <==> is_model_of(self.entries@, x),
            strictly_sorted(strings_view(s.unique_rooms@)),
            forall|x: Seq<char>|
                strings_view(s.unique_rooms@).contains(x) <==> is_room_of(self.entries@, x),
            s.tests_passed == count_passed(self.entries@),
            s.total_alternatives == sum_alternatives(self.entries@),
    {
        let ghost es = self.entries@;
        let mut models: Vec<String> = Vec::new();
        let mut rooms: Vec<String> = Vec::new();
        let mut passed: usize = 0;
        let mut alternatives: usize = 0;
        let mut i: usize = 0;
        assert(es.take(0) =~= Seq::<ProvenanceEntry>::empty());
        assert(strings_view(models@) =~= Seq::<Seq<char>>::empty());
        assert(strings_view(rooms@) =~= Seq::<Seq<char>>::empty());
        while i < self.entries.len()
            invariant
                es == self.entries@,
                i <= es.len(),
                sum_alternatives(es) <= usize::MAX,
                strictly_sorted(strings_view(models@)),
                forall|x: Seq<char>|
                    strings_view(models@).contains(x) <==> is_model_of(es.take(i as int), x),
                strictly_sorted(strings_view(rooms@)),
                forall|x: Seq<char>|
                    strings_view(rooms@).contains(x) <==> is_room_of(es.take(i as int), x),
                passed == count_passed(es.take(i as int)),
                alternatives == sum_alternatives(es.take(i as int)),
                passed <= i,
            decreases self.entries.len() - i,
        {
            let e = &self.entries[i];
            let ghost t = es.take(i as int);
            let ghost t1 = es.take(i + 1);
            proof {
                assert(t1.drop_last() =~= t);
                assert(t1.last() == es[i as int]);
                lemma_sum_alternatives_prefix(es, i + 1);
            }
            insert_sorted(&mut models, &e.model_used);
            match &e.room_id {
                Some(room) => {
                    insert_sorted(&mut rooms, room);
                },
                None => {},
            }
            if e.tests_passed {
                passed += 1;
            }
            alternatives += e.alternatives.len();
            proof {
                assert forall|x: Seq<char>| is_model_of(t1, x) <==> (is_model_of(t, x) || x
                    == e.model_used@) by {
                    if is_model_of(t1, x) {
                        let j = choose|j: int| 0 <= j < t1.len() && (#[trigger] t1[j]).model_used@ == x;
                        if j < i {
                            assert(t[j] == t1[j]);
                        }
                    }
                    if is_model_of(t, x) {
                        let j = choose|j: int| 0 <= j < t.len() && (#[trigger] t[j]).model_used@ == x;
                        assert(t1[j] == t[j]);
                    }
                    if x == e.model_used@ {
                        assert(t1[i as int] == *e);
                    }
                }
                assert forall|x: Seq<char>| is_room_of(t1, x) <==> (is_room_of(t, x) || opt_view(
                    e.room_id,
                ) == Some(x)) by {
                    if is_room_of(t1, x) {
                        let j = choose|j: int|
                            0 <= j < t1.len() && opt_view((#[trigger] t1[j]).room_id) == Some(x);
                        if j < i {
                            assert(t[j] == t1[j]);
                        }
                    }
                    if is_room_of(t, x) {
                        let j = choose|j: int|
                            0 <= j < t.len() && opt_view((#[trigger] t[j]).room_id) == Some(x);
                        assert(t1[j] == t[j]);
                    }
                    if opt_view(e.room_id) == Some(x) {
                        assert(t1[i as int] == *e);
                    }
                }
            }
            i += 1;
        }
        assert(es.take(es.len() as int) =~= es);
        LedgerStats {
            total_entries: self.entries.len(),
            unique_models: models,
            unique_rooms: rooms,
            tests_passed: passed,
            total_alternatives: alternatives,
        }
    }
}
} // verus!
