//! The `.logic_provenance.md` format: rendering an entry as markdown,
//! reading one back, and the one-line summary.
use vstd::prelude::*;
use crate::entry::{
    AlternativeView, EntryView, ProvenanceEntry, alternatives_view, fresh_entry, opt_view,
    strings_view,
};
use crate::error::ProvenanceError;
use crate::text::{
    chars_of, contains, decimal, find, find_range, lemma_find_some, join_lines, lines, next_line, parse_u64,
    parse_u64_range, push_char, push_decimal, starts_with, starts_with_range, string_of,
    strip_prefix_all, strip_prefix_all_range, trim, trim_char, trim_char_range, trim_end_char,
    trim_end_char_range, trim_range,
};

verus! {

// ---------------------------------------------------------------------
// The rendered format
// ---------------------------------------------------------------------

/// The empty line.
pub open spec fn blank_line() -> Seq<char> {
    Seq::empty()
}

pub open spec fn id_line(id: Seq<char>) -> Seq<char> {
    "# Provenance: "@ + id
}

pub open spec fn intent_line(intent: Seq<char>) -> Seq<char> {
    "**Intent:** "@ + intent
}

pub open spec fn model_line(model: Seq<char>) -> Seq<char> {
    "**Model:** "@ + model
}

pub open spec fn host_line(host: Seq<char>) -> Seq<char> {
    "**Agent Host:** "@ + host
}

pub open spec fn commit_line(sha: Seq<char>) -> Seq<char> {
    "**Commit:** `"@ + sha + "`"@
}

pub open spec fn room_line(room: Seq<char>) -> Seq<char> {
    "**Room:** "@ + room
}

/// The check box of an alternative: `✓` when it was selected.
pub open spec fn marker(selected: bool) -> Seq<char> {
    if selected {
        "✓"@
    } else {
        " "@
    }
}

pub open spec fn alternative_line(a: AlternativeView) -> Seq<char> {
    "- ["@ + marker(a.selected) + "] **"@ + a.name + "**: "@ + a.reason
}

pub open spec fn file_line(f: Seq<char>) -> Seq<char> {
    "- `"@ + f + "`"@
}

pub open spec fn tests_line(passed: bool) -> Seq<char> {
    "**Tests Passed:** "@ + (if passed {
        "Yes"@
    } else {
        "No"@
    })
}

pub open spec fn cost_line(cost: Seq<char>) -> Seq<char> {
    "**Conservation Cost:** "@ + cost
}

/// The lines of the optional header fields: agent host, commit and room.
pub open spec fn optional_header_lines(e: EntryView) -> Seq<Seq<char>> {
    (if e.agent_host.len() > 0 {
        seq![host_line(e.agent_host), blank_line()]
    } else {
        Seq::empty()
    }) + (match e.commit_sha {
        Some(sha) => seq![commit_line(sha), blank_line()],
        None => Seq::empty(),
    }) + (match e.room_id {
        Some(room) => seq![room_line(room), blank_line()],
        None => Seq::empty(),
    })
}

/// The lines of the files section, present only when files were linked.
pub open spec fn files_section_lines(files: Seq<Seq<char>>) -> Seq<Seq<char>> {
    if files.len() > 0 {
        seq!["## Files Changed"@, blank_line()] + files.map_values(|f: Seq<char>| file_line(f))
            + seq![blank_line()]
    } else {
        Seq::empty()
    }
}

/// The lines of the markdown rendering of `e`, with `cost` as the text of
/// its conservation cost.
pub open spec fn markdown_lines(e: EntryView, cost: Seq<char>) -> Seq<Seq<char>> {
    seq![
        id_line(e.id),
        blank_line(),
        intent_line(e.intent),
        blank_line(),
        model_line(e.model_used),
        blank_line(),
    ] + optional_header_lines(e) + seq!["## Alternatives"@, blank_line()]
        + e.alternatives.map_values(|a: AlternativeView| alternative_line(a)) + seq![
        blank_line(),
        "## Tradeoffs"@,
        blank_line(),
        e.tradeoffs,
        blank_line(),
        "## Debt"@,
        blank_line(),
        e.debt,
        blank_line(),
    ] + files_section_lines(e.files_changed) + seq![
        tests_line(e.tests_passed),
        blank_line(),
        cost_line(cost),
    ]
}

/// The markdown rendering of `e`: each of its lines ended by a line feed.
pub open spec fn render(e: EntryView, cost: Seq<char>) -> Seq<char> {
    join_lines(markdown_lines(e, cost))
}

/// The one-line summary of `e`, with `cost` as the text of its cost.
pub open spec fn summary_text(e: EntryView, cost: Seq<char>) -> Seq<char> {
    "["@ + (match e.commit_sha {
        Some(sha) => sha,
        None => "no-commit"@,
    }) + "] "@ + e.intent + " (model="@ + e.model_used + ", files="@ + decimal(
        e.files_changed.len(),
    ) + ", cost="@ + cost + ")"@
}

// ---------------------------------------------------------------------
// Reading markdown back
// ---------------------------------------------------------------------

/// The alternative that a line beginning with a check box describes, if its
/// text after the box holds `": "`: the name before it (without surrounding
/// whitespace and `*`) and the reason after it. A text that holds no `": "`
/// but ends with `:` is a name with an empty reason.
pub open spec fn alternative_of(line: Seq<char>) -> Option<AlternativeView> {
    let selected = starts_with(line, "- [✓]"@);
    let rest = trim(
        if selected {
            strip_prefix_all(line, "- [✓]"@)
        } else {
            strip_prefix_all(line, "- [ ]"@)
        },
    );
    match find(rest, ": "@) {
        Some(p) => Some(
            AlternativeView {
                name: trim_char(trim(rest.subrange(0, p)), '*'),
                reason: rest.subrange(p + 2, rest.len() as int),
                selected,
            },
        ),
        None => if rest.len() > 0 && rest.last() == ':' {
            Some(
                AlternativeView {
                    name: trim_char(trim(rest.drop_last()), '*'),
                    reason: Seq::empty(),
                    selected,
                },
            )
        } else {
            None
        },
    }
}

/// The value after a field label: the line without the label (and its
/// repetitions) and without surrounding whitespace.
pub open spec fn field_value(line: Seq<char>, label: Seq<char>) -> Seq<char> {
    trim(strip_prefix_all(line, label))
}

/// What one markdown line (trimmed first) does to the entry being read.
pub open spec fn apply_line(e: EntryView, raw: Seq<char>) -> EntryView {
    let line = trim(raw);
    if starts_with(line, "# Provenance:"@) {
        EntryView { id: field_value(line, "# Provenance:"@), ..e }
    } else if starts_with(line, "**Intent:**"@) {
        EntryView { intent: field_value(line, "**Intent:**"@), ..e }
    } else if starts_with(line, "**Model:**"@) {
        EntryView { model_used: field_value(line, "**Model:**"@), ..e }
    } else if starts_with(line, "**Commit:**"@) {
        EntryView { commit_sha: Some(trim_char(field_value(line, "**Commit:**"@), '`')), ..e }
    } else if starts_with(line, "**Room:**"@) {
        EntryView { room_id: Some(field_value(line, "**Room:**"@)), ..e }
    } else if starts_with(line, "- [✓]"@) || starts_with(line, "- [ ]"@) {
        match alternative_of(line) {
            Some(a) => EntryView { alternatives: e.alternatives.push(a), ..e },
            None => e,
        }
    } else if starts_with(line, "**Tests Passed:**"@) {
        EntryView { tests_passed: contains(line, "Yes"@), ..e }
    } else if starts_with(line, "**Agent Host:**"@) {
        EntryView { agent_host: field_value(line, "**Agent Host:**"@), ..e }
    } else {
        e
    }
}

/// The entry after reading the lines `ls` in order, starting from `e`.
pub open spec fn fold_lines(e: EntryView, ls: Seq<Seq<char>>) -> EntryView
    decreases ls.len(),
{
    if ls.len() == 0 {
        e
    } else {
        fold_lines(apply_line(e, ls[0]), ls.drop_first())
    }
}

/// The text after the first occurrence of `header` in `md`.
pub open spec fn after(md: Seq<char>, start: int, header: Seq<char>) -> Seq<char> {
    md.subrange(start + header.len(), md.len() as int)
}

/// The trade-offs section: after the first `## Tradeoffs` header and blank
/// line, up to the next `## ` heading line or the end, trimmed.
pub open spec fn tradeoffs_section(md: Seq<char>, current: Seq<char>) -> Seq<char> {
    match find(md, "## Tradeoffs\n\n"@) {
        Some(start) => {
            let rest = after(md, start, "## Tradeoffs\n\n"@);
            match find(rest, "\n## "@) {
                Some(end) => trim(rest.subrange(0, end)),
                None => trim(rest),
            }
        },
        None => current,
    }
}

/// The debt section: after the first `## Debt` header and blank line, up to
/// the next `## ` heading line, or else the next line that begins with `**`,
/// or else the end, trimmed.
pub open spec fn debt_section(md: Seq<char>, current: Seq<char>) -> Seq<char> {
    match find(md, "## Debt\n\n"@) {
        Some(start) => {
            let rest = after(md, start, "## Debt\n\n"@);
            match find(rest, "\n## "@) {
                Some(end) => trim(rest.subrange(0, end)),
                None => match find(rest, "\n**"@) {
                    Some(end) => trim(rest.subrange(0, end)),
                    None => trim(rest),
                },
            }
        },
        None => current,
    }
}

/// The file of a ``- `file` `` line.
pub open spec fn file_of(line: Seq<char>) -> Seq<char> {
    trim_end_char(strip_prefix_all(line, "- `"@), '`')
}

/// The files of the leading ``- `file` `` lines of `ls`.
pub open spec fn file_entries(ls: Seq<Seq<char>>) -> Seq<Seq<char>>
    decreases ls.len(),
{
    if ls.len() == 0 || !starts_with(ls[0], "- `"@) {
        Seq::empty()
    } else {
        seq![file_of(ls[0])] + file_entries(ls.drop_first())
    }
}

/// The files section: the ``- `file` `` lines right after the first
/// `## Files Changed` header and blank line.
pub open spec fn files_section(md: Seq<char>, current: Seq<Seq<char>>) -> Seq<Seq<char>> {
    match find(md, "## Files Changed\n\n"@) {
        Some(start) => file_entries(lines(after(md, start, "## Files Changed\n\n"@))),
        None => current,
    }
}

/// The timestamp an identifier `prov-<millis>` gives: the whole seconds of
/// those milliseconds; `current` for any other identifier.
pub open spec fn id_timestamp(id: Seq<char>, current: u64) -> u64 {
    if starts_with(id, "prov-"@) {
        match parse_u64(id.subrange("prov-"@.len() as int, id.len() as int)) {
            Some(millis) => millis / 1000,
            None => current,
        }
    } else {
        current
    }
}

/// The entry that reading `md` yields, starting from `base`: every line
/// read in order, then the trade-offs, debt and files sections, then the
/// timestamp from the identifier.
pub open spec fn markdown_entry(md: Seq<char>, base: EntryView) -> EntryView {
    let e = fold_lines(base, lines(md));
    EntryView {
        tradeoffs: tradeoffs_section(md, e.tradeoffs),
        debt: debt_section(md, e.debt),
        files_changed: files_section(md, e.files_changed),
        timestamp: id_timestamp(e.id, e.timestamp),
        ..e
    }
}

/// The entry that reading `md` yields when the entry it starts from was
/// created at `millis` / `secs`.
pub open spec fn markdown_entry_at(md: Seq<char>, millis: nat, secs: u64) -> EntryView {
    markdown_entry(md, fresh_entry(""@, "unknown"@, millis, secs))
}

/// The text of the last `**Conservation Cost:**` line of `ls` (trimmed,
/// label removed), or `current` when there is none.
pub open spec fn last_cost(ls: Seq<Seq<char>>, current: Option<Seq<char>>) -> Option<Seq<char>>
    decreases ls.len(),
{
    if ls.len() == 0 {
        current
    } else {
        let line = trim(ls[0]);
        last_cost(
            ls.drop_first(),
            if starts_with(line, "**Conservation Cost:**"@) {
                Some(field_value(line, "**Conservation Cost:**"@))
            } else {
                current
            },
        )
    }
}

/// The text of the conservation cost that `md` records, if any.
pub open spec fn cost_text(md: Seq<char>) -> Option<Seq<char>> {
    last_cost(lines(md), None)
}

// ---------------------------------------------------------------------
// Rendering
// ---------------------------------------------------------------------

pub proof fn lemma_join_lines_append(a: Seq<Seq<char>>, b: Seq<Seq<char>>)
    ensures
        join_lines(a + b) == join_lines(a) + join_lines(b),
    decreases a.len(),
{
    if a.len() == 0 {
        assert(a + b =~= b);
        assert(join_lines(a) + join_lines(b) =~= join_lines(b));
    } else {
        lemma_join_lines_append(a.drop_first(), b);
        assert((a + b).drop_first() =~= a.drop_first() + b);
        assert((a + b)[0] == a[0]);
        assert(join_lines(a + b) =~= join_lines(a) + join_lines(b));
    }
}

pub proof fn lemma_join_lines_push(a: Seq<Seq<char>>, l: Seq<char>)
    ensures
        join_lines(a.push(l)) == join_lines(a) + l + seq!['\n'],
{
    lemma_join_lines_append(a, seq![l]);
    assert(a.push(l) =~= a + seq![l]);
    assert(seq![l].drop_first() =~= Seq::<Seq<char>>::empty());
    assert(join_lines(Seq::<Seq<char>>::empty()) =~= Seq::<char>::empty());
    assert(seq![l][0] == l);
    assert(join_lines(seq![l]) =~= l + seq!['\n']);
    assert(join_lines(a) + (l + seq!['\n']) =~= join_lines(a) + l + seq!['\n']);
}

/// Ends the line `line` in `md`, whose lines so far are `done`.
fn emit(md: &mut String, line: &str, Ghost(done): Ghost<Seq<Seq<char>>>)
    requires
        old(md)@ == join_lines(done),
    ensures
        final(md)@ == join_lines(done.push(line@)),
{
    md.append(line);
    push_char(md, '\n');
    proof {
        lemma_join_lines_push(done, line@);
    }
}

/// Ends the line `line` in `md` and adds an empty line after it.
fn emit_pair(md: &mut String, line: &str, Ghost(done): Ghost<Seq<Seq<char>>>)
    requires
        old(md)@ == join_lines(done),
    ensures
        final(md)@ == join_lines(done + seq![line@, blank_line()]),
{
    md.append(line);
    push_char(md, '\n');
    push_char(md, '\n');
    proof {
        lemma_join_lines_push(done, line@);
        lemma_join_lines_push(done.push(line@), blank_line());
        assert(done.push(line@).push(blank_line()) =~= done + seq![line@, blank_line()]);
        assert(md@ =~= join_lines(done) + line@ + seq!['\n'] + blank_line() + seq!['\n']);
    }
}

/// Adds an empty line to `md`.
fn emit_blank(md: &mut String, Ghost(done): Ghost<Seq<Seq<char>>>)
    requires
        old(md)@ == join_lines(done),
    ensures
        final(md)@ == join_lines(done.push(blank_line())),
{
    push_char(md, '\n');
    proof {
        lemma_join_lines_push(done, blank_line());
        assert(md@ =~= join_lines(done) + blank_line() + seq!['\n']);
    }
}

impl ProvenanceEntry {
    fn render_head(&self, md: &mut String, Ghost(done): Ghost<Seq<Seq<char>>>)
        requires
            old(md)@ == join_lines(done),
        ensures
            final(md)@ == join_lines(
                done + seq![
                    id_line(self@.id),
                    blank_line(),
                    intent_line(self@.intent),
                    blank_line(),
                    model_line(self@.model_used),
                    blank_line(),
                ],
            ),
    {
        let mut line = String::from_str("# Provenance: ");
        line.append(self.id.as_str());
        emit_pair(md, line.as_str(), Ghost(done));
        let ghost d1 = done + seq![line@, blank_line()];
        let mut line2 = String::from_str("**Intent:** ");
        line2.append(self.intent.as_str());
        emit_pair(md, line2.as_str(), Ghost(d1));
        let ghost d2 = d1 + seq![line2@, blank_line()];
        let mut line3 = String::from_str("**Model:** ");
        line3.append(self.model_used.as_str());
        emit_pair(md, line3.as_str(), Ghost(d2));
        assert(d2 + seq![line3@, blank_line()] =~= done + seq![
            id_line(self@.id),
            blank_line(),
            intent_line(self@.intent),
            blank_line(),
            model_line(self@.model_used),
            blank_line(),
        ]);
    }

    fn render_optional(&self, md: &mut String, Ghost(done): Ghost<Seq<Seq<char>>>)
        requires
            old(md)@ == join_lines(done),
        ensures
            final(md)@ == join_lines(done + optional_header_lines(self@)),
    {
        let ghost mut d = done;
        if !self.agent_host.as_str().is_empty() {
            let mut line = String::from_str("**Agent Host:** ");
            line.append(self.agent_host.as_str());
            emit_pair(md, line.as_str(), Ghost(d));
            proof { d = d + seq![line@, blank_line()]; }
        }
        let ghost d1 = d;
        match &self.commit_sha {
            Some(sha) => {
                let mut line = String::from_str("**Commit:** `");
                line.append(sha.as_str());
                line.append("`");
                emit_pair(md, line.as_str(), Ghost(d));
                proof { d = d + seq![line@, blank_line()]; }
            },
            None => {},
        }
        let ghost d2 = d;
        match &self.room_id {
            Some(room) => {
                let mut line = String::from_str("**Room:** ");
                line.append(room.as_str());
                emit_pair(md, line.as_str(), Ghost(d));
                proof { d = d + seq![line@, blank_line()]; }
            },
            None => {},
        }
        let ghost e = self@;
        let ghost o1 = if e.agent_host.len() > 0 {
            seq![host_line(e.agent_host), blank_line()]
        } else {
            Seq::<Seq<char>>::empty()
        };
        let ghost o2 = match e.commit_sha {
            Some(sha) => seq![commit_line(sha), blank_line()],
            None => Seq::<Seq<char>>::empty(),
        };
        let ghost o3 = match e.room_id {
            Some(room) => seq![room_line(room), blank_line()],
            None => Seq::<Seq<char>>::empty(),
        };
        assert(d1 =~= done + o1);
        assert(d2 =~= d1 + o2);
        assert(d =~= d2 + o3);
        assert(optional_header_lines(e) == o1 + o2 + o3);
        assert(d =~= done + optional_header_lines(e));
    }

    fn render_alternatives(&self, md: &mut String, Ghost(done): Ghost<Seq<Seq<char>>>)
        requires
            old(md)@ == join_lines(done),
        ensures
            final(md)@ == join_lines(
                done + seq!["## Alternatives"@, blank_line()] + self@.alternatives.map_values(
                    |a: AlternativeView| alternative_line(a),
                ) + seq![blank_line()],
            ),
    {
        let ghost e = self@;
        emit_pair(md, "## Alternatives", Ghost(done));
        let ghost start = done + seq!["## Alternatives"@, blank_line()];
        let ghost mut d = start;
        let mut i: usize = 0;
        while i < self.alternatives.len()
            invariant
                e == self@,
                i <= self.alternatives@.len(),
                md@ == join_lines(d),
                d == start + e.alternatives.take(i as int).map_values(
                    |a: AlternativeView| alternative_line(a),
                ),
            decreases self.alternatives.len() - i,
        {
            let alt = &self.alternatives[i];
            let mut line = String::from_str("- [");
            if alt.selected {
                line.append("✓");
            } else {
                line.append(" ");
            }
            line.append("] **");
            line.append(alt.name.as_str());
            line.append("**: ");
            line.append(alt.reason.as_str());
            emit(md, line.as_str(), Ghost(d));
            proof {
                assert(e.alternatives[i as int] == alt@);
                assert(line@ =~= alternative_line(alt@));
                assert(e.alternatives.take(i + 1) =~= e.alternatives.take(i as int).push(alt@));
                assert(e.alternatives.take(i + 1).map_values(|a: AlternativeView| alternative_line(a))
                    =~= e.alternatives.take(i as int).map_values(
                    |a: AlternativeView| alternative_line(a),
                ).push(alternative_line(alt@)));
                d = d.push(line@);
            }
            i += 1;
        }
        assert(e.alternatives.take(e.alternatives.len() as int) =~= e.alternatives);
        assert(d =~= start + e.alternatives.map_values(|a: AlternativeView| alternative_line(a)));
        emit_blank(md, Ghost(d));
        assert(d.push(blank_line()) =~= done + seq!["## Alternatives"@, blank_line()]
            + e.alternatives.map_values(|a: AlternativeView| alternative_line(a)) + seq![
            blank_line(),
        ]);
    }

    fn render_sections(&self, md: &mut String, Ghost(done): Ghost<Seq<Seq<char>>>)
        requires
            old(md)@ == join_lines(done),
        ensures
            final(md)@ == join_lines(
                done + seq![
                    "## Tradeoffs"@,
                    blank_line(),
                    self@.tradeoffs,
                    blank_line(),
                    "## Debt"@,
                    blank_line(),
                    self@.debt,
                    blank_line(),
                ],
            ),
    {
        emit_pair(md, "## Tradeoffs", Ghost(done));
        let ghost d1 = done + seq!["## Tradeoffs"@, blank_line()];
        emit_pair(md, self.tradeoffs.as_str(), Ghost(d1));
        let ghost d2 = d1 + seq![self.tradeoffs@, blank_line()];
        emit_pair(md, "## Debt", Ghost(d2));
        let ghost d3 = d2 + seq!["## Debt"@, blank_line()];
        emit_pair(md, self.debt.as_str(), Ghost(d3));
        assert(d3 + seq![self.debt@, blank_line()] =~= done + seq![
            "## Tradeoffs"@,
            blank_line(),
            self@.tradeoffs,
            blank_line(),
            "## Debt"@,
            blank_line(),
            self@.debt,
            blank_line(),
        ]);
    }

    fn render_files(&self, md: &mut String, Ghost(done): Ghost<Seq<Seq<char>>>)
        requires
            old(md)@ == join_lines(done),
        ensures
            final(md)@ == join_lines(done + files_section_lines(self@.files_changed)),
    {
        let ghost e = self@;
        if self.files_changed.len() > 0 {
            emit_pair(md, "## Files Changed", Ghost(done));
            let ghost start = done + seq!["## Files Changed"@, blank_line()];
            let ghost mut d = start;
            let mut i: usize = 0;
            while i < self.files_changed.len()
                invariant
                    e == self@,
                    i <= self.files_changed@.len(),
                    md@ == join_lines(d),
                    d == start + e.files_changed.take(i as int).map_values(
                        |f: Seq<char>| file_line(f),
                    ),
                decreases self.files_changed.len() - i,
            {
                let mut line = String::from_str("- `");
                line.append(self.files_changed[i].as_str());
                line.append("`");
                emit(md, line.as_str(), Ghost(d));
                proof {
                    let f = self.files_changed@[i as int]@;
                    assert(e.files_changed[i as int] == f);
                    assert(e.files_changed.take(i + 1) =~= e.files_changed.take(i as int).push(f));
                    assert(e.files_changed.take(i + 1).map_values(|f: Seq<char>| file_line(f))
                        =~= e.files_changed.take(i as int).map_values(|f: Seq<char>| file_line(f)).push(
                        file_line(f),
                    ));
                    d = d.push(line@);
                }
                i += 1;
            }
            assert(e.files_changed.take(e.files_changed.len() as int) =~= e.files_changed);
            emit_blank(md, Ghost(d));
            assert(d.push(blank_line()) =~= done + files_section_lines(e.files_changed));
        } else {
            assert(done + files_section_lines(e.files_changed) =~= done);
        }
    }

    /// Render as markdown in the `.logic_provenance.md` format; `cost` is the
    /// conservation cost as it should appear (two decimals).
    pub fn render_markdown(&self, cost: &str) -> (md: String)
        ensures
            md@ == render(self@, cost@),
    {
        let ghost e = self@;
        let mut md = String::new();
        let ghost d0: Seq<Seq<char>> = Seq::empty();
        assert(md@ =~= join_lines(d0));
        self.render_head(&mut md, Ghost(d0));
        let ghost d1 = d0 + seq![
            id_line(e.id),
            blank_line(),
            intent_line(e.intent),
            blank_line(),
            model_line(e.model_used),
            blank_line(),
        ];
        self.render_optional(&mut md, Ghost(d1));
        let ghost d2 = d1 + optional_header_lines(e);
        self.render_alternatives(&mut md, Ghost(d2));
        let ghost d3 = d2 + seq!["## Alternatives"@, blank_line()] + e.alternatives.map_values(
            |a: AlternativeView| alternative_line(a),
        ) + seq![blank_line()];
        self.render_sections(&mut md, Ghost(d3));
        let ghost d4 = d3 + seq![
            "## Tradeoffs"@,
            blank_line(),
            e.tradeoffs,
            blank_line(),
            "## Debt"@,
            blank_line(),
            e.debt,
            blank_line(),
        ];
        self.render_files(&mut md, Ghost(d4));
        let ghost d5 = d4 + files_section_lines(e.files_changed);
        let mut line = String::from_str("**Tests Passed:** ");
        if self.tests_passed {
            line.append("Yes");
        } else {
            line.append("No");
        }
        emit_pair(&mut md, line.as_str(), Ghost(d5));
        let ghost d6 = d5 + seq![line@, blank_line()];
        let mut line2 = String::from_str("**Conservation Cost:** ");
        line2.append(cost);
        emit(&mut md, line2.as_str(), Ghost(d6));
        assert(d6.push(line2@) =~= markdown_lines(e, cost@));
        md
    }

    /// One-line summary of this entry; `cost` is the conservation cost as it
    /// should appear (two decimals).
    pub fn summary(&self, cost: &str) -> (s: String)
        ensures
            s@ == summary_text(self@, cost@),
    {
        let mut s = String::from_str("[");
        match &self.commit_sha {
            Some(sha) => s.append(sha.as_str()),
            None => s.append("no-commit"),
        }
        s.append("] ");
        s.append(self.intent.as_str());
        s.append(" (model=");
        s.append(self.model_used.as_str());
        s.append(", files=");
        push_decimal(&mut s, self.files_changed.len() as u128);
        s.append(", cost=");
        s.append(cost);
        s.append(")");
        assert(self@.files_changed.len() == self.files_changed@.len());
        s
    }
}


// ---------------------------------------------------------------------
// Reading
// ---------------------------------------------------------------------

/// The labels and markers of the format, as characters.
struct Labels {
    id: Vec<char>,
    intent: Vec<char>,
    model: Vec<char>,
    commit: Vec<char>,
    room: Vec<char>,
    checked: Vec<char>,
    unchecked: Vec<char>,
    tests: Vec<char>,
    host: Vec<char>,
    cost: Vec<char>,
    yes: Vec<char>,
    colon: Vec<char>,
    tradeoffs_header: Vec<char>,
    debt_header: Vec<char>,
    files_header: Vec<char>,
    heading_break: Vec<char>,
    bold_break: Vec<char>,
    file_mark: Vec<char>,
    prov: Vec<char>,
}

impl Labels {
    spec fn wf(&self) -> bool {
        &&& self.id@ == "# Provenance:"@
        &&& self.intent@ == "**Intent:**"@
        &&& self.model@ == "**Model:**"@
        &&& self.commit@ == "**Commit:**"@
        &&& self.room@ == "**Room:**"@
        &&& self.checked@ == "- [✓]"@
        &&& self.unchecked@ == "- [ ]"@
        &&& self.tests@ == "**Tests Passed:**"@
        &&& self.host@ == "**Agent Host:**"@
        &&& self.cost@ == "**Conservation Cost:**"@
        &&& self.yes@ == "Yes"@
        &&& self.colon@ == ": "@
        &&& self.tradeoffs_header@ == "## Tradeoffs\n\n"@
        &&& self.debt_header@ == "## Debt\n\n"@
        &&& self.files_header@ == "## Files Changed\n\n"@
        &&& self.heading_break@ == "\n## "@
        &&& self.bold_break@ == "\n**"@
        &&& self.file_mark@ == "- `"@
        &&& self.prov@ == "prov-"@
    }

    fn new() -> (l: Self)
        ensures
            l.wf(),
    {
        Labels {
            id: chars_of("# Provenance:"),
            intent: chars_of("**Intent:**"),
            model: chars_of("**Model:**"),
            commit: chars_of("**Commit:**"),
            room: chars_of("**Room:**"),
            checked: chars_of("- [✓]"),
            unchecked: chars_of("- [ ]"),
            tests: chars_of("**Tests Passed:**"),
            host: chars_of("**Agent Host:**"),
            cost: chars_of("**Conservation Cost:**"),
            yes: chars_of("Yes"),
            colon: chars_of(": "),
            tradeoffs_header: chars_of("## Tradeoffs\n\n"),
            debt_header: chars_of("## Debt\n\n"),
            files_header: chars_of("## Files Changed\n\n"),
            heading_break: chars_of("\n## "),
            bold_break: chars_of("\n**"),
            file_mark: chars_of("- `"),
            prov: chars_of("prov-"),
        }
    }
}

/// `field_value(cs[lo..hi], label)` as a `String`.
fn field_at(cs: &Vec<char>, lo: usize, hi: usize, label: &Vec<char>) -> (r: String)
    requires
        lo <= hi <= cs@.len(),
    ensures
        r@ == field_value(cs@.subrange(lo as int, hi as int), label@),
{
    let s = strip_prefix_all_range(cs, lo, hi, label);
    let (x, y) = trim_range(cs, s, hi);
    string_of(cs, x, y)
}

/// `alternative_of(cs[lo..hi])`.
fn alternative_at(cs: &Vec<char>, lo: usize, hi: usize, l: &Labels) -> (r: Option<
    crate::entry::Alternative,
>)
    requires
        lo <= hi <= cs@.len(),
        l.wf(),
    ensures
        match r {
            Some(a) => alternative_of(cs@.subrange(lo as int, hi as int)) == Some(a@),
            None => alternative_of(cs@.subrange(lo as int, hi as int)) is None,
        },
{
    let selected = starts_with_range(cs, lo, hi, &l.checked);
    let s = if selected {
        strip_prefix_all_range(cs, lo, hi, &l.checked)
    } else {
        strip_prefix_all_range(cs, lo, hi, &l.unchecked)
    };
    let (x, y) = trim_range(cs, s, hi);
    let ghost rest = cs@.subrange(x as int, y as int);
    match find_range(cs, x, y, &l.colon) {
        Some(j) => {
            proof {
                lemma_find_some(rest, ": "@);
                reveal_strlit(": ");
            }
            let (u, v) = trim_range(cs, x, j);
            let (u2, v2) = trim_char_range(cs, u, v, '*');
            assert(rest.subrange(0, j - x) =~= cs@.subrange(x as int, j as int));
            assert(rest.subrange(j - x + 2, rest.len() as int) =~= cs@.subrange(j + 2, y as int));
            Some(
                crate::entry::Alternative {
                    name: string_of(cs, u2, v2),
                    reason: string_of(cs, j + 2, y),
                    selected,
                },
            )
        },
        None => {
            if y > x && cs[y - 1] == ':' {
                let (u, v) = trim_range(cs, x, y - 1);
                let (u2, v2) = trim_char_range(cs, u, v, '*');
                assert(rest.drop_last() =~= cs@.subrange(x as int, y - 1));
                let reason = String::new();
                assert(reason@ =~= Seq::<char>::empty());
                Some(crate::entry::Alternative { name: string_of(cs, u2, v2), reason, selected })
            } else {
                None
            }
        },
    }
}

/// Applies the line `cs[lo..hi]` to `e`.
fn read_line(e: &mut ProvenanceEntry, cs: &Vec<char>, lo: usize, hi: usize, l: &Labels)
    requires
        lo <= hi <= cs@.len(),
        l.wf(),
    ensures
        final(e)@ == apply_line(old(e)@, cs@.subrange(lo as int, hi as int)),
{
    let (a, b) = trim_range(cs, lo, hi);
    if starts_with_range(cs, a, b, &l.id) {
        e.id = field_at(cs, a, b, &l.id);
    } else if starts_with_range(cs, a, b, &l.intent) {
        e.intent = field_at(cs, a, b, &l.intent);
    } else if starts_with_range(cs, a, b, &l.model) {
        e.model_used = field_at(cs, a, b, &l.model);
    } else if starts_with_range(cs, a, b, &l.commit) {
        let s = strip_prefix_all_range(cs, a, b, &l.commit);
        let (x, y) = trim_range(cs, s, b);
        let (u, v) = trim_char_range(cs, x, y, '`');
        e.commit_sha = Some(string_of(cs, u, v));
    } else if starts_with_range(cs, a, b, &l.room) {
        e.room_id = Some(field_at(cs, a, b, &l.room));
    } else if starts_with_range(cs, a, b, &l.checked) || starts_with_range(cs, a, b, &l.unchecked) {
        match alternative_at(cs, a, b, l) {
            Some(alt) => {
                let ghost before = e.alternatives@;
                e.alternatives.push(alt);
                assert(alternatives_view(e.alternatives@) =~= alternatives_view(before).push(
                    alt@,
                ));
            },
            None => {},
        }
    } else if starts_with_range(cs, a, b, &l.tests) {
        e.tests_passed = find_range(cs, a, b, &l.yes).is_some();
    } else if starts_with_range(cs, a, b, &l.host) {
        e.agent_host = field_at(cs, a, b, &l.host);
    }
}

impl ProvenanceEntry {
    /// Reads every line of `cs` into `self`.
    fn read_lines(&mut self, cs: &Vec<char>, l: &Labels)
        requires
            l.wf(),
        ensures
            final(self)@ == fold_lines(old(self)@, lines(cs@)),
    {
        let n = cs.len();
        let mut pos: usize = 0;
        assert(cs@.subrange(0, n as int) =~= cs@);
        while pos < n
            invariant
                l.wf(),
                n == cs@.len(),
                pos <= n,
                fold_lines(old(self)@, lines(cs@)) == fold_lines(
                    self@,
                    lines(cs@.subrange(pos as int, n as int)),
                ),
            decreases n - pos,
        {
            let (a, b, next) = next_line(cs, pos, n);
            let ghost rest = lines(cs@.subrange(next as int, n as int));
            let ghost ls = seq![cs@.subrange(a as int, b as int)] + rest;
            assert(ls[0] == cs@.subrange(a as int, b as int));
            assert(ls.drop_first() =~= rest);
            read_line(self, cs, a, b, l);
            pos = next;
        }
        assert(cs@.subrange(n as int, n as int) =~= Seq::<char>::empty());
    }

    /// Reads the trade-offs section of `cs` into `self`.
    fn read_tradeoffs(&mut self, cs: &Vec<char>, l: &Labels)
        requires
            l.wf(),
        ensures
            final(self)@ == (EntryView {
                tradeoffs: tradeoffs_section(cs@, old(self)@.tradeoffs),
                ..old(self)@
            }),
    {
        let n = cs.len();
        assert(cs@.subrange(0, n as int) =~= cs@);
        match find_range(cs, 0, n, &l.tradeoffs_header) {
            Some(start) => {
                proof {
                    lemma_find_some(cs@, "## Tradeoffs\n\n"@);
                }
                let rs = start + l.tradeoffs_header.len();
                let ghost rest = cs@.subrange(rs as int, n as int);
                match find_range(cs, rs, n, &l.heading_break) {
                    Some(end) => {
                        let (x, y) = trim_range(cs, rs, end);
                        assert(rest.subrange(0, end - rs) =~= cs@.subrange(rs as int, end as int));
                        self.tradeoffs = string_of(cs, x, y);
                    },
                    None => {
                        let (x, y) = trim_range(cs, rs, n);
                        self.tradeoffs = string_of(cs, x, y);
                    },
                }
            },
            None => {},
        }
    }

    /// Reads the debt section of `cs` into `self`.
    fn read_debt(&mut self, cs: &Vec<char>, l: &Labels)
        requires
            l.wf(),
        ensures
            final(self)@ == (EntryView { debt: debt_section(cs@, old(self)@.debt), ..old(self)@ }),
    {
        let n = cs.len();
        assert(cs@.subrange(0, n as int) =~= cs@);
        match find_range(cs, 0, n, &l.debt_header) {
            Some(start) => {
                proof {
                    lemma_find_some(cs@, "## Debt\n\n"@);
                }
                let rs = start + l.debt_header.len();
                let ghost rest = cs@.subrange(rs as int, n as int);
                match find_range(cs, rs, n, &l.heading_break) {
                    Some(end) => {
                        let (x, y) = trim_range(cs, rs, end);
                        assert(rest.subrange(0, end - rs) =~= cs@.subrange(rs as int, end as int));
                        self.debt = string_of(cs, x, y);
                    },
                    None => match find_range(cs, rs, n, &l.bold_break) {
                        Some(end) => {
                            let (x, y) = trim_range(cs, rs, end);
                            assert(rest.subrange(0, end - rs) =~= cs@.subrange(
                                rs as int,
                                end as int,
                            ));
                            self.debt = string_of(cs, x, y);
                        },
                        None => {
                            let (x, y) = trim_range(cs, rs, n);
                            self.debt = string_of(cs, x, y);
                        },
                    },
                }
            },
            None => {},
        }
    }

    /// Reads the files section of `cs` into `self`.
    fn read_files(&mut self, cs: &Vec<char>, l: &Labels)
        requires
            l.wf(),
        ensures
            final(self)@ == (EntryView {
                files_changed: files_section(cs@, old(self)@.files_changed),
                ..old(self)@
            }),
    {
        let n = cs.len();
        assert(cs@.subrange(0, n as int) =~= cs@);
        match find_range(cs, 0, n, &l.files_header) {
            Some(start) => {
                proof {
                    lemma_find_some(cs@, "## Files Changed\n\n"@);
                }
                let rs = start + l.files_header.len();
                let mut files: Vec<String> = Vec::new();
                let mut pos = rs;
                let mut stop = false;
                assert(strings_view(files@) =~= Seq::<Seq<char>>::empty());
                assert(Seq::<Seq<char>>::empty() + file_entries(
                    lines(cs@.subrange(rs as int, n as int)),
                ) =~= file_entries(lines(cs@.subrange(rs as int, n as int))));
                while pos < n && !stop
                    invariant
                        l.wf(),
                        n == cs@.len(),
                        rs <= pos <= n,
                        file_entries(lines(cs@.subrange(rs as int, n as int))) == strings_view(
                            files@,
                        ) + (if stop {
                            Seq::<Seq<char>>::empty()
                        } else {
                            file_entries(lines(cs@.subrange(pos as int, n as int)))
                        }),
                    decreases n - pos + (if stop { 0int } else { 1int }),
                {
                    let (a, b, next) = next_line(cs, pos, n);
                    let ghost line = cs@.subrange(a as int, b as int);
                    let ghost rest = lines(cs@.subrange(next as int, n as int));
                    let ghost ls = seq![line] + rest;
                    assert(ls[0] == line);
                    assert(ls.drop_first() =~= rest);
                    if starts_with_range(cs, a, b, &l.file_mark) {
                        let s = strip_prefix_all_range(cs, a, b, &l.file_mark);
                        let t = trim_end_char_range(cs, s, b, '`');
                        let ghost before = files@;
                        files.push(string_of(cs, s, t));
                        assert(strings_view(files@) =~= strings_view(before).push(file_of(line)));
                        assert(strings_view(before) + (seq![file_of(line)] + file_entries(rest))
                            =~= strings_view(before).push(file_of(line)) + file_entries(rest));
                        pos = next;
                    } else {
                        stop = true;
                        assert(strings_view(files@) + Seq::<Seq<char>>::empty() =~= strings_view(
                            files@,
                        ));
                    }
                }
                proof {
                    if !stop {
                        assert(cs@.subrange(n as int, n as int) =~= Seq::<char>::empty());
                        assert(lines(Seq::<char>::empty()) =~= Seq::<Seq<char>>::empty());
                    }
                    assert(strings_view(files@) + Seq::<Seq<char>>::empty() =~= strings_view(
                        files@,
                    ));
                }
                self.files_changed = files;
            },
            None => {},
        }
    }

    /// Sets the timestamp from a `prov-<millis>` identifier.
    fn read_timestamp(&mut self, l: &Labels)
        requires
            l.wf(),
        ensures
            final(self)@ == (EntryView {
                timestamp: id_timestamp(old(self)@.id, old(self)@.timestamp),
                ..old(self)@
            }),
    {
        let idc = chars_of(self.id.as_str());
        let n = idc.len();
        assert(idc@.subrange(0, n as int) =~= idc@);
        if starts_with_range(&idc, 0, n, &l.prov) {
            match parse_u64_range(&idc, l.prov.len(), n) {
                Some(millis) => {
                    self.timestamp = millis / 1000;
                },
                None => {},
            }
        }
    }

    /// Parse a provenance entry from markdown, starting from an entry
    /// created at `millis` / `secs` (which gives the identifier and timestamp
    /// when the markdown does not). The conservation cost is left at zero;
    /// its text is what [`conservation_cost_text`] returns.
    pub fn from_markdown_at(md: &str, millis: u128, secs: u64) -> (r: Result<Self, ProvenanceError>)
        ensures
            r matches Ok(e) && e@ == markdown_entry_at(md@, millis as nat, secs),
    {
        let l = Labels::new();
        let cs = chars_of(md);
        let mut e = ProvenanceEntry::new_at("", "unknown", millis, secs);
        e.read_lines(&cs, &l);
        e.read_tradeoffs(&cs, &l);
        e.read_debt(&cs, &l);
        e.read_files(&cs, &l);
        e.read_timestamp(&l);
        Ok(e)
    }

    /// Parse a provenance entry from markdown. Where the markdown has no
    /// identifier or no `prov-<millis>` identifier, the identifier or
    /// timestamp is the current time's.
    pub fn from_markdown(md: &str) -> (r: Result<Self, ProvenanceError>)
        ensures
            r matches Ok(e) && exists|millis: nat, secs: u64| e@ == markdown_entry_at(
                md@,
                millis,
                secs,
            ),
    {
        let millis = crate::entry::now_millis();
        let secs = crate::entry::now_secs();
        Self::from_markdown_at(md, millis, secs)
    }
}

/// The text of the conservation cost that `md` records: its last
/// `**Conservation Cost:**` line, label and surrounding whitespace removed.
pub fn conservation_cost_text(md: &str) -> (r: Option<String>)
    ensures
        opt_view(r) == cost_text(md@),
{
    let l = Labels::new();
    let cs = chars_of(md);
    let n = cs.len();
    let mut pos: usize = 0;
    let mut found: Option<String> = None;
    assert(cs@.subrange(0, n as int) =~= cs@);
    while pos < n
        invariant
            l.wf(),
            n == cs@.len(),
            pos <= n,
            cost_text(md@) == last_cost(lines(cs@.subrange(pos as int, n as int)), opt_view(found)),
            cs@ == md@,
        decreases n - pos,
    {
        let (a, b, next) = next_line(&cs, pos, n);
        let ghost rest = lines(cs@.subrange(next as int, n as int));
        let ghost ls = seq![cs@.subrange(a as int, b as int)] + rest;
        assert(ls[0] == cs@.subrange(a as int, b as int));
        assert(ls.drop_first() =~= rest);
        let (x, y) = trim_range(&cs, a, b);
        if starts_with_range(&cs, x, y, &l.cost) {
            found = Some(field_at(&cs, x, y, &l.cost));
        }
        pos = next;
    }
    assert(cs@.subrange(n as int, n as int) =~= Seq::<char>::empty());
    found
}
} // verus!
