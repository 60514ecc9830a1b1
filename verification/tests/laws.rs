use lau_provenance::entry::{Alternative, ProvenanceEntry};
use lau_provenance::error::{HookError, ProvenanceError};
use lau_provenance::hook::ProvenanceHook;
use lau_provenance::ledger::{same_text, text_contains, ProvenanceLedger};
use lau_provenance::markdown::conservation_cost_text;

fn full_entry(millis: u128, secs: u64) -> ProvenanceEntry {
    let mut e = ProvenanceEntry::new_at("Cache the index", "llama-3", millis, secs);
    e.add_alternative("LRU cache", "Bounded memory", true);
    e.add_alternative("No cache", "Simplest", false);
    e.set_tradeoffs("More memory for faster reads");
    e.set_debt("Eviction policy is fixed");
    e.link_files(&["src/index.rs", "src/cache.rs"]);
    e.link_commit("deadbeef");
    e.link_room("room-7");
    e.set_tests_passed(true);
    e
}

// --- the markdown round trip ---

#[test]
fn test_round_trip_all_fields() {
    let mut e = full_entry(1_700_000_123_456, 1_700_000_123);
    e.agent_host = String::from("builder-1");
    let md = e.render_markdown("2.50");
    let back = ProvenanceEntry::from_markdown_at(&md, 42, 7).unwrap();
    assert_eq!(back.id, e.id);
    assert_eq!(back.intent, e.intent);
    assert_eq!(back.model_used, e.model_used);
    assert_eq!(back.commit_sha, e.commit_sha);
    assert_eq!(back.room_id, e.room_id);
    assert_eq!(back.alternatives, e.alternatives);
    assert_eq!(back.tradeoffs, e.tradeoffs);
    assert_eq!(back.debt, e.debt);
    assert_eq!(back.files_changed, e.files_changed);
    assert_eq!(back.tests_passed, e.tests_passed);
    assert_eq!(back.agent_host, "builder-1");
    // The reader leaves the cost at its default and takes the timestamp from
    // the identifier.

    assert_eq!(back.conservation_cost, 0);
    assert_eq!(back.timestamp, 1_700_000_123);
    assert_eq!(conservation_cost_text(&md), Some(String::from("2.50")));
}

#[test]
fn test_round_trip_without_files_commit_or_room() {
    let mut e = ProvenanceEntry::new_at("Rename a module", "gpt-4", 5_000, 5);
    e.add_alternative("Rename", "Clearer name", true);
    e.set_tradeoffs("Churn in imports");
    e.set_debt("Old name in docs");
    let md = e.render_markdown("0.00");
    assert!(!md.contains("## Files Changed"));
    let back = ProvenanceEntry::from_markdown_at(&md, 9_999, 9).unwrap();
    assert_eq!(back.id, "prov-5000");
    assert_eq!(back.files_changed, Vec::<String>::new());
    assert_eq!(back.commit_sha, None);
    assert_eq!(back.room_id, None);
    // The debt section ends before the tests line when there is no files section.
    assert_eq!(back.debt, "Old name in docs");
    assert_eq!(back.tradeoffs, "Churn in imports");
    assert_eq!(back.timestamp, 5);
}

#[test]
fn test_render_markdown_exact() {
    let mut e = ProvenanceEntry::new_at("Fix", "m", 1_000, 1);
    e.add_alternative("A", "why", true);
    e.set_tradeoffs("t");
    e.set_debt("d");
    e.link_files(&["f.rs"]);
    let md = e.render_markdown("1.00");
    assert_eq!(
        md,
        "# Provenance: prov-1000\n\n**Intent:** Fix\n\n**Model:** m\n\n## Alternatives\n\n\
         - [✓] **A**: why\n\n## Tradeoffs\n\nt\n\n## Debt\n\nd\n\n## Files Changed\n\n\
         - `f.rs`\n\n**Tests Passed:** No\n\n**Conservation Cost:** 1.00\n"
    );
}

// --- identifiers and timestamps ---

#[test]
fn test_id_gives_timestamp() {
    let md = "# Provenance: prov-1700000000999\n";
    let e = ProvenanceEntry::from_markdown_at(md, 0, 3).unwrap();
    assert_eq!(e.id, "prov-1700000000999");
    assert_eq!(e.timestamp, 1_700_000_000);
}

#[test]
fn test_id_with_plus_sign() {
    let md = "# Provenance: prov-+5000\n";
    let e = ProvenanceEntry::from_markdown_at(md, 0, 3).unwrap();
    assert_eq!(e.timestamp, 5);
}

#[test]
fn test_id_not_a_number_keeps_timestamp() {
    let md = "# Provenance: prov-abc\n";
    let e = ProvenanceEntry::from_markdown_at(md, 0, 3).unwrap();
    assert_eq!(e.timestamp, 3);
    let md = "# Provenance: other-1234\n";
    let e = ProvenanceEntry::from_markdown_at(md, 0, 4).unwrap();
    assert_eq!(e.timestamp, 4);
}

#[test]
fn test_from_markdown_empty_defaults() {
    let e = ProvenanceEntry::from_markdown_at("", 12_345, 8).unwrap();
    assert_eq!(e.id, "prov-12345");
    assert_eq!(e.intent, "");
    assert_eq!(e.model_used, "unknown");
    // The fresh identifier gives the timestamp, as any `prov-<millis>` does.
    assert_eq!(e.timestamp, 12);
    assert!(e.alternatives.is_empty());
    assert_eq!(conservation_cost_text(""), None);
}

#[test]
fn test_from_markdown_carriage_returns() {
    let md = "# Provenance: prov-2000\r\n\r\n**Intent:** Do it\r\n\r\n- [ ] **X**: because\r\n";
    let e = ProvenanceEntry::from_markdown_at(md, 0, 0).unwrap();
    assert_eq!(e.intent, "Do it");
    assert_eq!(e.alternatives, vec![Alternative::new("X", "because", false)]);
    assert_eq!(e.timestamp, 2);
}

#[test]
fn test_alternative_without_colon_is_skipped() {
    let md = "- [✓] **Lonely**\n- [ ] **B**: ok\n";
    let e = ProvenanceEntry::from_markdown_at(md, 0, 0).unwrap();
    assert_eq!(e.alternatives, vec![Alternative::new("B", "ok", false)]);
}

#[test]
fn test_cost_text_last_line_wins() {
    let md = "**Conservation Cost:** 1.5\n**Conservation Cost:**  2.25 \n";
    assert_eq!(conservation_cost_text(md), Some(String::from("2.25")));
}

// --- ledger queries ---

fn ledger_of(times: &[u64]) -> ProvenanceLedger {
    let mut l = ProvenanceLedger::new();
    for (i, t) in times.iter().enumerate() {
        let mut e = full_entry(i as u128, *t);
        e.link_commit(&format!("c{}", i));
        l.add(e).unwrap();
    }
    l
}

#[test]
fn test_since_zero_is_everything() {
    let l = ledger_of(&[0, 10, 20]);
    assert_eq!(l.since(0).len(), 3);
}

#[test]
fn test_between_to_end_is_since() {
    let l = ledger_of(&[5, 10, 20, 30]);
    let a: Vec<&String> = l.between(10, u64::MAX).iter().map(|e| &e.id).collect();
    let b: Vec<&String> = l.since(10).iter().map(|e| &e.id).collect();
    assert_eq!(a, b);
    assert_eq!(a.len(), 3);
}

#[test]
fn test_between_within_since() {
    let l = ledger_of(&[5, 10, 20, 30]);
    let a: Vec<u64> = l.between(10, 20).iter().map(|e| e.timestamp).collect();
    let b: Vec<u64> = l.since(10).iter().filter(|e| e.timestamp <= 20).map(|e| e.timestamp).collect();
    assert_eq!(a, b);
    assert_eq!(a, vec![10, 20]);
    assert!(l.between(20, 10).is_empty());
}

#[test]
fn test_add_then_latest_and_count() {
    let mut l = ledger_of(&[1, 2]);
    let e = full_entry(99, 3);
    l.add(e.clone()).unwrap();
    assert_eq!(l.count(), 3);
    assert_eq!(l.latest(), Some(&e));
}

#[test]
fn test_add_invalid_leaves_ledger() {
    let mut l = ledger_of(&[1]);
    let before = l.clone();
    let err = l.add(ProvenanceEntry::new_at(" ", "m", 0, 0)).unwrap_err();
    assert_eq!(l, before);
    assert_eq!(
        err.to_string(),
        "Validation failed: Intent is required, At least one alternative is required, Tradeoffs are required"
    );
}

#[test]
fn test_for_commit_finds_first() {
    let mut l = ProvenanceLedger::new();
    let mut a = full_entry(1, 1);
    a.set_debt("first");
    let mut b = full_entry(2, 2);
    b.set_debt("second");
    l.add(a).unwrap();
    l.add(b).unwrap();
    assert_eq!(l.for_commit("deadbeef").unwrap().debt, "first");
    assert!(l.for_commit("cafe").is_none());
}

#[test]
fn test_stats_counts() {
    let mut l = ledger_of(&[1, 2, 3]);
    let mut e = full_entry(4, 4);
    e.set_tests_passed(false);
    e.model_used = String::from("gpt-4");
    e.room_id = None;
    l.add(e).unwrap();
    let s = l.stats();
    assert_eq!(s.total_entries, 4);
    assert_eq!(s.tests_passed, 3);
    assert!(s.tests_passed <= s.total_entries);
    assert_eq!(s.total_alternatives, 8);
    assert_eq!(s.unique_models, vec![String::from("gpt-4"), String::from("llama-3")]);
    assert_eq!(s.unique_rooms, vec![String::from("room-7")]);
}

#[test]
fn test_render_since_body_matches_full_at_zero() {
    let l = ledger_of(&[1, 2]);
    let costs = vec![String::from("0.00"), String::from("1.00")];
    let full = l.render_full(&costs);
    let since = l.render_since(0, &costs);
    assert_eq!(
        full.strip_prefix("# Provenance Ledger\n\n"),
        since.strip_prefix("# Provenance Ledger (recent)\n\n")
    );
    assert!(full.contains("**Conservation Cost:** 1.00\n\n---\n\n"));
}

#[test]
fn test_text_helpers() {
    assert!(same_text("abc", "abc"));
    assert!(!same_text("abc", "abd"));
    assert!(text_contains("haystack", "st"));
    assert!(!text_contains("haystack", "needle"));
    assert!(text_contains("x", ""));
}

#[test]
fn test_search_uses_lowercase() {
    let l = ledger_of(&[1]);
    assert_eq!(l.search("CACHE THE").len(), 1);
    assert_eq!(l.search("MEMORY FOR").len(), 1);
    assert_eq!(l.search("absent").len(), 0);
}

// --- hook ---

#[test]
fn test_enforce_errors_extend_validation() {
    let hook = ProvenanceHook::new(ProvenanceLedger::new());
    let mut e = ProvenanceEntry::new_at("", "m", 0, 0);
    e.add_alternative("A", "r", false);
    let validation = e.validate().unwrap_err();
    let enforcement = hook.enforce(&e).unwrap_err();
    assert_eq!(validation, vec![String::from("Intent is required"), String::from("Tradeoffs are required")]);
    assert_eq!(&enforcement[..validation.len()], &validation[..]);
    assert_eq!(
        enforcement[validation.len()..].to_vec(),
        vec![
            String::from("At least one file must be listed"),
            String::from("At least one alternative must be selected")
        ]
    );
}

#[test]
fn test_strict_agrees_on_valid_ledger() {
    let l = ledger_of(&[1, 2]);
    let lenient = ProvenanceHook::new(l.clone());
    let mut strict = ProvenanceHook::new(l);
    strict.strict = true;
    let a = lenient.validate_commit(&["src/cache.rs"]).unwrap().unwrap().id.clone();
    let b = strict.validate_commit(&["src/cache.rs"]).unwrap().unwrap().id.clone();
    assert_eq!(a, b);
    assert_eq!(a, "prov-1");
}

#[test]
fn test_hook_error_messages() {
    assert_eq!(HookError::NoEntryFound.to_string(), "No provenance entry found");
    assert_eq!(HookError::NotStaged.to_string(), "Files not staged");
    assert_eq!(
        HookError::EntryInvalid(vec![String::from("a"), String::from("b")]).to_string(),
        "Entry invalid: a, b"
    );
    assert_eq!(ProvenanceError::ParseError(String::from("x")).to_string(), "Parse error: x");
    assert_eq!(ProvenanceError::InvalidMarkdown(String::from("y")).to_string(), "Invalid markdown: y");
}

#[test]
fn test_summary_exact() {
    let e = full_entry(1, 1);
    assert_eq!(
        e.summary("0.25"),
        "[deadbeef] Cache the index (model=llama-3, files=2, cost=0.25)"
    );
}

#[test]
fn test_round_trip_empty_reason() {
    let mut e = ProvenanceEntry::new_at("I", "m", 3_000, 3);
    e.add_alternative("A", "", true);
    e.add_alternative("B", "kept", false);
    e.set_tradeoffs("t");
    let md = e.render_markdown("0.00");
    assert!(md.contains("- [✓] **A**: \n"));
    let back = ProvenanceEntry::from_markdown_at(&md, 0, 0).unwrap();
    assert_eq!(
        back.alternatives,
        vec![Alternative::new("A", "", true), Alternative::new("B", "kept", false)]
    );
}

#[test]
fn test_round_trip_agent_host_only() {
    let mut e = ProvenanceEntry::new("I", "m");
    e.agent_host = String::from("h");
    let md = e.render_markdown("0.00");
    let back = ProvenanceEntry::from_markdown_at(&md, 0, 0).unwrap();
    assert_eq!(back.agent_host, "h");
}

#[test]
fn test_round_trip_multiline_sections() {
    let mut e = full_entry(8_000, 8);
    e.set_tradeoffs("First line\n\nSecond paragraph\n  indented line");
    e.set_debt("Debt one\nDebt two");
    let md = e.render_markdown("0.50");
    let back = ProvenanceEntry::from_markdown_at(&md, 0, 0).unwrap();
    assert_eq!(back.tradeoffs, e.tradeoffs);
    assert_eq!(back.debt, e.debt);
    assert_eq!(back.files_changed, e.files_changed);
    assert_eq!(back.alternatives, e.alternatives);
}

#[test]
fn test_round_trip_multiline_debt_without_files() {
    let mut e = ProvenanceEntry::new_at("I", "m", 9_000, 9);
    e.add_alternative("A", "r", true);
    e.set_tradeoffs("a\nb");
    e.set_debt("x\n\ny");
    let md = e.render_markdown("1.00");
    let back = ProvenanceEntry::from_markdown_at(&md, 0, 0).unwrap();
    assert_eq!(back.tradeoffs, "a\nb");
    assert_eq!(back.debt, "x\n\ny");
    assert!(back.files_changed.is_empty());
}

#[test]
fn test_strict_needs_every_file() {
    let l = ledger_of(&[1]);
    let lenient = ProvenanceHook::new(l.clone());
    let mut strict = ProvenanceHook::new(l);
    strict.strict = true;
    assert!(lenient.validate_commit(&["src/cache.rs", "src/new.rs"]).is_ok());
    assert_eq!(
        strict.validate_commit(&["src/cache.rs", "src/new.rs"]),
        Err(HookError::NoEntryFound)
    );
}

#[test]
fn test_strict_checks_each_files_latest_entry() {
    let mut l = ledger_of(&[1]);
    let mut other = ProvenanceEntry::new_at("", "m", 5, 5);
    other.link_files(&["src/other.rs"]);
    l.entries.push(other);
    let mut strict = ProvenanceHook::new(l);
    strict.strict = true;
    assert_eq!(
        strict.validate_commit(&["src/cache.rs", "src/other.rs"]),
        Err(HookError::EntryInvalid(vec![
            String::from("Intent is required"),
            String::from("At least one alternative is required"),
            String::from("Tradeoffs are required"),
        ]))
    );
    assert_eq!(
        strict.validate_commit(&["src/cache.rs"]).unwrap().unwrap().id,
        "prov-0"
    );
}

#[test]
fn test_strict_reports_latest_entry_errors_first() {
    let mut l = ProvenanceLedger::new();
    let mut e1 = ProvenanceEntry::new_at("", "m", 1, 1);
    e1.link_files(&["a"]);
    let mut e2 = ProvenanceEntry::new_at("Intent", "m", 2, 2);
    e2.link_files(&["b"]);
    l.entries.push(e1);
    l.entries.push(e2);
    let mut strict = ProvenanceHook::new(l);
    strict.strict = true;
    assert_eq!(
        strict.validate_commit(&["a", "b"]),
        Err(HookError::EntryInvalid(vec![
            String::from("At least one alternative is required"),
            String::from("Tradeoffs are required"),
        ]))
    );
}

#[test]
fn test_strict_valid_latest_then_every_file() {
    let mut l = ProvenanceLedger::new();
    let mut e1 = ProvenanceEntry::new_at("", "m", 1, 1);
    e1.link_files(&["a"]);
    let mut e2 = full_entry(2, 2);
    e2.link_files(&["b"]);
    l.entries.push(e1);
    l.entries.push(e2);
    let mut strict = ProvenanceHook::new(l);
    strict.strict = true;
    assert_eq!(
        strict.validate_commit(&["a", "b"]),
        Err(HookError::EntryInvalid(vec![
            String::from("Intent is required"),
            String::from("At least one alternative is required"),
            String::from("Tradeoffs are required"),
        ]))
    );
    assert_eq!(strict.validate_commit(&["b"]).unwrap().unwrap().id, "prov-2");
}
