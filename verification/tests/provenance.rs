use lau_provenance::entry::{Alternative, ProvenanceEntry};
use lau_provenance::error::{HookError, ProvenanceError};
use lau_provenance::hook::ProvenanceHook;
use lau_provenance::ledger::ProvenanceLedger;
use lau_provenance::markdown::conservation_cost_text;

/// The cost as the markdown shows it: two decimals.
fn cost(entry: &ProvenanceEntry) -> String {
    format!("{:.2}", f64::from_bits(entry.conservation_cost))
}

/// The costs of all entries of a ledger, in order.
fn costs(ledger: &ProvenanceLedger) -> Vec<String> {
    ledger.entries.iter().map(cost).collect()
}

fn make_valid_entry() -> ProvenanceEntry {
    let mut entry = ProvenanceEntry::new("Add authentication middleware", "gpt-4");
    entry.add_alternative("JWT tokens", "Industry standard, good tooling", true);
    entry.add_alternative("Session cookies", "Simpler but less scalable", false);
    entry.set_tradeoffs("JWT is stateless but larger payload size");
    entry.set_debt("Need to add token rotation later");
    entry.link_files(&["src/auth.rs", "src/middleware.rs"]);
    entry.set_tests_passed(true);
    entry
}

// --- ProvenanceEntry tests ---

#[test]
fn test_entry_new() {
    let entry = ProvenanceEntry::new("Do something", "gpt-4");
    assert_eq!(entry.intent, "Do something");
    assert_eq!(entry.model_used, "gpt-4");
    assert!(entry.commit_sha.is_none());
    assert!(entry.alternatives.is_empty());
    assert!(entry.files_changed.is_empty());
    assert!(!entry.tests_passed);
}

#[test]
fn test_add_alternative() {
    let mut entry = ProvenanceEntry::new("Test", "gpt-4");
    entry.add_alternative("Option A", "Good reason", true);
    entry.add_alternative("Option B", "Another reason", false);
    assert_eq!(entry.alternatives.len(), 2);
    assert!(entry.alternatives[0].selected);
    assert!(!entry.alternatives[1].selected);
}

#[test]
fn test_set_tradeoffs() {
    let mut entry = ProvenanceEntry::new("Test", "gpt-4");
    entry.set_tradeoffs("Speed vs memory");
    assert_eq!(entry.tradeoffs, "Speed vs memory");
}

#[test]
fn test_set_debt() {
    let mut entry = ProvenanceEntry::new("Test", "gpt-4");
    entry.set_debt("Will need refactoring");
    assert_eq!(entry.debt, "Will need refactoring");
}

#[test]
fn test_link_commit() {
    let mut entry = ProvenanceEntry::new("Test", "gpt-4");
    entry.link_commit("abc123");
    assert_eq!(entry.commit_sha, Some("abc123".to_string()));
}

#[test]
fn test_link_room() {
    let mut entry = ProvenanceEntry::new("Test", "gpt-4");
    entry.link_room("room-42");
    assert_eq!(entry.room_id, Some("room-42".to_string()));
}

#[test]
fn test_link_files() {
    let mut entry = ProvenanceEntry::new("Test", "gpt-4");
    entry.link_files(&["src/main.rs", "src/lib.rs"]);
    assert_eq!(entry.files_changed, vec!["src/main.rs", "src/lib.rs"]);
}

#[test]
fn test_set_tests_passed() {
    let mut entry = ProvenanceEntry::new("Test", "gpt-4");
    entry.set_tests_passed(true);
    assert!(entry.tests_passed);
}

#[test]
fn test_validate_valid_entry() {
    let entry = make_valid_entry();
    assert!(entry.validate().is_ok());
}

#[test]
fn test_validate_missing_intent() {
    let mut entry = ProvenanceEntry::new("", "gpt-4");
    entry.add_alternative("A", "B", true);
    entry.set_tradeoffs("something");
    let result = entry.validate();
    assert!(result.is_err());
    let errs = result.unwrap_err();
    assert!(errs.iter().any(|e| e.contains("Intent")));
}

#[test]
fn test_validate_no_alternatives() {
    let mut entry = ProvenanceEntry::new("Do stuff", "gpt-4");
    entry.set_tradeoffs("something");
    let result = entry.validate();
    assert!(result.is_err());
    let errs = result.unwrap_err();
    assert!(errs.iter().any(|e| e.contains("alternative")));
}

#[test]
fn test_validate_no_tradeoffs() {
    let mut entry = ProvenanceEntry::new("Do stuff", "gpt-4");
    entry.add_alternative("A", "B", true);
    let result = entry.validate();
    assert!(result.is_err());
    let errs = result.unwrap_err();
    assert!(errs.iter().any(|e| e.contains("Tradeoffs")));
}

#[test]
fn test_validate_multiple_errors() {
    let entry = ProvenanceEntry::new("", "gpt-4");
    let result = entry.validate();
    assert!(result.is_err());
    assert_eq!(result.unwrap_err().len(), 3); // intent + alternatives + tradeoffs
}

#[test]
fn test_render_markdown() {
    let entry = make_valid_entry();
    let md = entry.render_markdown(&cost(&entry));
    assert!(md.contains("Provenance:"));
    assert!(md.contains("Add authentication middleware"));
    assert!(md.contains("gpt-4"));
    assert!(md.contains("JWT tokens"));
    assert!(md.contains("Session cookies"));
    assert!(md.contains("Tradeoffs"));
    assert!(md.contains("Debt"));
    assert!(md.contains("src/auth.rs"));
    assert!(md.contains("Yes"));
}

#[test]
fn test_render_markdown_with_commit() {
    let mut entry = make_valid_entry();
    entry.link_commit("deadbeef");
    entry.link_room("room-1");
    let md = entry.render_markdown(&cost(&entry));
    assert!(md.contains("deadbeef"));
    assert!(md.contains("room-1"));
}

#[test]
fn test_from_markdown_roundtrip() {
    let mut entry = make_valid_entry();
    entry.link_commit("abc123");
    entry.link_room("room-1");
    entry.conservation_cost = 5.5f64.to_bits();
    let md = entry.render_markdown(&cost(&entry));
    let parsed = ProvenanceEntry::from_markdown(&md).unwrap();
    let parsed_cost: f64 = conservation_cost_text(&md)
        .map(|t| t.parse::<f64>().unwrap_or(0.0))
        .unwrap_or(0.0);

    assert_eq!(parsed.intent, entry.intent);
    assert_eq!(parsed.model_used, entry.model_used);
    assert_eq!(parsed.commit_sha, entry.commit_sha);
    assert_eq!(parsed.room_id, entry.room_id);
    assert_eq!(parsed.alternatives.len(), 2);
    assert!(parsed.alternatives[0].selected);
    assert!(!parsed.alternatives[1].selected);
    assert_eq!(parsed.files_changed, entry.files_changed);
    assert_eq!(parsed.tests_passed, true);
    assert!((parsed_cost - 5.5).abs() < 0.01);
}

#[test]
fn test_from_markdown_minimal() {
    let md = "# Provenance: prov-123\n\n**Intent:** Test\n\n**Model:** llama-3\n";
    let entry = ProvenanceEntry::from_markdown(md).unwrap();
    assert_eq!(entry.id, "prov-123");
    assert_eq!(entry.intent, "Test");
    assert_eq!(entry.model_used, "llama-3");
}

#[test]
fn test_summary() {
    let mut entry = make_valid_entry();
    entry.link_commit("abc123");
    entry.conservation_cost = 3.5f64.to_bits();
    let sum = entry.summary(&cost(&entry));
    assert!(sum.contains("abc123"));
    assert!(sum.contains("Add authentication middleware"));
    assert!(sum.contains("gpt-4"));
}

#[test]
fn test_summary_no_commit() {
    let entry = make_valid_entry();
    let sum = entry.summary(&cost(&entry));
    assert!(sum.contains("no-commit"));
}

// --- Alternative tests ---

#[test]
fn test_alternative_new() {
    let alt = Alternative::new("JWT", "Standard approach", true);
    assert_eq!(alt.name, "JWT");
    assert_eq!(alt.reason, "Standard approach");
    assert!(alt.selected);
}

// --- ProvenanceLedger tests ---

#[test]
fn test_ledger_new() {
    let ledger = ProvenanceLedger::new();
    assert!(ledger.entries.is_empty());
    assert!(ledger.repo_path.is_none());
}

#[test]
fn test_ledger_add_valid() {
    let mut ledger = ProvenanceLedger::new();
    let entry = make_valid_entry();
    assert!(ledger.add(entry).is_ok());
    assert_eq!(ledger.count(), 1);
}

#[test]
fn test_ledger_add_invalid() {
    let mut ledger = ProvenanceLedger::new();
    let entry = ProvenanceEntry::new("", "gpt-4");
    assert!(ledger.add(entry).is_err());
    assert_eq!(ledger.count(), 0);
}

#[test]
fn test_ledger_latest() {
    let mut ledger = ProvenanceLedger::new();
    assert!(ledger.latest().is_none());
    let e1 = make_valid_entry();
    ledger.add(e1.clone()).unwrap();
    let mut e2 = make_valid_entry();
    e2.intent = "Second entry".to_string();
    ledger.add(e2).unwrap();
    assert_eq!(ledger.latest().unwrap().intent, "Second entry");
}

#[test]
fn test_ledger_for_commit() {
    let mut ledger = ProvenanceLedger::new();
    let mut e1 = make_valid_entry();
    e1.link_commit("sha1");
    let mut e2 = make_valid_entry();
    e2.link_commit("sha2");
    ledger.add(e1).unwrap();
    ledger.add(e2).unwrap();
    assert_eq!(
        ledger.for_commit("sha1").unwrap().commit_sha,
        Some("sha1".to_string())
    );
    assert!(ledger.for_commit("sha3").is_none());
}

#[test]
fn test_ledger_for_room() {
    let mut ledger = ProvenanceLedger::new();
    let mut e1 = make_valid_entry();
    e1.link_room("room-a");
    let mut e2 = make_valid_entry();
    e2.link_room("room-b");
    let mut e3 = make_valid_entry();
    e3.link_room("room-a");
    ledger.add(e1).unwrap();
    ledger.add(e2).unwrap();
    ledger.add(e3).unwrap();
    assert_eq!(ledger.for_room("room-a").len(), 2);
    assert_eq!(ledger.for_room("room-b").len(), 1);
    assert!(ledger.for_room("room-c").is_empty());
}

#[test]
fn test_ledger_since() {
    let mut ledger = ProvenanceLedger::new();
    let mut e1 = make_valid_entry();
    e1.timestamp = 100;
    let mut e2 = make_valid_entry();
    e2.timestamp = 200;
    let mut e3 = make_valid_entry();
    e3.timestamp = 300;
    ledger.add(e1).unwrap();
    ledger.add(e2).unwrap();
    ledger.add(e3).unwrap();
    assert_eq!(ledger.since(200).len(), 2);
    assert_eq!(ledger.since(0).len(), 3);
    assert!(ledger.since(400).is_empty());
}

#[test]
fn test_ledger_between() {
    let mut ledger = ProvenanceLedger::new();
    let mut e1 = make_valid_entry();
    e1.timestamp = 100;
    let mut e2 = make_valid_entry();
    e2.timestamp = 200;
    let mut e3 = make_valid_entry();
    e3.timestamp = 300;
    ledger.add(e1).unwrap();
    ledger.add(e2).unwrap();
    ledger.add(e3).unwrap();
    assert_eq!(ledger.between(100, 200).len(), 2);
    assert_eq!(ledger.between(150, 250).len(), 1);
}

#[test]
fn test_ledger_search() {
    let mut ledger = ProvenanceLedger::new();
    let mut e1 = make_valid_entry();
    e1.intent = "Add authentication".to_string();
    e1.set_tradeoffs("Security vs complexity");
    let mut e2 = make_valid_entry();
    e2.intent = "Fix logging bug".to_string();
    e2.set_tradeoffs("Performance impact");
    ledger.add(e1).unwrap();
    ledger.add(e2).unwrap();
    assert_eq!(ledger.search("authentication").len(), 1);
    assert_eq!(ledger.search("performance").len(), 1);
    assert_eq!(ledger.search("logging").len(), 1);
    assert!(ledger.search("nonexistent").is_empty());
}

#[test]
fn test_ledger_search_case_insensitive() {
    let mut ledger = ProvenanceLedger::new();
    let mut e = make_valid_entry();
    e.intent = "Add Authentication".to_string();
    ledger.add(e).unwrap();
    assert_eq!(ledger.search("authentication").len(), 1);
    assert_eq!(ledger.search("AUTHENTICATION").len(), 1);
}

#[test]
fn test_ledger_count() {
    let mut ledger = ProvenanceLedger::new();
    assert_eq!(ledger.count(), 0);
    ledger.add(make_valid_entry()).unwrap();
    assert_eq!(ledger.count(), 1);
    ledger.add(make_valid_entry()).unwrap();
    assert_eq!(ledger.count(), 2);
}

#[test]
fn test_ledger_render_full() {
    let mut ledger = ProvenanceLedger::new();
    ledger.add(make_valid_entry()).unwrap();
    let md = ledger.render_full(&costs(&ledger));
    assert!(md.contains("Provenance Ledger"));
    assert!(md.contains("---"));
}

#[test]
fn test_ledger_render_since() {
    let mut ledger = ProvenanceLedger::new();
    let mut e1 = make_valid_entry();
    e1.timestamp = 100;
    let mut e2 = make_valid_entry();
    e2.timestamp = 200;
    ledger.add(e1).unwrap();
    ledger.add(e2).unwrap();
    let md = ledger.render_since(200, &costs(&ledger));
    assert!(md.contains("Provenance Ledger"));
}

#[test]
fn test_ledger_stats() {
    let mut ledger = ProvenanceLedger::new();
    let mut e1 = make_valid_entry();
    e1.model_used = "gpt-4".to_string();
    e1.link_room("room-a");
    e1.conservation_cost = 10.0f64.to_bits();
    e1.set_tests_passed(true);

    let mut e2 = make_valid_entry();
    e2.model_used = "llama-3".to_string();
    e2.link_room("room-b");
    e2.conservation_cost = 5.0f64.to_bits();
    e2.set_tests_passed(false);

    ledger.add(e1).unwrap();
    ledger.add(e2).unwrap();

    let stats = ledger.stats();
    let total_cost: f64 = ledger.entries.iter().map(|e| f64::from_bits(e.conservation_cost)).sum();
    let tests_pass_rate = stats.tests_passed as f64 / stats.total_entries as f64;
    let avg_alternatives = stats.total_alternatives as f64 / stats.total_entries as f64;
    assert_eq!(stats.total_entries, 2);
    assert!(stats.unique_models.contains(&"gpt-4".to_string()));
    assert!(stats.unique_models.contains(&"llama-3".to_string()));
    assert_eq!(stats.unique_rooms.len(), 2);
    assert!((total_cost - 15.0).abs() < 0.01);
    assert!((tests_pass_rate - 0.5).abs() < 0.01);
    assert!((avg_alternatives - 2.0).abs() < 0.01);
}

#[test]
fn test_ledger_stats_empty() {
    let ledger = ProvenanceLedger::new();
    let stats = ledger.stats();
    assert_eq!(stats.total_entries, 0);
    assert!(stats.unique_models.is_empty());
    assert_eq!(stats.tests_passed, 0);
    assert_eq!(stats.total_alternatives, 0);
}

// --- ProvenanceHook tests ---

#[test]
fn test_hook_validate_commit_found() {
    let mut ledger = ProvenanceLedger::new();
    let mut entry = make_valid_entry();
    entry.link_files(&["src/auth.rs", "src/lib.rs"]);
    ledger.add(entry).unwrap();
    let hook = ProvenanceHook::new(ledger);
    let result = hook.validate_commit(&["src/auth.rs"]);
    assert!(result.is_ok());
    assert!(result.unwrap().is_some());
}

#[test]
fn test_hook_validate_commit_not_found() {
    let mut ledger = ProvenanceLedger::new();
    let mut entry = make_valid_entry();
    entry.link_files(&["src/other.rs"]);
    ledger.add(entry).unwrap();
    let hook = ProvenanceHook::new(ledger);
    let result = hook.validate_commit(&["src/auth.rs"]);
    assert!(matches!(result, Err(HookError::NoEntryFound)));
}

#[test]
fn test_hook_validate_commit_empty_files() {
    let ledger = ProvenanceLedger::new();
    let hook = ProvenanceHook::new(ledger);
    let result = hook.validate_commit(&[]);
    assert!(matches!(result, Err(HookError::NotStaged)));
}

#[test]
fn test_hook_strict_mode_valid() {
    let mut ledger = ProvenanceLedger::new();
    let mut entry = make_valid_entry();
    entry.link_files(&["src/main.rs"]);
    ledger.add(entry).unwrap();
    let mut hook = ProvenanceHook::new(ledger);
    hook.strict = true;
    let result = hook.validate_commit(&["src/main.rs"]);
    assert!(result.is_ok());
}

#[test]
fn test_hook_strict_mode_invalid() {
    let mut ledger = ProvenanceLedger::new();
    let mut entry = ProvenanceEntry::new("Test", "gpt-4");
    entry.add_alternative("A", "B", true);
    entry.set_tradeoffs("T");
    entry.link_files(&["src/main.rs"]);
    ledger.add(entry).unwrap();
    let mut hook = ProvenanceHook::new(ledger);
    hook.strict = true;
    // The entry is valid, so this should pass
    let result = hook.validate_commit(&["src/main.rs"]);
    assert!(result.is_ok());
}

#[test]
fn test_hook_enforce_valid() {
    let entry = make_valid_entry();
    let hook = ProvenanceHook::new(ProvenanceLedger::new());
    assert!(hook.enforce(&entry).is_ok());
}

#[test]
fn test_hook_enforce_missing_intent() {
    let mut entry = ProvenanceEntry::new("", "gpt-4");
    entry.add_alternative("A", "B", true);
    entry.set_tradeoffs("T");
    entry.link_files(&["src/main.rs"]);
    let hook = ProvenanceHook::new(ProvenanceLedger::new());
    let result = hook.enforce(&entry);
    assert!(result.is_err());
}

#[test]
fn test_hook_enforce_no_selected_alternative() {
    let mut entry = ProvenanceEntry::new("Test", "gpt-4");
    entry.add_alternative("A", "B", false);
    entry.set_tradeoffs("T");
    entry.link_files(&["src/main.rs"]);
    let hook = ProvenanceHook::new(ProvenanceLedger::new());
    let result = hook.enforce(&entry);
    assert!(result.is_err());
    assert!(result.unwrap_err().iter().any(|e| e.contains("selected")));
}

#[test]
fn test_hook_enforce_no_files() {
    let mut entry = ProvenanceEntry::new("Test", "gpt-4");
    entry.add_alternative("A", "B", true);
    entry.set_tradeoffs("T");
    let hook = ProvenanceHook::new(ProvenanceLedger::new());
    let result = hook.enforce(&entry);
    assert!(result.is_err());
    assert!(result.unwrap_err().iter().any(|e| e.contains("file")));
}

// --- Display tests ---

#[test]
fn test_provenance_error_display() {
    let err = ProvenanceError::ParseError("bad input".to_string());
    assert!(err.to_string().contains("bad input"));
}

#[test]
fn test_hook_error_display() {
    let err = HookError::NoEntryFound;
    assert!(err.to_string().contains("No provenance entry"));
}

#[test]
fn test_ledger_default() {
    let ledger = ProvenanceLedger::default();
    assert!(ledger.entries.is_empty());
}
