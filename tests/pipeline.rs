use std::collections::VecDeque;

use refact_lsp::ast_index::{AstIndex, SymbolInstance};
use refact_lsp::ast_index_service::{
    AstEvent, AstEventType, CooldownOutcome, CooldownQueue, Document, MAX_BATCH,
};
use refact_lsp::indexer::{
    enqueue_event, finish_resolve, resolver_decision, ErrorHistogram, IndexerState, ResolverAction,
};

const COOLDOWN_MS: u64 = 2000;

fn doc(path: &str) -> Document {
    Document { path: path.to_string(), text: None }
}

fn add_at(paths: &[&str], ts: u64) -> AstEvent {
    AstEvent { docs: paths.iter().map(|p| doc(p)).collect(), typ: AstEventType::Add, posted_ts: ts }
}

fn reset_at(ts: u64) -> AstEvent {
    AstEvent { docs: Vec::new(), typ: AstEventType::AstReset, posted_ts: ts }
}

fn sym(guid: u64, name: &str, path: &str) -> SymbolInstance {
    SymbolInstance { guid, name: name.to_string(), file_path: path.to_string() }
}

fn paths_of(e: &AstEvent) -> Vec<String> {
    e.docs.iter().map(|d| d.path.clone()).collect()
}

#[test]
fn basic_add_waits_for_cooldown() {
    let mut cc = CooldownQueue::new();
    let mut delayed = VecDeque::new();
    let mut immediate = VecDeque::new();
    delayed.push_back(add_at(&["foo.py"], 0));
    assert!(matches!(cc.tick(&mut delayed, &mut immediate, 1000, COOLDOWN_MS), CooldownOutcome::Idle));
    assert!(delayed.is_empty());
    assert!(immediate.is_empty());
    assert!(matches!(cc.tick(&mut delayed, &mut immediate, 2000, COOLDOWN_MS), CooldownOutcome::Launched));
    assert_eq!(immediate.len(), 1);
    let e = &immediate[0];
    assert!(matches!(e.typ, AstEventType::Add));
    assert_eq!(e.posted_ts, 2000);
    assert_eq!(paths_of(e), vec!["foo.py".to_string()]);
    assert!(e.docs[0].text.is_none());
    assert!(cc.latest.is_empty());
    assert!(matches!(cc.tick(&mut delayed, &mut immediate, 5000, COOLDOWN_MS), CooldownOutcome::Idle));
    assert_eq!(immediate.len(), 1);
}

#[test]
fn burst_is_coalesced_into_one_parse() {
    let mut cc = CooldownQueue::new();
    let mut delayed = VecDeque::new();
    let mut immediate = VecDeque::new();
    for i in 0..50u64 {
        delayed.push_back(add_at(&["foo.py"], i * 10));
    }
    assert!(matches!(cc.tick(&mut delayed, &mut immediate, 600, COOLDOWN_MS), CooldownOutcome::Idle));
    assert_eq!(cc.latest.len(), 1);
    assert_eq!(cc.latest[0].posted_ts, 490);
    // the newest event restarts the quiet period
    assert!(matches!(cc.tick(&mut delayed, &mut immediate, 2400, COOLDOWN_MS), CooldownOutcome::Idle));
    assert!(matches!(cc.tick(&mut delayed, &mut immediate, 2490, COOLDOWN_MS), CooldownOutcome::Launched));
    assert_eq!(immediate.len(), 1);
    assert_eq!(paths_of(&immediate[0]), vec!["foo.py".to_string()]);
    assert!(matches!(cc.tick(&mut delayed, &mut immediate, 9000, COOLDOWN_MS), CooldownOutcome::Idle));
    assert_eq!(immediate.len(), 1);
}

#[test]
fn batches_hold_at_most_32_docs() {
    let names: Vec<String> = (0..100).map(|i| format!("f{}", i)).collect();
    let refs: Vec<&str> = names.iter().map(|s| s.as_str()).collect();
    let mut cc = CooldownQueue::new();
    let mut delayed = VecDeque::new();
    let mut immediate = VecDeque::new();
    delayed.push_back(add_at(&refs, 0));
    let mut sizes = Vec::new();
    loop {
        match cc.tick(&mut delayed, &mut immediate, 3000, COOLDOWN_MS) {
            CooldownOutcome::Launched => sizes.push(immediate.back().unwrap().docs.len()),
            _ => break,
        }
    }
    assert_eq!(MAX_BATCH, 32);
    assert_eq!(sizes, vec![32, 32, 32, 4]);
    let first = paths_of(&immediate[0]);
    assert_eq!(first[0], "f0");
    assert_eq!(first[31], "f31");
    let mut all: Vec<String> = immediate.iter().flat_map(|e| paths_of(e)).collect();
    all.sort();
    let mut expected = names.clone();
    expected.sort();
    assert_eq!(all, expected);
}

#[test]
fn delayed_reset_wins() {
    let mut cc = CooldownQueue::new();
    let mut delayed = VecDeque::new();
    let mut immediate = VecDeque::new();
    immediate.push_back(add_at(&["old.py"], 0));
    delayed.push_back(add_at(&["a.py"], 0));
    delayed.push_back(reset_at(50));
    delayed.push_back(add_at(&["b.py"], 100));
    assert!(matches!(cc.tick(&mut delayed, &mut immediate, 150, COOLDOWN_MS), CooldownOutcome::Reset));
    assert_eq!(immediate.len(), 1);
    assert!(matches!(immediate[0].typ, AstEventType::AstReset));
    assert!(immediate[0].docs.is_empty());
    assert!(cc.latest.is_empty());
    assert_eq!(delayed.len(), 1);
    assert_eq!(paths_of(&delayed[0]), vec!["b.py".to_string()]);
    assert!(matches!(cc.tick(&mut delayed, &mut immediate, 200, COOLDOWN_MS), CooldownOutcome::Idle));
    assert!(matches!(cc.tick(&mut delayed, &mut immediate, 2100, COOLDOWN_MS), CooldownOutcome::Launched));
    assert_eq!(immediate.len(), 2);
    assert_eq!(paths_of(&immediate[1]), vec!["b.py".to_string()]);
}

#[test]
fn forced_event_bypasses_cooldown() {
    let mut delayed = VecDeque::new();
    let mut immediate = VecDeque::new();
    enqueue_event(&mut delayed, &mut immediate, add_at(&["pending.py"], 0), false);
    enqueue_event(&mut delayed, &mut immediate, add_at(&["x.py"], 10), true);
    assert_eq!(delayed.len(), 1);
    assert_eq!(immediate.len(), 1);
    assert_eq!(paths_of(&immediate[0]), vec!["x.py".to_string()]);
    let mut cc = CooldownQueue::new();
    assert!(matches!(cc.tick(&mut delayed, &mut immediate, 2000, COOLDOWN_MS), CooldownOutcome::Launched));
    assert_eq!(paths_of(&immediate[1]), vec!["pending.py".to_string()]);
}

#[test]
fn forced_reset_keeps_scheduled_work() {
    let mut delayed = VecDeque::new();
    let mut immediate = VecDeque::new();
    enqueue_event(&mut delayed, &mut immediate, add_at(&["x.py"], 0), true);
    enqueue_event(&mut delayed, &mut immediate, reset_at(5), true);
    assert_eq!(immediate.len(), 2);
    assert!(matches!(immediate[1].typ, AstEventType::AstReset));
}

#[test]
fn parse_failure_is_isolated() {
    let mut index = AstIndex::new();
    let mut errors = ErrorHistogram::new();
    let mut st = IndexerState::new();
    assert!(st.on_batch());
    st.index_parsed(&mut index, &mut errors, &"good.py".to_string(), Ok(vec![sym(1, "f", "good.py")]));
    st.index_parsed(&mut index, &mut errors, &"broken.xyz".to_string(), Err("unsupported extension .xyz".to_string()));
    st.index_parsed(&mut index, &mut errors, &"good2.py".to_string(), Ok(vec![sym(2, "g", "good2.py"), sym(3, "h", "good2.py")]));
    assert_eq!(st.symbols_cnt, 3);
    assert!(index.need_update());
    let snap = index.symbols_snapshot();
    let guids: Vec<u64> = snap.iter().map(|s| s.guid).collect();
    assert_eq!(guids, vec![1, 2, 3]);
    assert!(!errors.is_empty());
    assert_eq!(errors.entries.len(), 1);
    assert_eq!(errors.entries[0].reason, "unsupported extension .xyz");
    assert_eq!(errors.entries[0].count, 1);
}

#[test]
fn add_replaces_file_symbols() {
    let mut index = AstIndex::new();
    assert!(!index.need_update());
    let p = "a.py".to_string();
    assert!(index.add_or_update_symbols_index(&p, vec![sym(1, "x", "a.py"), sym(2, "y", "a.py")], true).is_ok());
    assert!(index.add_or_update_symbols_index(&p, vec![sym(2, "y", "a.py")], true).is_ok());
    let guids: Vec<u64> = index.symbols_snapshot().iter().map(|s| s.guid).collect();
    assert_eq!(guids, vec![2]);
}

#[test]
fn clashing_guids_are_refused() {
    let mut index = AstIndex::new();
    let a = "a.py".to_string();
    let b = "b.py".to_string();
    assert!(index.add_or_update_symbols_index(&a, vec![sym(7, "x", "a.py")], false).is_ok());
    assert!(!index.need_update());
    assert_eq!(index.add_or_update_symbols_index(&b, vec![sym(7, "z", "b.py")], true), Err("guid clash".to_string()));
    assert_eq!(index.add_or_update_symbols_index(&b, vec![sym(8, "p", "b.py"), sym(8, "q", "b.py")], true), Err("guid clash".to_string()));
    assert!(!index.need_update());
    assert_eq!(index.symbols_snapshot().len(), 1);
}

#[test]
fn index_error_is_counted() {
    let mut index = AstIndex::new();
    let mut errors = ErrorHistogram::new();
    let mut st = IndexerState::new();
    st.index_parsed(&mut index, &mut errors, &"a.py".to_string(), Ok(vec![sym(1, "f", "a.py")]));
    st.index_parsed(&mut index, &mut errors, &"b.py".to_string(), Ok(vec![sym(1, "g", "b.py")]));
    st.index_parsed(&mut index, &mut errors, &"c.py".to_string(), Ok(vec![sym(1, "h", "c.py")]));
    assert_eq!(errors.entries.len(), 1);
    assert_eq!(errors.entries[0].reason, "guid clash");
    assert_eq!(errors.entries[0].count, 2);
}

#[test]
fn reset_clears_and_holds_on() {
    let mut index = AstIndex::new();
    let p = "a.py".to_string();
    assert!(index.add_or_update_symbols_index(&p, vec![sym(1, "x", "a.py")], true).is_ok());
    index.set_updated();
    let mut st = IndexerState::new();
    st.on_batch();
    st.on_reset(&mut index);
    assert!(index.symbols_snapshot().is_empty());
    assert!(index.need_update());
    let step = st.on_idle();
    assert!(!step.report);
    assert!(!step.release_hold_off);
    assert!(st.hold_on_after_reset);
    assert!(st.on_batch());
    let step = st.on_idle();
    assert!(step.release_hold_off);
    assert!(step.report);
}

#[test]
fn idle_reports_once_and_releases() {
    let mut st = IndexerState::new();
    st.on_batch();
    st.on_read();
    st.on_read();
    let step = st.on_idle();
    assert!(step.report);
    assert_eq!(step.parsed_cnt, 2);
    assert!(step.release_hold_off);
    assert_eq!(st.parsed_cnt, 0);
    let step = st.on_idle();
    assert!(!step.report);
    assert!(step.release_hold_off);
}

#[test]
fn quiet_pipeline_reaches_updated() {
    let mut index = AstIndex::new();
    let p = "foo.py".to_string();
    let mut st = IndexerState::new();
    st.on_batch();
    assert!(index.add_or_update_symbols_index(&p, vec![sym(1, "x", "foo.py")], true).is_ok());
    assert!(matches!(resolver_decision(true, index.need_update()), ResolverAction::HoldOff));
    let step = st.on_idle();
    let hold_off = !step.release_hold_off;
    assert!(matches!(resolver_decision(hold_off, index.need_update()), ResolverAction::Resolve));
    let symbols = index.symbols_snapshot();
    finish_resolve(&mut index, &symbols);
    assert!(!index.need_update());
    assert_eq!(index.guids_by_name(&"x".to_string()), vec![1]);
    assert!(matches!(resolver_decision(hold_off, index.need_update()), ResolverAction::UpToDate));
    assert_eq!(index.symbols_snapshot().len(), 1);
}

#[test]
fn add_docs_builds_add_event() {
    let e = AstEvent::add_docs(vec![doc("a.py"), doc("b.py")]);
    assert!(matches!(e.typ, AstEventType::Add));
    assert_eq!(paths_of(&e), vec!["a.py".to_string(), "b.py".to_string()]);
    assert!(e.posted_ts > 0);
}

#[test]
fn extra_index_groups_guids_by_name() {
    let mut index = AstIndex::new();
    let a = "a.py".to_string();
    let b = "b.py".to_string();
    assert!(index.add_or_update_symbols_index(&a, vec![sym(1, "run", "a.py"), sym(2, "main", "a.py")], true).is_ok());
    assert!(index.add_or_update_symbols_index(&b, vec![sym(3, "run", "b.py")], true).is_ok());
    assert!(index.guids_by_name(&"run".to_string()).is_empty());
    let symbols = index.symbols_snapshot();
    index.create_extra_indexes(&symbols);
    assert!(index.need_update());
    assert_eq!(index.guids_by_name(&"run".to_string()), vec![1, 3]);
    assert_eq!(index.guids_by_name(&"main".to_string()), vec![2]);
    assert!(index.guids_by_name(&"absent".to_string()).is_empty());
    index.clear_index();
    assert!(index.guids_by_name(&"run".to_string()).is_empty());
}

#[test]
fn documents_compare_by_path() {
    let a = Document { path: "a.py".to_string(), text: Some("x".to_string()) };
    let b = Document { path: "a.py".to_string(), text: None };
    let c = Document { path: "c.py".to_string(), text: None };
    assert!(a == b);
    assert!(a != c);
}
