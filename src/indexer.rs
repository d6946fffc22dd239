use std::collections::VecDeque;
use vstd::prelude::*;

use crate::ast_index::{guid_clash_reason, guids_named, guids_under, AstIndex, SymbolInstance};
use crate::ast_index_service::AstEvent;

verus! {

/// How many documents failed for one reason.
pub struct ErrorCount {
    pub reason: String,
    pub count: u64,
}

pub open spec fn has_reason(s: Seq<ErrorCount>, r: Seq<char>) -> bool {
    exists|i: int| 0 <= i < s.len() && s[i].reason@ == r
}

/// The count recorded for reason `r` (0 when there is none).
pub open spec fn count_of(s: Seq<ErrorCount>, r: Seq<char>) -> nat {
    if has_reason(s, r) {
        s[choose|i: int| 0 <= i < s.len() && s[i].reason@ == r].count as nat
    } else {
        0
    }
}

/// Failures of one batch, counted by reason.
pub struct ErrorHistogram {
    pub entries: Vec<ErrorCount>,
}

impl ErrorHistogram {
    pub open spec fn wf(&self) -> bool {
        &&& forall|i: int, j: int|
            0 <= i < self.entries@.len() && 0 <= j < self.entries@.len() && i != j
                ==> self.entries@[i].reason@ != self.entries@[j].reason@
        &&& forall|i: int| 0 <= i < self.entries@.len() ==> self.entries@[i].count > 0
    }

    pub open spec fn count(&self, r: Seq<char>) -> nat {
        count_of(self.entries@, r)
    }

    pub fn new() -> (h: Self)
        ensures
            h.wf(),
            forall|r: Seq<char>| h.count(r) == 0,
    {
        ErrorHistogram { entries: Vec::new() }
    }

    pub fn is_empty(&self) -> (r: bool)
        requires
            self.wf(),
        ensures
            r <==> forall|q: Seq<char>| self.count(q) == 0,
    {
        if self.entries.len() == 0 {
            true
        } else {
            let ghost q = self.entries@[0].reason@;
            assert(has_reason(self.entries@, q));
            let ghost i = choose|i: int| 0 <= i < self.entries@.len() && self.entries@[i].reason@ == q;
            assert(i == 0);
            assert(self.count(q) > 0);
            false
        }
    }

    /// Counts one more failure for `reason` (the count stops at `u64::MAX`).
    pub fn note(&mut self, reason: String)
        requires
            old(self).wf(),
        ensures
            final(self).wf(),
            final(self).count(reason@) == if old(self).count(reason@) < u64::MAX {
                old(self).count(reason@) + 1
            } else {
                old(self).count(reason@)
            },
            forall|q: Seq<char>| q != reason@ ==> final(self).count(q) == old(self).count(q),
    {
        let ghost s0 = self.entries@;
        let n = self.entries.len();
        let mut i: usize = 0;
        let mut found = false;
        while i < n && !found
            invariant
                self.entries@ == s0,
                n == s0.len(),
                self.wf(),
                0 <= i <= n,
                found ==> i < n && s0[i as int].reason@ == reason@,
                forall|k: int| 0 <= k < i ==> s0[k].reason@ != reason@,
            decreases n - i + (if found { 0int } else { 1int }),
        {
            if self.entries[i].reason == reason {
                found = true;
            } else {
                i += 1;
            }
        }
        if found {
            proof {
                assert(has_reason(s0, reason@));
                let j = choose|j: int| 0 <= j < s0.len() && s0[j].reason@ == reason@;
                assert(j == i);
            }
            let c = self.entries[i].count;
            let c2 = if c < u64::MAX { c + 1 } else { c };
            self.entries.set(i, ErrorCount { reason, count: c2 });
            let ghost s1 = self.entries@;
            assert forall|q: Seq<char>| q != s1[i as int].reason@ implies count_of(s1, q) == count_of(s0, q) by {
                if has_reason(s0, q) {
                    let a = choose|a: int| 0 <= a < s0.len() && s0[a].reason@ == q;
                    assert(s1[a].reason@ == q);
                    let b = choose|b: int| 0 <= b < s1.len() && s1[b].reason@ == q;
                    assert(s0[b].reason@ == q);
                }
                if has_reason(s1, q) {
                    let b = choose|b: int| 0 <= b < s1.len() && s1[b].reason@ == q;
                    assert(s0[b].reason@ == q);
                }
            }
            assert(has_reason(s1, s1[i as int].reason@));
            let ghost j = choose|j: int| 0 <= j < s1.len() && s1[j].reason@ == s1[i as int].reason@;
            assert(j == i);
        } else {
            self.entries.push(ErrorCount { reason, count: 1 });
            let ghost s1 = self.entries@;
            assert forall|q: Seq<char>| q != s1[n as int].reason@ implies count_of(s1, q) == count_of(s0, q) by {
                if has_reason(s0, q) {
                    let a = choose|a: int| 0 <= a < s0.len() && s0[a].reason@ == q;
                    assert(s1[a].reason@ == q);
                    let b = choose|b: int| 0 <= b < s1.len() && s1[b].reason@ == q;
                    assert(s0[b].reason@ == q);
                }
                if has_reason(s1, q) {
                    let b = choose|b: int| 0 <= b < s1.len() && s1[b].reason@ == q;
                    assert(s0[b].reason@ == q);
                }
            }
            assert(has_reason(s1, s1[n as int].reason@));
            let ghost j = choose|j: int| 0 <= j < s1.len() && s1[j].reason@ == s1[n as int].reason@;
            assert(j == n);
        }
    }
}

/// The counters and flags of the parsing task between two batches.
pub struct IndexerState {
    /// The summary of the last busy period has been given.
    pub reported_stats: bool,
    /// Documents read since the last summary.
    pub parsed_cnt: u64,
    /// Symbols parsed since the last summary.
    pub symbols_cnt: u64,
    /// The last batch ended in a reset: more data is expected, so the task
    /// neither reports nor lets resolution start.
    pub hold_on_after_reset: bool,
}

/// What the parsing task does on a tick with nothing to parse.
pub struct IdleStep {
    /// Give the summary of the busy period that just ended.
    pub report: bool,
    pub parsed_cnt: u64,
    pub symbols_cnt: u64,
    /// Clear the hold-off flag, so that resolution may start.
    pub release_hold_off: bool,
}

pub open spec fn idle_state(st: IndexerState) -> IndexerState {
    if st.hold_on_after_reset || st.reported_stats {
        st
    } else {
        IndexerState { reported_stats: true, parsed_cnt: 0, symbols_cnt: 0, ..st }
    }
}

pub open spec fn idle_step(st: IndexerState) -> IdleStep {
    IdleStep {
        report: !st.hold_on_after_reset && !st.reported_stats,
        parsed_cnt: st.parsed_cnt,
        symbols_cnt: st.symbols_cnt,
        release_hold_off: !st.hold_on_after_reset,
    }
}

/// What the resolution task does on one tick.
pub enum ResolverAction {
    /// Ingestion is active: poll again shortly.
    HoldOff,
    /// Nothing changed since the last pass: poll again later.
    UpToDate,
    /// Run the resolution passes over a snapshot of the symbols.
    Resolve,
}

pub open spec fn resolver_action(hold_off: bool, need_update: bool) -> ResolverAction {
    if hold_off {
        ResolverAction::HoldOff
    } else if need_update {
        ResolverAction::Resolve
    } else {
        ResolverAction::UpToDate
    }
}

pub open spec fn saturating_inc(x: u64, by: nat) -> u64 {
    if x + by <= u64::MAX {
        (x + by) as u64
    } else {
        u64::MAX
    }
}

impl IndexerState {
    pub fn new() -> (r: Self)
        ensures
            !r.reported_stats,
            r.parsed_cnt == 0,
            r.symbols_cnt == 0,
            !r.hold_on_after_reset,
    {
        IndexerState { reported_stats: false, parsed_cnt: 0, symbols_cnt: 0, hold_on_after_reset: false }
    }

    /// A tick with an empty queue: report once per busy period, zero the
    /// counters, and release the hold-off unless a reset is waiting for data.
    pub fn on_idle(&mut self) -> (r: IdleStep)
        ensures
            *final(self) == idle_state(*old(self)),
            r == idle_step(*old(self)),
    {
        let r = IdleStep {
            report: !self.hold_on_after_reset && !self.reported_stats,
            parsed_cnt: self.parsed_cnt,
            symbols_cnt: self.symbols_cnt,
            release_hold_off: !self.hold_on_after_reset,
        };
        if !self.hold_on_after_reset && !self.reported_stats {
            self.parsed_cnt = 0;
            self.symbols_cnt = 0;
            self.reported_stats = true;
        }
        r
    }

    /// The start of a non-empty batch: the caller sets the hold-off flag.
    /// Returns whether the clock of the busy period restarts.
    pub fn on_batch(&mut self) -> (restart_clock: bool)
        ensures
            !final(self).hold_on_after_reset,
            !final(self).reported_stats,
            final(self).parsed_cnt == old(self).parsed_cnt,
            final(self).symbols_cnt == old(self).symbols_cnt,
            restart_clock == (old(self).parsed_cnt == 0),
    {
        self.hold_on_after_reset = false;
        self.reported_stats = false;
        self.parsed_cnt == 0
    }

    /// A document of the batch was read.
    pub fn on_read(&mut self)
        ensures
            *final(self) == (IndexerState { parsed_cnt: saturating_inc(old(self).parsed_cnt, 1), ..*old(self) }),
    {
        if self.parsed_cnt < u64::MAX {
            self.parsed_cnt = self.parsed_cnt + 1;
        }
    }

    /// A reset event: the whole index is dropped, and the task holds on until
    /// data follows.
    pub fn on_reset(&mut self, index: &mut AstIndex)
        ensures
            final(index).wf(),
            final(index).spec_files().len() == 0,
            final(index).spec_dirty(),
            *final(self) == (IndexerState { hold_on_after_reset: true, ..*old(self) }),
    {
        index.clear_index();
        self.hold_on_after_reset = true;
    }

    /// Stores what the parser made of one document. Symbols replace those the
    /// file had and mark the index changed; a parse error, or symbols that
    /// the index refuses, are counted by reason instead.
    pub fn index_parsed(
        &mut self,
        index: &mut AstIndex,
        errors: &mut ErrorHistogram,
        doc_path: &String,
        parsed: Result<Vec<SymbolInstance>, String>,
    )
        requires
            old(index).wf(),
            old(errors).wf(),
        ensures
            final(index).wf(),
            final(errors).wf(),
            final(self).parsed_cnt == old(self).parsed_cnt,
            final(self).reported_stats == old(self).reported_stats,
            final(self).hold_on_after_reset == old(self).hold_on_after_reset,
            ({
                let failed = match parsed {
                    Ok(symbols) => if old(index).accepts(doc_path@, symbols@) {
                        None
                    } else {
                        Some(guid_clash_reason())
                    },
                    Err(e) => Some(e@),
                };
                &&& match parsed {
                    Ok(symbols) => final(self).symbols_cnt == saturating_inc(
                        old(self).symbols_cnt,
                        symbols@.len(),
                    ),
                    Err(_) => final(self).symbols_cnt == old(self).symbols_cnt,
                }
                &&& match failed {
                    None => {
                        let symbols = parsed->Ok_0@;
                        &&& final(index).has_file(doc_path@)
                        &&& final(index).symbols_of(doc_path@) == symbols
                        &&& forall|q: Seq<char>|
                            q != doc_path@ ==> final(index).has_file(q) == old(index).has_file(q)
                                && final(index).symbols_of(q) == old(index).symbols_of(q)
                        &&& final(index).spec_dirty()
                        &&& *final(errors) == *old(errors)
                    },
                    Some(reason) => {
                        &&& *final(index) == *old(index)
                        &&& final(errors).count(reason) == saturating_inc(
                            old(errors).count(reason) as u64,
                            1,
                        )
                        &&& forall|q: Seq<char>|
                            q != reason ==> final(errors).count(q) == old(errors).count(q)
                    },
                }
            }),
    {
        match parsed {
            Ok(symbols) => {
                let n = symbols.len();
                if n as u64 <= u64::MAX - self.symbols_cnt {
                    self.symbols_cnt = self.symbols_cnt + n as u64;
                } else {
                    self.symbols_cnt = u64::MAX;
                }
                match index.add_or_update_symbols_index(doc_path, symbols, true) {
                    Ok(()) => {},
                    Err(e) => {
                        errors.note(e);
                    },
                }
            },
            Err(e) => {
                errors.note(e);
            },
        }
    }
}

/// One tick of the resolution task, from the hold-off flag and the index's
/// change flag.
pub fn resolver_decision(hold_off: bool, need_update: bool) -> (r: ResolverAction)
    ensures
        r == resolver_action(hold_off, need_update),
{
    if hold_off {
        ResolverAction::HoldOff
    } else if need_update {
        ResolverAction::Resolve
    } else {
        ResolverAction::UpToDate
    }
}

/// The end of a resolution pass over `symbols`: the index of symbols by name
/// is rebuilt from them, and the store is marked up to date.
pub fn finish_resolve(index: &mut AstIndex, symbols: &Vec<SymbolInstance>)
    requires
        old(index).wf(),
    ensures
        final(index).wf(),
        final(index).spec_files() == old(index).spec_files(),
        forall|n: Seq<char>| guids_under(final(index).spec_by_name(), n) == guids_named(symbols@, n),
        !final(index).spec_dirty(),
{
    index.create_extra_indexes(symbols);
    index.set_updated();
}

/// Routes an event from a producer: to the immediate queue when `force`
/// holds, else to the delayed queue, where the coalescer will see it. A
/// forced reset is appended like any other event.
pub fn enqueue_event(
    delayed: &mut VecDeque<AstEvent>,
    immediate: &mut VecDeque<AstEvent>,
    event: AstEvent,
    force: bool,
)
    ensures
        force ==> final(immediate)@ == old(immediate)@.push(event) && final(delayed)@ == old(delayed)@,
        !force ==> final(delayed)@ == old(delayed)@.push(event) && final(immediate)@ == old(immediate)@,
{
    if force {
        immediate.push_back(event);
    } else {
        delayed.push_back(event);
    }
}

/// Liveness once ingestion is quiet: unless the last batch ended in a reset,
/// the parsing task's next idle tick releases the hold-off, and the
/// resolution task's next tick then runs a pass exactly when the index has
/// changed; a finished pass leaves the index up to date.
pub proof fn lemma_quiet_pipeline_resolves(st: IndexerState, need_update: bool)
    requires
        !st.hold_on_after_reset,
    ensures
        idle_step(st).release_hold_off,
        !idle_state(st).hold_on_after_reset,
        idle_step(idle_state(st)).release_hold_off,
        need_update ==> resolver_action(false, need_update) == ResolverAction::Resolve,
        !need_update ==> resolver_action(false, need_update) == ResolverAction::UpToDate,
{
}

} // verus!
