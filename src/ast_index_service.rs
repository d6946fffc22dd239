use std::collections::VecDeque;
use vstd::prelude::*;

verus! {

/// A file of the workspace, with its text when the caller already holds it.
pub struct Document {
    pub path: String,
    pub text: Option<String>,
}

/// Documents are the same when their paths are.
impl PartialEq for Document {
    fn eq(&self, other: &Document) -> (r: bool)
        ensures
            r == (self.path@ == other.path@),
    {
        self.path == other.path
    }
}

impl vstd::std_specs::cmp::PartialEqSpecImpl for Document {
    open spec fn obeys_eq_spec() -> bool {
        true
    }

    open spec fn eq_spec(&self, other: &Document) -> bool {
        self.path@ == other.path@
    }
}

pub enum AstEventType {
    Add,
    AstReset,
}

/// A request to the indexer: parse these documents, or drop the whole index.
pub struct AstEvent {
    pub docs: Vec<Document>,
    pub typ: AstEventType,
    /// When the event was posted, in milliseconds.
    pub posted_ts: u64,
}

/// Relies on std::time::SystemTime::now, read as milliseconds since the Unix epoch
/// (0 for a clock set before it). Nothing is promised of the value.
#[verifier::external_body]
fn now_millis() -> (r: u64) {
    match std::time::SystemTime::now().duration_since(std::time::UNIX_EPOCH) {
        Ok(d) => d.as_millis() as u64,
        Err(_) => 0,
    }
}

impl AstEvent {
    /// An `Add` event for `docs`, stamped with the current time.
    pub fn add_docs(docs: Vec<Document>) -> (r: Self)
        ensures
            r.docs == docs,
            r.typ is Add,
    {
        AstEvent { docs, typ: AstEventType::Add, posted_ts: now_millis() }
    }
}

/// A path waiting for its quiet period to pass, with the time of the newest
/// event that named it.
pub struct PendingPath {
    pub path: String,
    pub posted_ts: u64,
}

pub open spec fn has_path(s: Seq<PendingPath>, p: Seq<char>) -> bool {
    exists|i: int| 0 <= i < s.len() && s[i].path@ == p
}

pub open spec fn distinct_paths(s: Seq<PendingPath>) -> bool {
    forall|i: int, j: int|
        0 <= i < s.len() && 0 <= j < s.len() && i != j ==> s[i].path@ != s[j].path@
}

/// `s` after an event posted at `ts` named `path`: its entry is refreshed in
/// place, or a new one is appended.
pub open spec fn upsert(s: Seq<PendingPath>, path: String, ts: u64) -> Seq<PendingPath> {
    if has_path(s, path@) {
        let i = choose|i: int| 0 <= i < s.len() && s[i].path@ == path@;
        s.update(i, PendingPath { path, posted_ts: ts })
    } else {
        s.push(PendingPath { path, posted_ts: ts })
    }
}

/// `s` after one event posted at `ts` with documents `docs`.
pub open spec fn record_docs(s: Seq<PendingPath>, docs: Seq<Document>, ts: u64) -> Seq<PendingPath>
    decreases docs.len(),
{
    if docs.len() == 0 {
        s
    } else {
        record_docs(upsert(s, docs[0].path, ts), docs.drop_first(), ts)
    }
}

/// `s` after the events `evs`, in order.
pub open spec fn absorb(s: Seq<PendingPath>, evs: Seq<AstEvent>) -> Seq<PendingPath>
    decreases evs.len(),
{
    if evs.len() == 0 {
        s
    } else {
        absorb(record_docs(s, evs[0].docs@, evs[0].posted_ts), evs.drop_first())
    }
}

/// The number of events before the first reset (all of them when there is none).
pub open spec fn leading_adds(evs: Seq<AstEvent>) -> nat
    decreases evs.len(),
{
    if evs.len() == 0 {
        0
    } else if evs[0].typ is AstReset {
        0
    } else {
        1 + leading_adds(evs.drop_first())
    }
}

/// A pending path whose quiet period of `cooldown` milliseconds has passed at `now`.
pub open spec fn is_ready(e: PendingPath, now: u64, cooldown: u64) -> bool {
    e.posted_ts + cooldown <= now
}

/// Splits `s` into the first `room` ready entries, in order, and the rest.
pub open spec fn split_ready(s: Seq<PendingPath>, now: u64, cooldown: u64, room: nat) -> (
    Seq<PendingPath>,
    Seq<PendingPath>,
)
    decreases s.len(),
{
    if s.len() == 0 {
        (Seq::empty(), Seq::empty())
    } else if room > 0 && is_ready(s[0], now, cooldown) {
        let rest = split_ready(s.drop_first(), now, cooldown, (room - 1) as nat);
        (seq![s[0]] + rest.0, rest.1)
    } else {
        let rest = split_ready(s.drop_first(), now, cooldown, room);
        (rest.0, seq![s[0]] + rest.1)
    }
}

/// The most documents that one batch of the coalescer carries.
pub const MAX_BATCH: usize = 32;

/// Debounces file events: keeps, per path, the time of the newest event that
/// named it until that path has been quiet long enough.
pub struct CooldownQueue {
    pub latest: Vec<PendingPath>,
}

pub enum CooldownOutcome {
    /// A reset was seen: the immediate queue now holds only a reset.
    Reset,
    /// A batch of quiet paths was sent to the immediate queue.
    Launched,
    /// Nothing to send yet: wait one tick.
    Idle,
}

impl CooldownQueue {
    pub open spec fn wf(&self) -> bool {
        distinct_paths(self.latest@)
    }

    /// Records that an event posted at `ts` named `path`.
    fn note_path(&mut self, path: String, ts: u64)
        requires
            old(self).wf(),
        ensures
            final(self).wf(),
            final(self).latest@ == upsert(old(self).latest@, path, ts),
    {
        let ghost s0 = self.latest@;
        let n = self.latest.len();
        let mut i: usize = 0;
        let mut found = false;
        while i < n && !found
            invariant
                self.latest@ == s0,
                n == s0.len(),
                distinct_paths(s0),
                0 <= i <= n,
                found ==> i < n && s0[i as int].path@ == path@,
                forall|k: int| 0 <= k < i ==> s0[k].path@ != path@,
            decreases n - i + (if found { 0int } else { 1int }),
        {
            if self.latest[i].path == path {
                found = true;
            } else {
                i += 1;
            }
        }
        if found {
            proof {
                assert(has_path(s0, path@));
                let j = choose|j: int| 0 <= j < s0.len() && s0[j].path@ == path@;
                assert(j == i);
            }
            self.latest.set(i, PendingPath { path, posted_ts: ts });
        } else {
            self.latest.push(PendingPath { path, posted_ts: ts });
        }
    }

    /// Records every document of an event.
    fn note_event(&mut self, e: &AstEvent)
        requires
            old(self).wf(),
        ensures
            final(self).wf(),
            final(self).latest@ == record_docs(old(self).latest@, e.docs@, e.posted_ts),
    {
        let ghost docs = e.docs@;
        let n = e.docs.len();
        assert(docs.subrange(0, n as int) =~= docs);
        let mut j: usize = 0;
        while j < n
            invariant
                self.wf(),
                n == docs.len(),
                docs == e.docs@,
                0 <= j <= n,
                record_docs(self.latest@, docs.subrange(j as int, n as int), e.posted_ts)
                    == record_docs(old(self).latest@, docs, e.posted_ts),
            decreases n - j,
        {
            let ghost sub = docs.subrange(j as int, n as int);
            assert(sub[0] == docs[j as int]);
            assert(sub.drop_first() =~= docs.subrange(j + 1, n as int));
            self.note_path(e.docs[j].path.clone(), e.posted_ts);
            j += 1;
        }
        assert(docs.subrange(n as int, n as int).len() == 0);
    }

    /// Takes out the first `MAX_BATCH` paths whose quiet period has passed at
    /// `now`, as documents without text.
    fn take_ready(&mut self, now: u64, cooldown: u64) -> (docs: Vec<Document>)
        requires
            old(self).wf(),
        ensures
            final(self).wf(),
            ({
                let (b, k) = split_ready(old(self).latest@, now, cooldown, MAX_BATCH as nat);
                &&& final(self).latest@ == k
                &&& docs@.len() == b.len()
                &&& forall|i: int|
                    0 <= i < b.len() ==> docs@[i].path == b[i].path && docs@[i].text is None
            }),
    {
        let ghost s0 = self.latest@;
        let ghost t = split_ready(s0, now, cooldown, MAX_BATCH as nat);
        let mut kept: Vec<PendingPath> = Vec::new();
        let mut docs: Vec<Document> = Vec::new();
        let ghost mut batch: Seq<PendingPath> = Seq::empty();
        let n = self.latest.len();
        assert(s0.subrange(0, n as int) =~= s0);
        let mut i: usize = 0;
        while i < n
            invariant
                self.latest@ == s0,
                n == s0.len(),
                0 <= i <= n,
                docs@.len() == batch.len() <= MAX_BATCH,
                forall|k: int|
                    0 <= k < batch.len() ==> docs@[k].path == batch[k].path && docs@[k].text is None,
                ({
                    let r = split_ready(
                        s0.subrange(i as int, n as int),
                        now,
                        cooldown,
                        (MAX_BATCH - docs@.len()) as nat,
                    );
                    batch + r.0 == t.0 && kept@ + r.1 == t.1
                }),
            decreases n - i,
        {
            let ghost sub = s0.subrange(i as int, n as int);
            let ghost room = (MAX_BATCH - docs@.len()) as nat;
            assert(sub[0] == s0[i as int]);
            assert(sub.drop_first() =~= s0.subrange(i + 1, n as int));
            let ts = self.latest[i].posted_ts;
            let ready = ts <= now && now - ts >= cooldown;
            let path = self.latest[i].path.clone();
            if docs.len() < MAX_BATCH && ready {
                let ghost r = split_ready(sub.drop_first(), now, cooldown, (room - 1) as nat);
                assert(batch.push(s0[i as int]) + r.0 =~= batch + (seq![s0[i as int]] + r.0));
                docs.push(Document { path, text: None });
                proof {
                    batch = batch.push(s0[i as int]);
                }
            } else {
                let ghost r = split_ready(sub.drop_first(), now, cooldown, room);
                assert(kept@.push(s0[i as int]) + r.1 =~= kept@ + (seq![s0[i as int]] + r.1));
                kept.push(PendingPath { path, posted_ts: ts });
            }
            i += 1;
        }
        assert(batch + Seq::<PendingPath>::empty() =~= batch);
        assert(kept@ + Seq::<PendingPath>::empty() =~= kept@);
        proof {
            lemma_split_ready(s0, now, cooldown, MAX_BATCH as nat);
        }
        self.latest = kept;
        docs
    }

    /// One tick of the coalescer. Drains `delayed` up to and including its
    /// first reset. A reset empties the pending paths and leaves a lone reset
    /// in `immediate`; otherwise the drained events are recorded and the first
    /// `MAX_BATCH` quiet paths go to `immediate` as one `Add` event.
    pub fn tick(
        &mut self,
        delayed: &mut VecDeque<AstEvent>,
        immediate: &mut VecDeque<AstEvent>,
        now: u64,
        cooldown: u64,
    ) -> (r: CooldownOutcome)
        requires
            old(self).wf(),
        ensures
            final(self).wf(),
            ({
                let d = old(delayed)@;
                let k = leading_adds(d);
                if k < d.len() {
                    &&& r is Reset
                    &&& final(self).latest@.len() == 0
                    &&& final(delayed)@ == d.subrange((k + 1) as int, d.len() as int)
                    &&& final(immediate)@.len() == 1
                    &&& final(immediate)@[0].typ is AstReset
                    &&& final(immediate)@[0].docs@.len() == 0
                    &&& final(immediate)@[0].posted_ts == now
                } else {
                    let (b, kept) = split_ready(
                        absorb(old(self).latest@, d),
                        now,
                        cooldown,
                        MAX_BATCH as nat,
                    );
                    &&& final(delayed)@.len() == 0
                    &&& final(self).latest@ == kept
                    &&& if b.len() == 0 {
                        r is Idle && final(immediate)@ == old(immediate)@
                    } else {
                        let ev = final(immediate)@.last();
                        &&& r is Launched
                        &&& final(immediate)@.drop_last() == old(immediate)@
                        &&& ev.typ is Add
                        &&& ev.posted_ts == now
                        &&& ev.docs@.len() == b.len()
                        &&& ev.docs@.len() <= MAX_BATCH
                        &&& forall|i: int|
                            0 <= i < b.len() ==> ev.docs@[i].path == b[i].path
                                && ev.docs@[i].text is None
                    }
                }
            }),
    {
        let ghost d0 = delayed@;
        let ghost s0 = self.latest@;
        let ghost mut taken: int = 0;
        let mut have_reset = false;
        loop
            invariant_except_break
                self.wf(),
                0 <= taken <= d0.len(),
                delayed@ == d0.subrange(taken, d0.len() as int),
                leading_adds(d0) == taken + leading_adds(delayed@),
                absorb(self.latest@, delayed@) == absorb(s0, d0),
                !have_reset,
            ensures
                self.wf(),
                have_reset ==> {
                    &&& self.latest@.len() == 0
                    &&& leading_adds(d0) == taken
                    &&& taken < d0.len()
                    &&& delayed@ == d0.subrange(taken + 1, d0.len() as int)
                },
                !have_reset ==> {
                    &&& delayed@.len() == 0
                    &&& leading_adds(d0) == d0.len()
                    &&& self.latest@ == absorb(s0, d0)
                },
            decreases delayed@.len(),
        {
            let ghost before = delayed@;
            match delayed.pop_front() {
                None => {
                    assert(taken == d0.len());
                    break;
                },
                Some(e) => {
                    assert(before[0] == e);
                    assert(before.drop_first() =~= d0.subrange(taken + 1, d0.len() as int));
                    if matches!(e.typ, AstEventType::AstReset) {
                        self.latest.clear();
                        have_reset = true;
                        break;
                    }
                    self.note_event(&e);
                    proof {
                        taken = taken + 1;
                    }
                },
            }
        }
        if have_reset {
            immediate.clear();
            immediate.push_back(AstEvent { docs: Vec::new(), typ: AstEventType::AstReset, posted_ts: now });
            return CooldownOutcome::Reset;
        }
        proof {
            lemma_split_ready(self.latest@, now, cooldown, MAX_BATCH as nat);
        }
        let docs = self.take_ready(now, cooldown);
        if docs.len() > 0 {
            immediate.push_back(AstEvent { docs, typ: AstEventType::Add, posted_ts: now });
            assert(immediate@.drop_last() =~= old(immediate)@);
            CooldownOutcome::Launched
        } else {
            CooldownOutcome::Idle
        }
    }

    pub fn new() -> (r: Self)
        ensures
            r.wf(),
            r.latest@.len() == 0,
    {
        CooldownQueue { latest: Vec::new() }
    }
}


/// What `split_ready` hands out and keeps: at most `room` entries go, each
/// taken from `s`, none of them kept, none left ready while room remained.
pub proof fn lemma_split_ready(s: Seq<PendingPath>, now: u64, cooldown: u64, room: nat)
    ensures
        ({
            let (b, k) = split_ready(s, now, cooldown, room);
            &&& b.len() <= room
            &&& b.len() + k.len() == s.len()
            &&& forall|x: PendingPath| b.contains(x) ==> s.contains(x)
            &&& forall|x: PendingPath| k.contains(x) ==> s.contains(x)
            &&& forall|i: int| 0 <= i < b.len() ==> is_ready(#[trigger] b[i], now, cooldown)
            &&& (b.len() < room ==> forall|i: int|
                0 <= i < k.len() ==> !is_ready(#[trigger] k[i], now, cooldown))
            &&& (distinct_paths(s) ==> {
                &&& distinct_paths(b)
                &&& distinct_paths(k)
                &&& forall|i: int, j: int|
                    0 <= i < b.len() && 0 <= j < k.len() ==> b[i].path@ != k[j].path@
            })
        }),
    decreases s.len(),
{
    if s.len() > 0 {
        let t = s.drop_first();
        let x = s[0];
        assert forall|y: PendingPath| t.contains(y) implies s.contains(y) by {
            let j = choose|j: int| 0 <= j < t.len() && t[j] == y;
            assert(s[j + 1] == y);
        }
        if distinct_paths(s) {
            assert(distinct_paths(t)) by {
                assert forall|i: int, j: int|
                    0 <= i < t.len() && 0 <= j < t.len() && i != j implies t[i].path@
                    != t[j].path@ by {
                    assert(t[i] == s[i + 1] && t[j] == s[j + 1]);
                }
            }
            assert forall|y: PendingPath| t.contains(y) implies y.path@ != x.path@ by {
                let j = choose|j: int| 0 <= j < t.len() && t[j] == y;
                assert(s[j + 1] == y);
            }
        }
        if room > 0 && is_ready(x, now, cooldown) {
            let r = (room - 1) as nat;
            lemma_split_ready(t, now, cooldown, r);
            let (b1, k1) = split_ready(t, now, cooldown, r);
            let b = seq![x] + b1;
            assert forall|y: PendingPath| b.contains(y) implies s.contains(y) by {
                let j = choose|j: int| 0 <= j < b.len() && b[j] == y;
                if j > 0 {
                    assert(b1[j - 1] == y);
                    assert(b1.contains(y));
                } else {
                    assert(s[0] == y);
                }
            }
            assert forall|i: int| 0 <= i < b.len() implies is_ready(#[trigger] b[i], now, cooldown) by {
                if i > 0 {
                    assert(b[i] == b1[i - 1]);
                }
            }
            if distinct_paths(s) {
                assert forall|i: int| 0 <= i < b1.len() implies b1[i].path@ != x.path@ by {
                    assert(b1.contains(b1[i]));
                }
                assert forall|j: int| 0 <= j < k1.len() implies k1[j].path@ != x.path@ by {
                    assert(k1.contains(k1[j]));
                }
                assert forall|i: int, j: int|
                    0 <= i < b.len() && 0 <= j < b.len() && i != j implies b[i].path@
                    != b[j].path@ by {
                    if i > 0 {
                        assert(b[i] == b1[i - 1]);
                    }
                    if j > 0 {
                        assert(b[j] == b1[j - 1]);
                    }
                }
                assert forall|i: int, j: int|
                    0 <= i < b.len() && 0 <= j < k1.len() implies b[i].path@ != k1[j].path@ by {
                    if i > 0 {
                        assert(b[i] == b1[i - 1]);
                    }
                }
            }
        } else {
            lemma_split_ready(t, now, cooldown, room);
            let (b1, k1) = split_ready(t, now, cooldown, room);
            let k = seq![x] + k1;
            assert forall|y: PendingPath| k.contains(y) implies s.contains(y) by {
                let j = choose|j: int| 0 <= j < k.len() && k[j] == y;
                if j > 0 {
                    assert(k1[j - 1] == y);
                    assert(k1.contains(y));
                } else {
                    assert(s[0] == y);
                }
            }
            assert forall|i: int| 0 <= i < b1.len() implies is_ready(#[trigger] b1[i], now, cooldown) by {
            }
            if b1.len() < room {
                assert forall|i: int| 0 <= i < k.len() implies !is_ready(#[trigger] k[i], now, cooldown) by {
                    if i > 0 {
                        assert(k[i] == k1[i - 1]);
                    }
                }
            }
            if distinct_paths(s) {
                assert forall|i: int| 0 <= i < b1.len() implies b1[i].path@ != x.path@ by {
                    assert(b1.contains(b1[i]));
                }
                assert forall|j: int| 0 <= j < k1.len() implies k1[j].path@ != x.path@ by {
                    assert(k1.contains(k1[j]));
                }
                assert forall|i: int, j: int|
                    0 <= i < k.len() && 0 <= j < k.len() && i != j implies k[i].path@
                    != k[j].path@ by {
                    if i > 0 {
                        assert(k[i] == k1[i - 1]);
                    }
                    if j > 0 {
                        assert(k[j] == k1[j - 1]);
                    }
                }
                assert forall|i: int, j: int|
                    0 <= i < b1.len() && 0 <= j < k.len() implies b1[i].path@ != k[j].path@ by {
                    if j > 0 {
                        assert(k[j] == k1[j - 1]);
                    }
                }
            }
        }
    }
}

pub open spec fn names_path(docs: Seq<Document>, p: Seq<char>) -> bool {
    exists|j: int| 0 <= j < docs.len() && docs[j].path@ == p
}

pub open spec fn events_name_path(evs: Seq<AstEvent>, p: Seq<char>) -> bool {
    exists|i: int| 0 <= i < evs.len() && names_path(#[trigger] evs[i].docs@, p)
}

proof fn lemma_upsert(s: Seq<PendingPath>, path: String, ts: u64)
    requires
        distinct_paths(s),
    ensures
        distinct_paths(upsert(s, path, ts)),
        forall|q: Seq<char>| has_path(upsert(s, path, ts), q) <==> (has_path(s, q) || q == path@),
{
    let u = upsert(s, path, ts);
    if has_path(s, path@) {
        let i = choose|i: int| 0 <= i < s.len() && s[i].path@ == path@;
        assert forall|q: Seq<char>| has_path(u, q) <==> (has_path(s, q) || q == path@) by {
            if has_path(s, q) {
                let j = choose|j: int| 0 <= j < s.len() && s[j].path@ == q;
                assert(u[j].path@ == q);
            }
            if has_path(u, q) {
                let j = choose|j: int| 0 <= j < u.len() && u[j].path@ == q;
                assert(s[j].path@ == q);
            }
            if q == path@ {
                assert(u[i].path@ == q);
            }
        }
    } else {
        assert forall|q: Seq<char>| has_path(u, q) <==> (has_path(s, q) || q == path@) by {
            if has_path(s, q) {
                let j = choose|j: int| 0 <= j < s.len() && s[j].path@ == q;
                assert(u[j].path@ == q);
            }
            if has_path(u, q) {
                let j = choose|j: int| 0 <= j < u.len() && u[j].path@ == q;
                if j < s.len() {
                    assert(s[j].path@ == q);
                }
            }
            if q == path@ {
                assert(u[s.len() as int].path@ == q);
            }
        }
        assert forall|i: int, j: int|
            0 <= i < u.len() && 0 <= j < u.len() && i != j implies u[i].path@ != u[j].path@ by {
            if i == s.len() {
                assert(s[j].path@ != path@);
            }
            if j == s.len() {
                assert(s[i].path@ != path@);
            }
        }
    }
}

proof fn lemma_record_docs(s: Seq<PendingPath>, docs: Seq<Document>, ts: u64)
    requires
        distinct_paths(s),
    ensures
        distinct_paths(record_docs(s, docs, ts)),
        forall|q: Seq<char>|
            has_path(record_docs(s, docs, ts), q) <==> (has_path(s, q) || names_path(docs, q)),
    decreases docs.len(),
{
    if docs.len() > 0 {
        let u = upsert(s, docs[0].path, ts);
        lemma_upsert(s, docs[0].path, ts);
        let t = docs.drop_first();
        lemma_record_docs(u, t, ts);
        assert forall|q: Seq<char>| names_path(docs, q) <==> (q == docs[0].path@ || names_path(t, q)) by {
            if names_path(docs, q) {
                let j = choose|j: int| 0 <= j < docs.len() && docs[j].path@ == q;
                if j > 0 {
                    assert(t[j - 1].path@ == q);
                }
            }
            if names_path(t, q) {
                let j = choose|j: int| 0 <= j < t.len() && t[j].path@ == q;
                assert(docs[j + 1].path@ == q);
            }
        }
    }
}

proof fn lemma_absorb(s: Seq<PendingPath>, evs: Seq<AstEvent>)
    requires
        distinct_paths(s),
    ensures
        distinct_paths(absorb(s, evs)),
        forall|q: Seq<char>|
            has_path(absorb(s, evs), q) <==> (has_path(s, q) || events_name_path(evs, q)),
    decreases evs.len(),
{
    if evs.len() > 0 {
        let u = record_docs(s, evs[0].docs@, evs[0].posted_ts);
        lemma_record_docs(s, evs[0].docs@, evs[0].posted_ts);
        let t = evs.drop_first();
        lemma_absorb(u, t);
        assert forall|q: Seq<char>|
            events_name_path(evs, q) <==> (names_path(evs[0].docs@, q) || events_name_path(t, q)) by {
            if events_name_path(evs, q) {
                let i = choose|i: int| 0 <= i < evs.len() && names_path(#[trigger] evs[i].docs@, q);
                if i > 0 {
                    assert(t[i - 1] == evs[i]);
                }
            }
            if events_name_path(t, q) {
                let i = choose|i: int| 0 <= i < t.len() && names_path(#[trigger] t[i].docs@, q);
                assert(evs[i + 1] == t[i]);
            }
        }
    }
}

/// The time recorded for path `p` in `s` (0 when `p` is not pending).
pub open spec fn ts_of(s: Seq<PendingPath>, p: Seq<char>) -> u64 {
    if has_path(s, p) {
        s[choose|i: int| 0 <= i < s.len() && s[i].path@ == p].posted_ts
    } else {
        0
    }
}

/// The time of the last event of `evs` that names `p`, or `cur` when none does.
pub open spec fn newest_ts(evs: Seq<AstEvent>, p: Seq<char>, cur: u64) -> u64
    decreases evs.len(),
{
    if evs.len() == 0 {
        cur
    } else {
        newest_ts(
            evs.drop_first(),
            p,
            if names_path(evs[0].docs@, p) {
                evs[0].posted_ts
            } else {
                cur
            },
        )
    }
}

proof fn lemma_upsert_ts(s: Seq<PendingPath>, path: String, ts: u64, q: Seq<char>)
    requires
        distinct_paths(s),
    ensures
        ts_of(upsert(s, path, ts), q) == if q == path@ {
            ts
        } else {
            ts_of(s, q)
        },
{
    lemma_upsert(s, path, ts);
    let u = upsert(s, path, ts);
    if has_path(u, q) {
        let j = choose|j: int| 0 <= j < u.len() && u[j].path@ == q;
        if q == path@ {
            if has_path(s, path@) {
                let i = choose|i: int| 0 <= i < s.len() && s[i].path@ == path@;
                assert(u[i].path@ == q);
            } else {
                assert(u[s.len() as int].path@ == q);
            }
        } else {
            assert(has_path(s, q));
            let i = choose|i: int| 0 <= i < s.len() && s[i].path@ == q;
            assert(u[i].path@ == q);
            assert(i == j);
            if has_path(s, path@) {
                let k = choose|k: int| 0 <= k < s.len() && s[k].path@ == path@;
                assert(k != i);
            }
        }
    }
}

proof fn lemma_record_docs_ts(s: Seq<PendingPath>, docs: Seq<Document>, ts: u64, q: Seq<char>)
    requires
        distinct_paths(s),
    ensures
        ts_of(record_docs(s, docs, ts), q) == if names_path(docs, q) {
            ts
        } else {
            ts_of(s, q)
        },
    decreases docs.len(),
{
    if docs.len() > 0 {
        let u = upsert(s, docs[0].path, ts);
        lemma_upsert(s, docs[0].path, ts);
        lemma_upsert_ts(s, docs[0].path, ts, q);
        let t = docs.drop_first();
        lemma_record_docs_ts(u, t, ts, q);
        if names_path(docs, q) && !names_path(t, q) {
            let j = choose|j: int| 0 <= j < docs.len() && docs[j].path@ == q;
            if j > 0 {
                assert(t[j - 1].path@ == q);
            }
        }
        if names_path(t, q) {
            let j = choose|j: int| 0 <= j < t.len() && t[j].path@ == q;
            assert(docs[j + 1].path@ == q);
        }
        if q == docs[0].path@ {
            assert(names_path(docs, q));
        }
    }
}

proof fn lemma_absorb_ts(s: Seq<PendingPath>, evs: Seq<AstEvent>, q: Seq<char>)
    requires
        distinct_paths(s),
    ensures
        ts_of(absorb(s, evs), q) == newest_ts(evs, q, ts_of(s, q)),
    decreases evs.len(),
{
    if evs.len() > 0 {
        let u = record_docs(s, evs[0].docs@, evs[0].posted_ts);
        lemma_record_docs(s, evs[0].docs@, evs[0].posted_ts);
        lemma_record_docs_ts(s, evs[0].docs@, evs[0].posted_ts, q);
        lemma_absorb_ts(u, evs.drop_first(), q);
    }
}

/// Coalescing: however many events of a burst name a path, the coalescer then
/// holds exactly one pending entry for it; the batch it next sends names the
/// path at most once, and a path that goes out in the batch is no longer
/// pending afterwards. The entry carries the time of the newest event that
/// named the path.
pub proof fn lemma_coalescing(
    s: Seq<PendingPath>,
    evs: Seq<AstEvent>,
    now: u64,
    cooldown: u64,
    p: Seq<char>,
)
    requires
        distinct_paths(s),
        events_name_path(evs, p),
    ensures
        ({
            let l = absorb(s, evs);
            let (b, k) = split_ready(l, now, cooldown, MAX_BATCH as nat);
            &&& exists|i: int| 0 <= i < l.len() && l[i].path@ == p
            &&& forall|i: int, j: int|
                0 <= i < l.len() && 0 <= j < l.len() && l[i].path@ == p && l[j].path@ == p
                    ==> i == j
            &&& forall|i: int, j: int|
                0 <= i < b.len() && 0 <= j < b.len() && b[i].path@ == p && b[j].path@ == p
                    ==> i == j
            &&& has_path(b, p) ==> !has_path(k, p)
            &&& ts_of(l, p) == newest_ts(evs, p, ts_of(s, p))
        }),
{
    lemma_absorb(s, evs);
    lemma_absorb_ts(s, evs, p);
    let l = absorb(s, evs);
    lemma_split_ready(l, now, cooldown, MAX_BATCH as nat);
}

/// Batch cap: a batch that the coalescer sends never holds more than
/// `MAX_BATCH` documents.
pub proof fn lemma_batch_cap(s: Seq<PendingPath>, now: u64, cooldown: u64)
    ensures
        split_ready(s, now, cooldown, MAX_BATCH as nat).0.len() <= MAX_BATCH,
{
    lemma_split_ready(s, now, cooldown, MAX_BATCH as nat);
}

} // verus!
