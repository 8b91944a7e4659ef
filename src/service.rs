//! The record service: creating, reading, updating and deleting care reports
//! over a durable counter and a durable ordered map.
use crate::codec::{decode, encodable, encode, encoding, lemma_decode_encode, parse_report};
use crate::record::{CareReport, CareReportPayload, PayloadView, ReportView};
use crate::storage::{
    backing_memory, cell_value, counter_region, counter_value, map_region, map_entries, map_get, map_insert, map_remove,
    backing_bytes, backing_prefix, check_counter_header, lemma_counter_head, lemma_manager_head,
    lemma_map_head, region_bytes, starts_with, check_manager_header, check_map_header,
    new_counter, new_report_map, region_prefix, open_counter, open_report_map, region, regions_of, set_counter,
    to_stored, CounterCell, ReportMap, COUNTER_REGION, REPORTS_REGION,
};
use ic_stable_structures::memory_manager::MemoryId;
use vstd::prelude::*;

verus! {

/// Why an operation on the store did not succeed.
#[derive(Clone, Copy, Debug, PartialEq, Eq, Structural)]
pub enum ReportError {
    /// No report is stored under this identifier.
    NotFound(u64),
    /// The report's encoded form would exceed the size bound.
    EncodingTooLarge,
    /// The bytes stored under this identifier are not a report.
    Corrupt(u64),
    /// Every identifier has been handed out.
    IdsExhausted,
    /// The counter cell could not be set up in its region.
    CounterUnavailable,
    /// The persistent memory holds a layout this library cannot load.
    StorageIncompatible,
}

/// The storage context: the identifier counter and the map of encoded reports.
///
/// A store binds the process's persistent address space, and a process holds
/// one store: a second binding would write the same regions behind the
/// first one's back.
pub struct ReportStore {
    counter: CounterCell,
    reports: ReportMap,
    recovered: bool,
}

/// The report that a successful addition builds.
pub open spec fn new_report(id: u64, p: PayloadView, now: u64) -> ReportView {
    ReportView {
        id,
        elder_name: p.elder_name,
        caregiver_name: p.caregiver_name,
        report_details: p.report_details,
        timestamp: now,
        updated_at: None,
    }
}

/// The report `r` after an update with payload `p` at time `now`.
pub open spec fn revised(r: ReportView, p: PayloadView, now: u64) -> ReportView {
    ReportView {
        id: r.id,
        elder_name: p.elder_name,
        caregiver_name: p.caregiver_name,
        report_details: p.report_details,
        timestamp: r.timestamp,
        updated_at: Some(now),
    }
}

/// Views a result carrying a report as one carrying the report's model.
pub open spec fn result_view(res: Result<CareReport, ReportError>) -> Result<ReportView, ReportError> {
    match res {
        Ok(r) => Ok(r@),
        Err(e) => Err(e),
    }
}

/// What reading identifier `id` from `s` gives.
pub open spec fn lookup(s: ReportStore, id: u64) -> Result<ReportView, ReportError> {
    if !s.entries().contains_key(id) {
        Err(ReportError::NotFound(id))
    } else {
        match parse_report(s.entries()[id]) {
            Some(r) => Ok(r),
            None => Err(ReportError::Corrupt(id)),
        }
    }
}

/// What updating identifier `id` of `s` with payload `p` at time `now` gives.
pub open spec fn update_result(s: ReportStore, id: u64, p: PayloadView, now: u64) -> Result<
    ReportView,
    ReportError,
> {
    match lookup(s, id) {
        Err(e) => Err(e),
        Ok(r) => if encodable(revised(r, p, now)) {
            Ok(revised(r, p, now))
        } else {
            Err(ReportError::EncodingTooLarge)
        },
    }
}

/// An addition from `pre` with payload `p` at time `now` that returned `res`
/// and left `post`. The new identifier is the counter's value, and the counter
/// is advanced before the report is stored. It fails only when identifiers are
/// used up or the report is too large, and then leaves the store as it was.
pub open spec fn add_outcome(
    pre: ReportStore,
    p: PayloadView,
    now: u64,
    res: Result<CareReport, ReportError>,
    post: ReportStore,
) -> bool {
    let id = pre.next_id();
    let rec = new_report(id, p, now);
    match res {
        Ok(r) => {
            &&& id < u64::MAX
            &&& encodable(rec)
            &&& r@ == rec
            &&& post.next_id() == id + 1
            &&& post.entries() == pre.entries().insert(id, encoding(rec))
        },
        Err(e) => {
            &&& post.next_id() == pre.next_id()
            &&& post.entries() == pre.entries()
            &&& (e == ReportError::IdsExhausted <==> id == u64::MAX)
            &&& (e == ReportError::EncodingTooLarge <==> id < u64::MAX && !encodable(rec))
            &&& (e is IdsExhausted || e is EncodingTooLarge)
        },
    }
}

/// An update of `id` in `pre` that returned `res` and left `post`.
pub open spec fn update_outcome(
    pre: ReportStore,
    id: u64,
    p: PayloadView,
    now: u64,
    res: Result<CareReport, ReportError>,
    post: ReportStore,
) -> bool {
    &&& result_view(res) == update_result(pre, id, p, now)
    &&& post.next_id() == pre.next_id()
    &&& post.entries() == match res {
        Ok(r) => pre.entries().insert(id, encoding(r@)),
        Err(_) => pre.entries(),
    }
}

/// A deletion of `id` in `pre` that returned `res` and left `post`.
pub open spec fn delete_outcome(
    pre: ReportStore,
    id: u64,
    res: Result<CareReport, ReportError>,
    post: ReportStore,
) -> bool {
    &&& result_view(res) == lookup(pre, id)
    &&& post.next_id() == pre.next_id()
    &&& post.entries() == if res is Ok {
        pre.entries().remove(id)
    } else {
        pre.entries()
    }
}

/// The identifier that a successful addition from `pre` returned.
pub open spec fn added_id(res: Result<CareReport, ReportError>) -> u64 {
    res->Ok_0.id
}

/// A run of successful additions: the `k`-th went from `pre[k]` to `post[k]`,
/// and whatever ran between two of them did not move the counter back.
pub open spec fn additions_run(
    pre: Seq<ReportStore>,
    post: Seq<ReportStore>,
    payloads: Seq<PayloadView>,
    stamps: Seq<u64>,
    results: Seq<Result<CareReport, ReportError>>,
) -> bool {
    &&& pre.len() == post.len() == payloads.len() == stamps.len() == results.len()
    &&& forall|k: int|
        0 <= k < results.len() ==> #[trigger] add_outcome(
            pre[k],
            payloads[k],
            stamps[k],
            results[k],
            post[k],
        ) && results[k] is Ok
    &&& forall|k: int| 0 <= k < results.len() - 1 ==> #[trigger] post[k].next_id() <= pre[k + 1].next_id()
}

proof fn lemma_added_ids_chain(
    pre: Seq<ReportStore>,
    post: Seq<ReportStore>,
    payloads: Seq<PayloadView>,
    stamps: Seq<u64>,
    results: Seq<Result<CareReport, ReportError>>,
    i: int,
    j: int,
)
    requires
        additions_run(pre, post, payloads, stamps, results),
        0 <= i < j < results.len(),
    ensures
        added_id(results[i]) < added_id(results[j]),
    decreases j - i,
{
    assert(add_outcome(pre[j - 1], payloads[j - 1], stamps[j - 1], results[j - 1], post[j - 1]));
    assert(add_outcome(pre[j], payloads[j], stamps[j], results[j], post[j]));
    assert(post[j - 1].next_id() <= pre[j].next_id());
    if j > i + 1 {
        lemma_added_ids_chain(pre, post, payloads, stamps, results, i, j - 1);
    }
}

/// A run of successful additions, with any operations in between that do not
/// move the counter back (reads, updates and deletions leave it as it is),
/// hands out strictly increasing identifiers, so none is handed out twice,
/// whatever was deleted meanwhile.
pub proof fn lemma_ids_strictly_increase(
    pre: Seq<ReportStore>,
    post: Seq<ReportStore>,
    payloads: Seq<PayloadView>,
    stamps: Seq<u64>,
    results: Seq<Result<CareReport, ReportError>>,
)
    requires
        additions_run(pre, post, payloads, stamps, results),
    ensures
        forall|i: int, j: int|
            0 <= i < j < results.len() ==> #[trigger] added_id(results[i]) < #[trigger] added_id(
                results[j],
            ),
{
    assert forall|i: int, j: int| 0 <= i < j < results.len() implies #[trigger] added_id(results[i])
        < #[trigger] added_id(results[j]) by {
        lemma_added_ids_chain(pre, post, payloads, stamps, results, i, j);
    }
}

/// In a well-formed store, reading, updating or deleting an identifier that
/// no addition has handed out yet reports it as not found; the operations'
/// own contracts then leave the store unchanged.
pub proof fn lemma_unminted_not_found(s: ReportStore, id: u64, p: PayloadView, now: u64)
    requires
        s.wf(),
        id >= s.next_id(),
    ensures
        lookup(s, id) == Err::<ReportView, ReportError>(ReportError::NotFound(id)),
        update_result(s, id, p, now) == Err::<ReportView, ReportError>(ReportError::NotFound(id)),
{
}

/// Reading, updating or deleting an identifier with no stored report gives
/// not found and leaves the store as it was.
pub proof fn lemma_absent_not_found(
    s: ReportStore,
    id: u64,
    p: PayloadView,
    now: u64,
    upd: Result<CareReport, ReportError>,
    after_update: ReportStore,
    del: Result<CareReport, ReportError>,
    after_delete: ReportStore,
)
    requires
        !s.entries().contains_key(id),
        update_outcome(s, id, p, now, upd, after_update),
        delete_outcome(s, id, del, after_delete),
    ensures
        lookup(s, id) == Err::<ReportView, ReportError>(ReportError::NotFound(id)),
        upd == Err::<CareReport, ReportError>(ReportError::NotFound(id)),
        del == Err::<CareReport, ReportError>(ReportError::NotFound(id)),
        after_update.entries() == s.entries() && after_update.next_id() == s.next_id(),
        after_delete.entries() == s.entries() && after_delete.next_id() == s.next_id(),
{
}

/// After a successful update of `id` in a well-formed store, the report keeps
/// its identifier and creation time, holds the payload's text, carries the
/// update time, and is what a later read returns; with a clock that does not
/// run backwards the update time is not before the creation time.
pub proof fn lemma_update_keeps_identity(
    pre: ReportStore,
    id: u64,
    p: PayloadView,
    now: u64,
    res: Result<CareReport, ReportError>,
    post: ReportStore,
)
    requires
        pre.wf(),
        update_outcome(pre, id, p, now, res, post),
        res is Ok,
    ensures
        lookup(pre, id) is Ok,
        res->Ok_0.id == id,
        res->Ok_0.id == lookup(pre, id)->Ok_0.id,
        res->Ok_0.timestamp == lookup(pre, id)->Ok_0.timestamp,
        res->Ok_0.elder_name@ == p.elder_name,
        res->Ok_0.caregiver_name@ == p.caregiver_name,
        res->Ok_0.report_details@ == p.report_details,
        res->Ok_0.updated_at == Some(now),
        now >= lookup(pre, id)->Ok_0.timestamp ==> res->Ok_0.updated_at->Some_0
            >= res->Ok_0.timestamp,
        lookup(post, id) == result_view(res),
{
    let r = res->Ok_0;
    assert(pre.entries().contains_key(id));
    lemma_decode_encode(r@);
    assert(post.entries()[id] == encoding(r@));
}

/// Updating a stored report of a well-formed store succeeds whenever the
/// revised report fits the size bound, and the result keeps the identifier.
pub proof fn lemma_update_succeeds(pre: ReportStore, id: u64, p: PayloadView, now: u64)
    requires
        pre.wf(),
        pre.entries().contains_key(id),
        encodable(revised(parse_report(pre.entries()[id])->Some_0, p, now)),
    ensures
        update_result(pre, id, p, now) == Ok::<ReportView, ReportError>(
            revised(lookup(pre, id)->Ok_0, p, now),
        ),
        update_result(pre, id, p, now)->Ok_0.id == id,
{
}

/// After a successful deletion of `id`, reading it and deleting it again
/// both give not found.
pub proof fn lemma_delete_final(
    pre: ReportStore,
    id: u64,
    res: Result<CareReport, ReportError>,
    post: ReportStore,
    again: Result<CareReport, ReportError>,
    last: ReportStore,
)
    requires
        delete_outcome(pre, id, res, post),
        res is Ok,
        delete_outcome(post, id, again, last),
    ensures
        lookup(post, id) == Err::<ReportView, ReportError>(ReportError::NotFound(id)),
        again == Err::<CareReport, ReportError>(ReportError::NotFound(id)),
        last.entries() == post.entries(),
{
    assert(!post.entries().contains_key(id));
}

/// A report added to a store is what a later read of its identifier returns.
pub proof fn lemma_add_then_get(
    pre: ReportStore,
    p: PayloadView,
    now: u64,
    res: Result<CareReport, ReportError>,
    post: ReportStore,
)
    requires
        add_outcome(pre, p, now, res, post),
        res is Ok,
    ensures
        lookup(post, res->Ok_0.id) == result_view(res),
        res->Ok_0.id == pre.next_id(),
        res->Ok_0.updated_at is None,
{
    lemma_decode_encode(res->Ok_0@);
    assert(post.entries()[res->Ok_0.id] == encoding(res->Ok_0@));
}

/// One call of an operation on the store, taking it from `pre` to `post`: a
/// read (which changes nothing), an addition, an update or a deletion, with
/// any arguments and any outcome.
pub open spec fn any_step(pre: ReportStore, post: ReportStore) -> bool {
    ||| (post.next_id() == pre.next_id() && post.entries() == pre.entries())
    ||| exists|p: PayloadView, now: u64, res: Result<CareReport, ReportError>| #[trigger]
        add_outcome(pre, p, now, res, post)
    ||| exists|id: u64, p: PayloadView, now: u64, res: Result<CareReport, ReportError>| #[trigger]
        update_outcome(pre, id, p, now, res, post)
    ||| exists|id: u64, res: Result<CareReport, ReportError>| #[trigger]
        delete_outcome(pre, id, res, post)
}

/// A sequence of states, each reached from the one before by one operation.
pub open spec fn run(states: Seq<ReportStore>) -> bool {
    forall|k: int| 0 <= k < states.len() - 1 ==> #[trigger] any_step(states[k], states[k + 1])
}

/// No operation moves the counter back, and the only identifier an operation
/// can bring into the map is the one the counter held.
pub proof fn lemma_step(pre: ReportStore, post: ReportStore)
    requires
        any_step(pre, post),
    ensures
        pre.next_id() <= post.next_id(),
        forall|k: u64|
            #[trigger] post.entries().contains_key(k) && !pre.entries().contains_key(k) ==> k
                == pre.next_id(),
{
    if post.next_id() == pre.next_id() && post.entries() == pre.entries() {
    } else if exists|p: PayloadView, now: u64, res: Result<CareReport, ReportError>|
        #[trigger] add_outcome(pre, p, now, res, post) {
        let (p, now, res) = choose|p: PayloadView, now: u64, res: Result<CareReport, ReportError>|
            #[trigger] add_outcome(pre, p, now, res, post);
        assert(add_outcome(pre, p, now, res, post));
    } else if exists|id: u64, p: PayloadView, now: u64, res: Result<CareReport, ReportError>|
        #[trigger] update_outcome(pre, id, p, now, res, post) {
        let (id, p, now, res) = choose|
            id: u64,
            p: PayloadView,
            now: u64,
            res: Result<CareReport, ReportError>,
        | #[trigger] update_outcome(pre, id, p, now, res, post);
        assert(update_outcome(pre, id, p, now, res, post));
        if res is Ok {
            assert(pre.entries().contains_key(id));
        }
    } else {
        let (id, res) = choose|id: u64, res: Result<CareReport, ReportError>| #[trigger]
            delete_outcome(pre, id, res, post);
        assert(delete_outcome(pre, id, res, post));
    }
}

/// Along a run the counter never moves back.
pub proof fn lemma_run_counter_monotone(states: Seq<ReportStore>, a: int, b: int)
    requires
        run(states),
        0 <= a <= b < states.len(),
    ensures
        states[a].next_id() <= states[b].next_id(),
    decreases b - a,
{
    if a < b {
        assert(any_step(states[b - 1], states[(b - 1) + 1]));
        lemma_step(states[b - 1], states[b]);
        lemma_run_counter_monotone(states, a, b - 1);
    }
}

/// Of two successful additions along a run of operations of any kind, the
/// later one hands out a larger identifier: identifiers are never handed out
/// twice, whatever was read, updated or deleted in between.
pub proof fn lemma_run_ids_increase(
    states: Seq<ReportStore>,
    i: int,
    j: int,
    p1: PayloadView,
    now1: u64,
    r1: Result<CareReport, ReportError>,
    p2: PayloadView,
    now2: u64,
    r2: Result<CareReport, ReportError>,
)
    requires
        run(states),
        0 <= i < j,
        j + 1 < states.len(),
        add_outcome(states[i], p1, now1, r1, states[i + 1]),
        r1 is Ok,
        add_outcome(states[j], p2, now2, r2, states[j + 1]),
        r2 is Ok,
    ensures
        r1->Ok_0.id < r2->Ok_0.id,
{
    lemma_run_counter_monotone(states, i + 1, j);
}

/// Once a report is deleted from a well-formed store, it stays absent along
/// any run of operations that follows: reading, updating or deleting it again
/// gives not found and changes nothing.
pub proof fn lemma_deleted_stays_gone(
    pre: ReportStore,
    id: u64,
    res: Result<CareReport, ReportError>,
    states: Seq<ReportStore>,
    k: int,
)
    requires
        pre.wf(),
        states.len() > 0,
        delete_outcome(pre, id, res, states[0]),
        res is Ok,
        run(states),
        0 <= k < states.len(),
    ensures
        !states[k].entries().contains_key(id),
        id < states[k].next_id(),
        lookup(states[k], id) == Err::<ReportView, ReportError>(ReportError::NotFound(id)),
    decreases k,
{
    assert(pre.entries().contains_key(id));
    if k > 0 {
        lemma_deleted_stays_gone(pre, id, res, states, k - 1);
        assert(any_step(states[k - 1], states[(k - 1) + 1]));
        lemma_step(states[k - 1], states[k]);
    }
}

impl ReportStore {
    /// The identifier that the next addition hands out.
    pub closed spec fn next_id(&self) -> u64 {
        cell_value(self.counter)
    }

    /// The stored entries: identifier to encoded report.
    pub closed spec fn entries(&self) -> Map<u64, Seq<u8>> {
        map_entries(self.reports)
    }

    /// Whether the store was loaded from a counter or map that the memory
    /// already held.
    pub closed spec fn recovered(&self) -> bool {
        self.recovered
    }

    /// The region that holds the counter.
    pub closed spec fn counter_region(&self) -> u8 {
        counter_region(self.counter)
    }

    /// The region that holds the reports.
    pub closed spec fn reports_region(&self) -> u8 {
        map_region(self.reports)
    }

    /// The counter and the reports sit in their own reserved regions.
    pub open spec fn placed(&self) -> bool {
        self.counter_region() == COUNTER_REGION && self.reports_region() == REPORTS_REGION
    }

    /// Every stored identifier was minted before, and every entry is the
    /// encoding of a report that carries its own identifier.
    pub open spec fn wf(&self) -> bool {
        forall|k: u64| #[trigger]
            self.entries().contains_key(k) ==> {
                &&& k < self.next_id()
                &&& parse_report(self.entries()[k]) is Some
                &&& parse_report(self.entries()[k])->Some_0.id == k
            }
    }

    /// Creates an empty store in the process's persistent address space,
    /// overwriting whatever its counter and report regions held: the counter
    /// starts at zero and the map holds nothing.
    pub fn new() -> (r: Result<ReportStore, ReportError>)
        ensures
            r matches Ok(s) ==> s.next_id() == 0 && s.entries().dom().is_empty() && s.wf(),
            r matches Ok(s) ==> s.placed() && !s.recovered(),
            r is Err ==> r == Err::<ReportStore, ReportError>(ReportError::CounterUnavailable) || r
                == Err::<ReportStore, ReportError>(ReportError::StorageIncompatible),
    {
        let memory = backing_memory();
        if !check_manager_header(&backing_prefix(&memory, 4)) {
            return Err(ReportError::StorageIncompatible);
        }
        proof {
            lemma_manager_head(backing_bytes(memory));
        }
        let regions = regions_of(memory);
        let counter = match new_counter(region(&regions, MemoryId::new(COUNTER_REGION)), 0) {
            Some(c) => c,
            None => return Err(ReportError::CounterUnavailable),
        };
        let reports = new_report_map(region(&regions, MemoryId::new(REPORTS_REGION)));
        Ok(ReportStore { counter, reports, recovered: false })
    }

    /// Binds to the persistent memory and recovers the counter and reports
    /// that it holds, or starts empty where it holds neither. Headers of a
    /// layout that the storage crate would stop on are refused first, with
    /// `StorageIncompatible`.
    pub fn open() -> (r: Result<ReportStore, ReportError>)
        ensures
            r matches Ok(s) ==> s.placed(),
            r matches Ok(s) ==> !s.recovered() ==> s.next_id() == 0
                && s.entries().dom().is_empty() && s.wf(),
            r is Err ==> r == Err::<ReportStore, ReportError>(ReportError::CounterUnavailable) || r
                == Err::<ReportStore, ReportError>(ReportError::StorageIncompatible),
    {
        let memory = backing_memory();
        if !check_manager_header(&backing_prefix(&memory, 4)) {
            return Err(ReportError::StorageIncompatible);
        }
        proof {
            lemma_manager_head(backing_bytes(memory));
        }
        let regions = regions_of(memory);
        let counter_memory = region(&regions, MemoryId::new(COUNTER_REGION));
        let reports_memory = region(&regions, MemoryId::new(REPORTS_REGION));
        let counter_head = region_prefix(&counter_memory, 16);
        let reports_head = region_prefix(&reports_memory, 56);
        if !check_counter_header(&counter_head) || !check_map_header(&reports_head) {
            return Err(ReportError::StorageIncompatible);
        }
        proof {
            lemma_counter_head(region_bytes(counter_memory));
            lemma_map_head(region_bytes(reports_memory));
        }
        let recovered = starts_with(&counter_head, 0x53, 0x43, 0x4c) || starts_with(
            &reports_head,
            0x42,
            0x54,
            0x52,
        );
        let counter = match open_counter(counter_memory, 0) {
            Some(c) => c,
            None => return Err(ReportError::CounterUnavailable),
        };
        let reports = open_report_map(reports_memory);
        Ok(ReportStore { counter, reports, recovered })
    }

    /// The identifier that the next addition hands out.
    pub fn next_report_id(&self) -> (r: u64)
        ensures
            r == self.next_id(),
    {
        counter_value(&self.counter)
    }

    /// Whether the store was loaded from a counter or map that the memory
    /// already held.
    pub fn was_recovered(&self) -> (r: bool)
        ensures
            r == self.recovered(),
    {
        self.recovered
    }

    /// Whether a report is stored under `id`.
    pub fn contains_report(&self, id: u64) -> (r: bool)
        ensures
            r == self.entries().contains_key(id),
    {
        map_get(&self.reports, id).is_some()
    }

    /// Reads the report stored under `id`.
    pub fn get_report(&self, id: u64) -> (res: Result<CareReport, ReportError>)
        ensures
            result_view(res) == lookup(*self, id),
    {
        match map_get(&self.reports, id) {
            None => Err(ReportError::NotFound(id)),
            Some(bytes) => match decode(bytes.as_slice()) {
                Some(r) => Ok(r),
                None => Err(ReportError::Corrupt(id)),
            },
        }
    }

    /// Adds a report built from `payload`, created at time `now`, under a
    /// newly minted identifier, and returns it.
    pub fn add_report(&mut self, payload: CareReportPayload, now: u64) -> (res: Result<
        CareReport,
        ReportError,
    >)
        ensures
            add_outcome(*old(self), payload@, now, res, *final(self)),
            old(self).wf() ==> final(self).wf(),
            final(self).placed() == old(self).placed(),
    {
        let id = counter_value(&self.counter);
        if id == u64::MAX {
            return Err(ReportError::IdsExhausted);
        }
        let report = CareReport {
            id,
            elder_name: payload.elder_name,
            caregiver_name: payload.caregiver_name,
            report_details: payload.report_details,
            timestamp: now,
            updated_at: None,
        };
        assert(report@ == new_report(id, payload@, now));
        let bytes = match encode(&report) {
            Ok(b) => b,
            Err(_) => return Err(ReportError::EncodingTooLarge),
        };
        let stored = match to_stored(bytes.as_slice()) {
            Some(s) => s,
            None => return Err(ReportError::EncodingTooLarge),
        };
        let _ = set_counter(&mut self.counter, id + 1);
        let _ = map_insert(&mut self.reports, id, stored);
        proof {
            lemma_decode_encode(report@);
            assert(self.entries() == old(self).entries().insert(id, encoding(report@)));
            if old(self).wf() {
                assert forall|k: u64| #[trigger] self.entries().contains_key(k) implies {
                    &&& k < self.next_id()
                    &&& parse_report(self.entries()[k]) is Some
                    &&& parse_report(self.entries()[k])->Some_0.id == k
                } by {
                    if k != id {
                        assert(old(self).entries().contains_key(k));
                    }
                }
            }
        }
        Ok(report)
    }

    /// Replaces the text fields of the report under `id` with `payload`,
    /// stamps it as updated at time `now`, and returns the new state.
    pub fn update_report(&mut self, id: u64, payload: CareReportPayload, now: u64) -> (res: Result<
        CareReport,
        ReportError,
    >)
        ensures
            update_outcome(*old(self), id, payload@, now, res, *final(self)),
            old(self).wf() ==> final(self).wf(),
            final(self).placed() == old(self).placed(),
    {
        let current = match self.get_report(id) {
            Ok(r) => r,
            Err(e) => return Err(e),
        };
        let report = CareReport {
            id: current.id,
            elder_name: payload.elder_name,
            caregiver_name: payload.caregiver_name,
            report_details: payload.report_details,
            timestamp: current.timestamp,
            updated_at: Some(now),
        };
        assert(report@ == revised(current@, payload@, now));
        let bytes = match encode(&report) {
            Ok(b) => b,
            Err(_) => return Err(ReportError::EncodingTooLarge),
        };
        let stored = match to_stored(bytes.as_slice()) {
            Some(s) => s,
            None => return Err(ReportError::EncodingTooLarge),
        };
        let _ = map_insert(&mut self.reports, id, stored);
        proof {
            lemma_decode_encode(report@);
            if old(self).wf() {
                assert forall|k: u64| #[trigger] self.entries().contains_key(k) implies {
                    &&& k < self.next_id()
                    &&& parse_report(self.entries()[k]) is Some
                    &&& parse_report(self.entries()[k])->Some_0.id == k
                } by {
                    assert(old(self).entries().contains_key(k));
                }
            }
        }
        Ok(report)
    }

    /// Removes the report under `id` and returns what it held.
    pub fn delete_report(&mut self, id: u64) -> (res: Result<CareReport, ReportError>)
        ensures
            delete_outcome(*old(self), id, res, *final(self)),
            old(self).wf() ==> final(self).wf(),
            final(self).placed() == old(self).placed(),
    {
        let current = match self.get_report(id) {
            Ok(r) => r,
            Err(e) => return Err(e),
        };
        let _ = map_remove(&mut self.reports, id);
        proof {
            if old(self).wf() {
                assert forall|k: u64| #[trigger] self.entries().contains_key(k) implies {
                    &&& k < self.next_id()
                    &&& parse_report(self.entries()[k]) is Some
                    &&& parse_report(self.entries()[k])->Some_0.id == k
                } by {
                    assert(old(self).entries().contains_key(k));
                }
            }
        }
        Ok(current)
    }
}

} // verus!
