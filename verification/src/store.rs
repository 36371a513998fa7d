//! The usage store: an append-only log of usage events.
//!
//! Each trackable occurrence of an emote is one event; counting is
//! aggregation over the log, and removal deletes exactly one event — the
//! most recently recorded one with a matching canonical key.

use vstd::prelude::*;
use vstd::string::StringExecFns;
use crate::StoreError;
use crate::canonical::{canonical_key, check_emote_name, get_emote, valid_emote_name};
use crate::clock::current_unix_timestamp;
use crate::text::{contains_pat, str_contains};

verus! {

/// One recorded occurrence of an emote.
pub struct UsageEvent {
    /// The platform's stable numeric identifier of the emote.
    pub emote_id: u64,
    /// The render markup `<:name:id>`, the unit of identity for tracking.
    pub canonical_key: String,
    /// Unix timestamp of ingestion.
    pub occurred_at: i64,
}

/// The mathematical content of a usage event.
pub ghost struct EventView {
    pub emote_id: u64,
    pub key: Seq<char>,
    pub occurred_at: i64,
}

impl View for UsageEvent {
    type V = EventView;

    open spec fn view(&self) -> EventView {
        EventView {
            emote_id: self.emote_id,
            key: self.canonical_key@,
            occurred_at: self.occurred_at,
        }
    }
}

/// How many events of the log carry this canonical key.
pub open spec fn count_of_key(log: Seq<EventView>, key: Seq<char>) -> nat
    decreases log.len(),
{
    if log.len() == 0 {
        0
    } else {
        count_of_key(log.drop_last(), key) + (if log.last().key == key {
            1nat
        } else {
            0nat
        })
    }
}

/// Some event of the log carries this canonical key.
pub open spec fn has_key(log: Seq<EventView>, key: Seq<char>) -> bool {
    exists|i: int| 0 <= i < log.len() && log[i].key == key
}

/// The index of the most recently recorded event with this key, or -1.
pub open spec fn last_index_of_key(log: Seq<EventView>, key: Seq<char>) -> int
    decreases log.len(),
{
    if log.len() == 0 {
        -1
    } else if log.last().key == key {
        log.len() - 1
    } else {
        last_index_of_key(log.drop_last(), key)
    }
}

/// How many events of the log have a key that contains `query` as a
/// substring.
pub open spec fn count_matching(log: Seq<EventView>, query: Seq<char>) -> nat
    decreases log.len(),
{
    if log.len() == 0 {
        0
    } else {
        count_matching(log.drop_last(), query) + (if contains_pat(log.last().key, query) {
            1nat
        } else {
            0nat
        })
    }
}

/// How many events of the log have a key containing `query` and were
/// recorded strictly before `before`.
pub open spec fn count_matching_before(log: Seq<EventView>, query: Seq<char>, before: i64) -> nat
    decreases log.len(),
{
    if log.len() == 0 {
        0
    } else {
        count_matching_before(log.drop_last(), query, before) + (if contains_pat(
            log.last().key,
            query,
        ) && log.last().occurred_at < before {
            1nat
        } else {
            0nat
        })
    }
}

pub proof fn lemma_has_key_iff_count_positive(log: Seq<EventView>, key: Seq<char>)
    ensures
        has_key(log, key) <==> count_of_key(log, key) > 0,
    decreases log.len(),
{
    if log.len() > 0 {
        lemma_has_key_iff_count_positive(log.drop_last(), key);
        if log.last().key == key {
            assert(log[log.len() - 1].key == key);
        } else {
            assert(has_key(log, key) ==> has_key(log.drop_last(), key)) by {
                if has_key(log, key) {
                    let i = choose|i: int| 0 <= i < log.len() && log[i].key == key;
                    assert(i < log.len() - 1);
                    assert(log.drop_last()[i].key == key);
                }
            }
            assert(has_key(log.drop_last(), key) ==> has_key(log, key)) by {
                if has_key(log.drop_last(), key) {
                    let i = choose|i: int|
                        0 <= i < log.drop_last().len() && log.drop_last()[i].key == key;
                    assert(log[i].key == key);
                }
            }
        }
    }
}

pub proof fn lemma_last_index_of_key(log: Seq<EventView>, key: Seq<char>)
    requires
        has_key(log, key),
    ensures
        0 <= last_index_of_key(log, key) < log.len(),
        log[last_index_of_key(log, key)].key == key,
        forall|j: int| last_index_of_key(log, key) < j < log.len() ==> log[j].key != key,
    decreases log.len(),
{
    if log.last().key == key {
    } else {
        assert(has_key(log.drop_last(), key)) by {
            let i = choose|i: int| 0 <= i < log.len() && log[i].key == key;
            assert(i < log.len() - 1);
            assert(log.drop_last()[i].key == key);
        }
        lemma_last_index_of_key(log.drop_last(), key);
        let idx = last_index_of_key(log.drop_last(), key);
        assert(forall|j: int|
            idx < j < log.len() - 1 ==> log[j].key == log.drop_last()[j].key && log[j].key != key);
    }
}

pub proof fn lemma_count_of_key_remove(log: Seq<EventView>, key: Seq<char>, i: int)
    requires
        0 <= i < log.len(),
    ensures
        count_of_key(log.remove(i), key) == count_of_key(log, key) - (if log[i].key == key {
            1int
        } else {
            0int
        }),
    decreases log.len(),
{
    if i == log.len() - 1 {
        assert(log.remove(i) =~= log.drop_last());
    } else {
        assert(log.remove(i).drop_last() =~= log.drop_last().remove(i));
        assert(log.remove(i).last() == log.last());
        lemma_count_of_key_remove(log.drop_last(), key, i);
        assert(log.drop_last()[i] == log[i]);
    }
}

pub proof fn lemma_count_of_key_push(log: Seq<EventView>, ev: EventView, key: Seq<char>)
    ensures
        count_of_key(log.push(ev), key) == count_of_key(log, key) + (if ev.key == key {
            1int
        } else {
            0int
        }),
{
    assert(log.push(ev).drop_last() =~= log);
}

/// Law: recording an occurrence of an emote and then removing one
/// occurrence of the same emote restores the log exactly, so the count of
/// every emote — the recorded one included — is left unchanged.
pub proof fn lemma_record_then_remove_is_identity(log: Seq<EventView>, ev: EventView)
    ensures
        has_key(log.push(ev), ev.key),
        log.push(ev).remove(last_index_of_key(log.push(ev), ev.key)) == log,
        forall|query: Seq<char>|
            count_matching(
                log.push(ev).remove(last_index_of_key(log.push(ev), ev.key)),
                query,
            ) == count_matching(log, query),
{
    let log2 = log.push(ev);
    assert(log2[log.len() as int].key == ev.key);
    assert(log2.last() == ev);
    assert(last_index_of_key(log2, ev.key) == log.len());
    assert(log2.remove(log.len() as int) =~= log);
}

/// One mutation of the usage store, as issued by ingestion.
pub ghost enum UsageOp {
    Record { emote_id: u64, name: Seq<char>, at: i64 },
    Remove { emote_id: u64, name: Seq<char> },
}

/// The log after one mutation, mirroring the contracts of
/// `record_occurrence_at` and `remove_one_occurrence`: a record of a valid
/// emote reference appends one event, a removal deletes the most recently
/// recorded matching event, and everything else leaves the log unchanged.
pub open spec fn apply_op(log: Seq<EventView>, op: UsageOp) -> Seq<EventView> {
    match op {
        UsageOp::Record { emote_id, name, at } => if valid_emote_name(name) {
            log.push(
                EventView { emote_id, key: canonical_key(emote_id, name), occurred_at: at },
            )
        } else {
            log
        },
        UsageOp::Remove { emote_id, name } => {
            let key = canonical_key(emote_id, name);
            if valid_emote_name(name) && has_key(log, key) {
                log.remove(last_index_of_key(log, key))
            } else {
                log
            }
        },
    }
}

/// The log after a whole sequence of mutations, applied in order.
pub open spec fn apply_ops(log: Seq<EventView>, ops: Seq<UsageOp>) -> Seq<EventView>
    decreases ops.len(),
{
    if ops.len() == 0 {
        log
    } else {
        apply_ops(apply_op(log, ops[0]), ops.skip(1))
    }
}

/// The operation records an event with this canonical key.
pub open spec fn op_records_key(op: UsageOp, key: Seq<char>) -> bool {
    match op {
        UsageOp::Record { emote_id, name, .. } => valid_emote_name(name) && canonical_key(
            emote_id,
            name,
        ) == key,
        UsageOp::Remove { .. } => false,
    }
}

/// The operation removes an event with this canonical key, when one exists.
pub open spec fn op_removes_key(op: UsageOp, key: Seq<char>) -> bool {
    match op {
        UsageOp::Record { .. } => false,
        UsageOp::Remove { emote_id, name } => valid_emote_name(name) && canonical_key(
            emote_id,
            name,
        ) == key,
    }
}

/// How many operations of the sequence record this key.
pub open spec fn records_of(ops: Seq<UsageOp>, key: Seq<char>) -> nat
    decreases ops.len(),
{
    if ops.len() == 0 {
        0
    } else {
        (if op_records_key(ops[0], key) {
            1nat
        } else {
            0nat
        }) + records_of(ops.skip(1), key)
    }
}

/// How many operations of the sequence remove this key.
pub open spec fn removes_of(ops: Seq<UsageOp>, key: Seq<char>) -> nat
    decreases ops.len(),
{
    if ops.len() == 0 {
        0
    } else {
        (if op_removes_key(ops[0], key) {
            1nat
        } else {
            0nat
        }) + removes_of(ops.skip(1), key)
    }
}

/// Along this op sequence, every removal that targets `key` finds at least
/// one matching event in the log of its moment.
pub open spec fn removals_covered(log: Seq<EventView>, ops: Seq<UsageOp>, key: Seq<char>) -> bool
    decreases ops.len(),
{
    if ops.len() == 0 {
        true
    } else {
        &&& (op_removes_key(ops[0], key) ==> count_of_key(log, key) > 0)
        &&& removals_covered(apply_op(log, ops[0]), ops.skip(1), key)
    }
}

/// Law: aggregation is consistent. After any interleaving of record and
/// remove operations in which no removal targets an emote with no
/// remaining events, the count of each canonical key equals the starting
/// count plus the records minus the removals of that key — and, the count
/// being a natural number, it is never negative.
pub proof fn lemma_aggregation_consistency(log: Seq<EventView>, ops: Seq<UsageOp>, key: Seq<char>)
    requires
        removals_covered(log, ops, key),
    ensures
        count_of_key(apply_ops(log, ops), key) == count_of_key(log, key) + records_of(ops, key)
            - removes_of(ops, key),
        removes_of(ops, key) <= count_of_key(log, key) + records_of(ops, key),
    decreases ops.len(),
{
    if ops.len() > 0 {
        let log1 = apply_op(log, ops[0]);
        match ops[0] {
            UsageOp::Record { emote_id, name, at } => {
                if valid_emote_name(name) {
                    lemma_count_of_key_push(
                        log,
                        EventView { emote_id, key: canonical_key(emote_id, name), occurred_at: at },
                        key,
                    );
                }
            },
            UsageOp::Remove { emote_id, name } => {
                let rkey = canonical_key(emote_id, name);
                if valid_emote_name(name) && has_key(log, rkey) {
                    lemma_last_index_of_key(log, rkey);
                    lemma_count_of_key_remove(log, key, last_index_of_key(log, rkey));
                } else if op_removes_key(ops[0], key) {
                    lemma_has_key_iff_count_positive(log, key);
                }
            },
        }
        lemma_aggregation_consistency(log1, ops.skip(1), key);
    }
}

/// The usage store. It owns the in-memory event log; callers that keep a
/// durable mirror replay the same mutations against it.
pub struct UsageStore {
    events: Vec<UsageEvent>,
}

impl View for UsageStore {
    type V = Seq<EventView>;

    closed spec fn view(&self) -> Seq<EventView> {
        self.events@.map_values(|e: UsageEvent| e@)
    }
}

impl UsageStore {
    /// An empty log.
    pub fn new() -> (store: UsageStore)
        ensures
            store@.len() == 0,
    {
        UsageStore { events: Vec::new() }
    }

    /// The number of recorded events.
    pub fn event_total(&self) -> (n: usize)
        ensures
            n == self@.len(),
    {
        self.events.len()
    }

    /// Records one occurrence of the emote at the given time. Succeeds
    /// exactly when a canonical key can be formed from the display name.
    pub fn record_occurrence_at(
        &mut self,
        emote_id: u64,
        display_name: &str,
        occurred_at: i64,
    ) -> (r: Result<(), StoreError>)
        ensures
            r is Ok <==> valid_emote_name(display_name@),
            r is Ok ==> final(self)@ == old(self)@.push(
                EventView {
                    emote_id,
                    key: canonical_key(emote_id, display_name@),
                    occurred_at,
                },
            ),
            r is Err ==> final(self)@ == old(self)@ && r == Err::<(), StoreError>(
                StoreError::InvalidInput,
            ),
    {
        if !check_emote_name(display_name) {
            return Err(StoreError::InvalidInput);
        }
        let key = get_emote(emote_id, String::from_str(display_name));
        self.events.push(UsageEvent { emote_id, canonical_key: key, occurred_at });
        proof {
            assert(self@ =~= old(self)@.push(
                EventView {
                    emote_id,
                    key: canonical_key(emote_id, display_name@),
                    occurred_at,
                },
            ));
        }
        Ok(())
    }

    /// Records one occurrence of the emote, stamped with the current time.
    pub fn record_occurrence(&mut self, emote_id: u64, display_name: &str) -> (r: Result<
        (),
        StoreError,
    >)
        ensures
            r is Ok <==> valid_emote_name(display_name@),
            r is Ok ==> final(self)@.len() == old(self)@.len() + 1 && final(self)@.drop_last()
                == old(self)@ && final(self)@.last().emote_id == emote_id && final(self)@.last().key
                == canonical_key(emote_id, display_name@),
            r is Err ==> final(self)@ == old(self)@ && r == Err::<(), StoreError>(
                StoreError::InvalidInput,
            ),
    {
        let now = current_unix_timestamp();
        let r = self.record_occurrence_at(emote_id, display_name, now);
        proof {
            if valid_emote_name(display_name@) {
                assert(self@.drop_last() =~= old(self)@);
            }
        }
        r
    }

    /// Removes exactly one occurrence of the emote: the most recently
    /// recorded event whose canonical key matches. Reports `NotFound` when
    /// no event matches, and `InvalidInput` when no canonical key can be
    /// formed; the log is unchanged in both cases.
    pub fn remove_one_occurrence(&mut self, emote_id: u64, display_name: &str) -> (r: Result<
        (),
        StoreError,
    >)
        ensures
            ({
                let key = canonical_key(emote_id, display_name@);
                &&& r is Ok <==> (valid_emote_name(display_name@) && has_key(old(self)@, key))
                &&& r is Ok ==> final(self)@ == old(self)@.remove(
                    last_index_of_key(old(self)@, key),
                )
                &&& !valid_emote_name(display_name@) ==> final(self)@ == old(self)@ && r == Err::<
                    (),
                    StoreError,
                >(StoreError::InvalidInput)
                &&& valid_emote_name(display_name@) && !has_key(old(self)@, key) ==> final(self)@
                    == old(self)@ && r == Err::<(), StoreError>(StoreError::NotFound)
            }),
    {
        if !check_emote_name(display_name) {
            return Err(StoreError::InvalidInput);
        }
        let key = get_emote(emote_id, String::from_str(display_name));
        let n = self.events.len();
        let mut found: bool = false;
        let mut idx: usize = 0;
        let mut i: usize = 0;
        while i < n
            invariant
                0 <= i <= n,
                n == self@.len(),
                key@ == canonical_key(emote_id, display_name@),
                found ==> 0 <= idx < i && self@[idx as int].key == key@,
                found ==> forall|j: int| idx < j < i ==> self@[j].key != key@,
                !found ==> forall|j: int| 0 <= j < i ==> self@[j].key != key@,
            decreases n - i,
        {
            if self.events[i].canonical_key == key {
                found = true;
                idx = i;
            }
            i = i + 1;
        }
        if !found {
            proof {
                assert(!has_key(self@, key@));
            }
            return Err(StoreError::NotFound);
        }
        proof {
            assert(has_key(self@, key@));
            lemma_last_index_of_key(self@, key@);
            let li = last_index_of_key(self@, key@);
            assert(li <= idx) by {
                if li > idx {
                    assert(self@[li].key != key@);
                }
            }
            assert(idx <= li) by {
                if idx > li {
                    assert(self@[idx as int].key != key@);
                }
            }
        }
        self.events.remove(idx);
        proof {
            assert(self@ =~= old(self)@.remove(idx as int));
        }
        Ok(())
    }

    /// The number of events whose canonical key contains `query` as a
    /// substring; zero (not an error) when nothing matches.
    pub fn count_for(&self, query: &str) -> (n: u64)
        ensures
            n == count_matching(self@, query@),
    {
        let total = self.events.len();
        let mut n: u64 = 0;
        let mut i: usize = 0;
        while i < total
            invariant
                0 <= i <= total,
                total == self@.len(),
                n <= i,
                n == count_matching(self@.take(i as int), query@),
            decreases total - i,
        {
            if str_contains(self.events[i].canonical_key.as_str(), query) {
                n = n + 1;
            }
            proof {
                assert(self@.take(i + 1).drop_last() =~= self@.take(i as int));
                assert(self@.take(i + 1).last() == self@[i as int]);
            }
            i = i + 1;
        }
        proof {
            assert(self@.take(total as int) =~= self@);
        }
        n
    }

    /// The number of events whose canonical key contains `query` and that
    /// were recorded strictly before `before`.
    pub fn count_for_before(&self, query: &str, before: i64) -> (n: u64)
        ensures
            n == count_matching_before(self@, query@, before),
    {
        let total = self.events.len();
        let mut n: u64 = 0;
        let mut i: usize = 0;
        while i < total
            invariant
                0 <= i <= total,
                total == self@.len(),
                n <= i,
                n == count_matching_before(self@.take(i as int), query@, before),
            decreases total - i,
        {
            if str_contains(self.events[i].canonical_key.as_str(), query) && self.events[i].occurred_at
                < before {
                n = n + 1;
            }
            proof {
                assert(self@.take(i + 1).drop_last() =~= self@.take(i as int));
                assert(self@.take(i + 1).last() == self@[i as int]);
            }
            i = i + 1;
        }
        proof {
            assert(self@.take(total as int) =~= self@);
        }
        n
    }

    /// The canonical keys of all recorded events, in log order.
    pub fn all_keys(&self) -> (keys: Vec<String>)
        ensures
            keys@.len() == self@.len(),
            forall|i: int| 0 <= i < self@.len() ==> keys@[i]@ == self@[i].key,
    {
        let total = self.events.len();
        let mut keys: Vec<String> = Vec::new();
        let mut i: usize = 0;
        while i < total
            invariant
                0 <= i <= total,
                total == self@.len(),
                keys@.len() == i,
                forall|j: int| 0 <= j < i ==> keys@[j]@ == self@[j].key,
            decreases total - i,
        {
            keys.push(self.events[i].canonical_key.clone());
            i = i + 1;
        }
        keys
    }
}

} // verus!
