//! The sequencer: it gives every event its place in one total order, and it
//! remembers which submissions were accepted.
use crate::clock::current_time_ms;
use crate::domain::order::{OrderHash, OrderId};
use crate::events::{Event, SequencedEvent};
use crate::keys::{compare_pairs, lemma_pair_irreflexive, lemma_pair_total, lemma_pair_transitive, pair_before};
use crate::ordmap::{MapKey, OrdMap, Rank};
use vstd::prelude::*;

verus! {

/// What makes two submissions the same: the trader and the trader's own name
/// for the order.
#[derive(Debug, PartialEq, Eq, Hash)]
pub struct IdempotencyKey {
    pub trader_id: String,
    pub client_order_id: String,
}

impl Clone for IdempotencyKey {
    fn clone(&self) -> (copy: IdempotencyKey)
        ensures
            copy == *self,
    {
        IdempotencyKey { trader_id: self.trader_id.clone(), client_order_id: self.client_order_id.clone() }
    }
}

impl MapKey for IdempotencyKey {
    type Stored = IdempotencyKey;

    type Id = (Seq<char>, Seq<char>);

    open spec fn id(&self) -> (Seq<char>, Seq<char>) {
        (self.trader_id@, self.client_order_id@)
    }

    open spec fn stored_id(stored: &IdempotencyKey) -> (Seq<char>, Seq<char>) {
        (stored.trader_id@, stored.client_order_id@)
    }

    open spec fn before(a: (Seq<char>, Seq<char>), b: (Seq<char>, Seq<char>)) -> bool {
        pair_before(a, b)
    }

    proof fn before_irreflexive(a: (Seq<char>, Seq<char>)) {
        lemma_pair_irreflexive(a);
    }

    proof fn before_transitive(a: (Seq<char>, Seq<char>), b: (Seq<char>, Seq<char>), c: (Seq<char>, Seq<char>)) {
        lemma_pair_transitive(a, b, c);
    }

    proof fn before_total(a: (Seq<char>, Seq<char>), b: (Seq<char>, Seq<char>)) {
        lemma_pair_total(a, b);
    }

    fn borrowed(stored: &IdempotencyKey) -> &IdempotencyKey {
        stored
    }

    fn rank(&self, other: &IdempotencyKey) -> Rank {
        compare_pairs(
            (self.trader_id.as_str(), self.client_order_id.as_str()),
            (other.trader_id.as_str(), other.client_order_id.as_str()),
        )
    }
}

/// What was answered to an accepted submission.
#[derive(Debug)]
pub struct IdempotencyRecord {
    /// The sequence number of its acceptance.
    pub original_seq_id: u64,
    pub order_id: OrderId,
    pub order_hash: OrderHash,
    pub accepted_at_ms: u64,
}

impl Clone for IdempotencyRecord {
    fn clone(&self) -> (copy: IdempotencyRecord)
        ensures
            copy == *self,
    {
        IdempotencyRecord {
            original_seq_id: self.original_seq_id,
            order_id: self.order_id.clone(),
            order_hash: self.order_hash,
            accepted_at_ms: self.accepted_at_ms,
        }
    }
}

/// What a sequencer holds.
pub struct SequencerModel {
    /// The sequence number of the next event.
    pub next: u64,
    pub log: Seq<SequencedEvent>,
    /// The accepted submissions, by trader and client order id.
    pub accepted: Map<(Seq<char>, Seq<char>), IdempotencyRecord>,
}

impl SequencerModel {
    /// The sequence numbers of the log run without a gap up to the next one.
    pub open spec fn contiguous(self) -> bool {
        forall|i: int| 0 <= i < self.log.len() ==> (#[trigger] self.log[i]).seq_id == self.next - self.log.len() + i
    }

    /// The state after `event` is appended at time `timestamp_ms`.
    pub open spec fn append(self, event: Event, timestamp_ms: u64) -> SequencerModel {
        SequencerModel {
            next: (self.next + 1) as u64,
            log: self.log.push(SequencedEvent { seq_id: self.next, timestamp_ms, event }),
            ..self
        }
    }
}

/// The accepted submissions that a log tells of. A later acceptance under the
/// same key takes the place of an earlier one.
pub open spec fn accepted_in(log: Seq<SequencedEvent>) -> Map<(Seq<char>, Seq<char>), IdempotencyRecord>
    decreases log.len(),
{
    if log.len() == 0 {
        Map::empty()
    } else {
        let before = accepted_in(log.drop_last());
        let last = log.last();
        match last.event {
            Event::OrderAccepted { order } => before.insert(
                (order.trader_id@, order.client_order_id@),
                IdempotencyRecord {
                    original_seq_id: last.seq_id,
                    order_id: order.order_id,
                    order_hash: order.order_hash,
                    accepted_at_ms: last.timestamp_ms,
                },
            ),
            _ => before,
        }
    }
}

/// The single writer of the log.
pub struct Sequencer {
    next_seq_id: u64,
    /// The log, oldest event first. It only ever grows.
    pub log: Vec<SequencedEvent>,
    idempotency: OrdMap<IdempotencyKey, IdempotencyRecord>,
}

impl View for Sequencer {
    type V = SequencerModel;

    closed spec fn view(&self) -> SequencerModel {
        SequencerModel { next: self.next_seq_id, log: self.log@, accepted: self.idempotency@ }
    }
}

impl Default for Sequencer {
    fn default() -> (s: Sequencer)
        ensures
            s@ == (SequencerModel { next: 1, log: Seq::empty(), accepted: Map::empty() }),
    {
        Sequencer::new()
    }
}

impl Sequencer {
    /// A sequencer with an empty log. Its first event gets number 1.
    pub fn new() -> (s: Sequencer)
        ensures
            s@ == (SequencerModel { next: 1, log: Seq::empty(), accepted: Map::empty() }),
            s@.contiguous(),
    {
        Sequencer { next_seq_id: 1, log: Vec::new(), idempotency: OrdMap::new() }
    }

    /// A sequencer that goes on after `log`, with the accepted submissions that
    /// the log tells of. `resume_from_seq_id` is the number of its next event.
    pub fn resume(resume_from_seq_id: u64, log: Vec<SequencedEvent>) -> (s: Sequencer)
        ensures
            s@ == (SequencerModel { next: resume_from_seq_id, log: log@, accepted: accepted_in(log@) }),
    {
        let mut idempotency: OrdMap<IdempotencyKey, IdempotencyRecord> = OrdMap::new();
        let mut i: usize = 0;
        while i < log.len()
            invariant
                i <= log@.len(),
                idempotency@ == accepted_in(log@.take(i as int)),
            decreases log@.len() - i,
        {
            let ev = &log[i];
            proof {
                let so_far = log@.take(i + 1);
                assert(so_far.drop_last() =~= log@.take(i as int));
                assert(so_far.last() == log@[i as int]);
            }
            match &ev.event {
                Event::OrderAccepted { order } => {
                    let key = IdempotencyKey {
                        trader_id: order.trader_id.clone(),
                        client_order_id: order.client_order_id.clone(),
                    };
                    let record = IdempotencyRecord {
                        original_seq_id: ev.seq_id,
                        order_id: order.order_id.clone(),
                        order_hash: order.order_hash,
                        accepted_at_ms: ev.timestamp_ms,
                    };
                    idempotency.insert(key, record);
                },
                _ => {},
            }
            i = i + 1;
        }
        proof {
            assert(log@.take(i as int) =~= log@);
        }
        Sequencer { next_seq_id: resume_from_seq_id, log, idempotency }
    }

    /// The number that the next event will get.
    pub fn peek_next_seq_id(&self) -> (n: u64)
        ensures
            n == self@.next,
    {
        self.next_seq_id
    }

    /// Append an event under the next number, stamped with the system time.
    pub fn append_event(&mut self, event: Event) -> (appended: &SequencedEvent)
        requires
            old(self)@.next < u64::MAX,
        ensures
            exists|timestamp_ms: u64| final(self)@ == #[trigger] old(self)@.append(event, timestamp_ms),
            *appended == final(self)@.log.last(),
            old(self)@.contiguous() ==> final(self)@.contiguous(),
    {
        let timestamp_ms: u64 = current_time_ms();
        let seq_id: u64 = self.next_seq_id;
        self.next_seq_id = seq_id + 1;
        self.log.push(SequencedEvent { seq_id, timestamp_ms, event });
        proof {
            assert(self@ == old(self)@.append(event, timestamp_ms));
        }
        &self.log[self.log.len() - 1]
    }

    /// What was answered to an earlier submission under the same key, if there
    /// was one.
    pub fn idempotency_check(&self, trader_id: &str, client_order_id: &str) -> (r: Option<&IdempotencyRecord>)
        ensures
            match r {
                Some(record) => self@.accepted.contains_key((trader_id@, client_order_id@)) && *record
                    == self@.accepted[(trader_id@, client_order_id@)],
                None => !self@.accepted.contains_key((trader_id@, client_order_id@)),
            },
    {
        let key = IdempotencyKey {
            trader_id: trader_id.to_owned(),
            client_order_id: client_order_id.to_owned(),
        };
        self.idempotency.get(&key)
    }

    /// Remember what was answered to a submission.
    pub fn register_accepted(
        &mut self,
        trader_id: &str,
        client_order_id: &str,
        seq_id: u64,
        order_id: OrderId,
        order_hash: OrderHash,
        accepted_at_ms: u64,
    )
        ensures
            final(self)@ == (SequencerModel {
                accepted: old(self)@.accepted.insert(
                    (trader_id@, client_order_id@),
                    IdempotencyRecord { original_seq_id: seq_id, order_id, order_hash, accepted_at_ms },
                ),
                ..old(self)@
            }),
    {
        let key = IdempotencyKey {
            trader_id: trader_id.to_owned(),
            client_order_id: client_order_id.to_owned(),
        };
        self.idempotency.insert(
            key,
            IdempotencyRecord { original_seq_id: seq_id, order_id, order_hash, accepted_at_ms },
        );
    }

    /// The log, oldest event first.
    pub fn events(&self) -> (log: &[SequencedEvent])
        ensures
            log@ == self@.log,
    {
        self.log.as_slice()
    }

    /// The number of events in the log.
    pub fn len(&self) -> (n: usize)
        ensures
            n == self@.log.len(),
    {
        self.log.len()
    }

    pub fn is_empty(&self) -> (b: bool)
        ensures
            b == (self@.log.len() == 0),
    {
        self.log.len() == 0
    }
}

/// In a log without gaps the numbers are strictly ascending.
pub proof fn law_seq_ids_ascend(s: SequencerModel, i: int, j: int)
    requires
        s.contiguous(),
        0 <= i < j < s.log.len(),
    ensures
        s.log[i].seq_id < s.log[j].seq_id,
        s.log[j].seq_id - s.log[i].seq_id == j - i,
{
}

/// Appending puts the event at the end of the log under the next number, and that number
/// goes up by one; what was in the log and what was accepted stays.
pub proof fn law_append(s: SequencerModel, event: Event, timestamp_ms: u64)
    requires
        s.next < u64::MAX,
    ensures
        ({
            let after = s.append(event, timestamp_ms);
            &&& after.log.len() == s.log.len() + 1
            &&& after.log.drop_last() == s.log
            &&& after.log.last().seq_id == s.next
            &&& after.log.last().event == event
            &&& after.log.last().timestamp_ms == timestamp_ms
            &&& after.next == s.next + 1
            &&& after.accepted == s.accepted
        }),
{
    assert(s.append(event, timestamp_ms).log.drop_last() =~= s.log);
}

/// The numbers of a log without gaps end one before the next number.
pub proof fn law_numbers_end_before_next(s: SequencerModel)
    requires
        s.contiguous(),
    ensures
        s.log.len() > 0 ==> s.log.last().seq_id == s.next - 1,
        forall|i: int| 0 <= i < s.log.len() - 1 ==> (#[trigger] s.log[i]).seq_id + 1 == s.log[i + 1].seq_id,
{
    if s.log.len() > 0 {
        assert(s.log[s.log.len() - 1] == s.log.last());
    }
}

/// A log remembers exactly the submissions that it accepts: a submission is remembered
/// where some event accepts it, with the id, the hash, the number and the time of the last
/// such event.
pub proof fn law_log_remembers_acceptances(log: Seq<SequencedEvent>, key: (Seq<char>, Seq<char>), k: int)
    ensures
        accepted_in(log).contains_key(key) ==> exists|i: int| #[trigger] accepts(log, key, i),
        accepts(log, key, k) ==> accepted_in(log).contains_key(key),
        accepts(log, key, k) && (forall|i: int| k < i < log.len() ==> !#[trigger] accepts(log, key, i)) ==> {
            let order = log[k].event->OrderAccepted_order;
            let record = accepted_in(log)[key];
            &&& record.original_seq_id == log[k].seq_id
            &&& record.order_id == order.order_id
            &&& record.order_hash == order.order_hash
            &&& record.accepted_at_ms == log[k].timestamp_ms
        },
    decreases log.len(),
{
    if log.len() > 0 {
        let init = log.drop_last();
        let n = log.len() - 1;
        law_log_remembers_acceptances(init, key, k);
        assert(log[n] == log.last());
        assert forall|i: int| 0 <= i < n implies accepts(init, key, i) == accepts(log, key, i) by {
            assert(init[i] == log[i]);
        }
        if accepted_in(log).contains_key(key) && !accepts(log, key, n) {
            assert(accepted_in(init).contains_key(key));
            let i = choose|i: int| #[trigger] accepts(init, key, i);
            assert(accepts(log, key, i));
        }
        if accepts(log, key, k) && (forall|i: int| k < i < log.len() ==> !#[trigger] accepts(log, key, i)) && k < n {
            assert(!accepts(log, key, n));
            assert forall|i: int| k < i < init.len() implies !#[trigger] accepts(init, key, i) by {
                assert(!accepts(log, key, i));
            }
        }
    }
}

/// The `i`-th event of `log` accepts the submission `key`.
pub open spec fn accepts(log: Seq<SequencedEvent>, key: (Seq<char>, Seq<char>), i: int) -> bool {
    0 <= i < log.len() && (log[i].event matches Event::OrderAccepted { order } && order.trader_id@ == key.0
        && order.client_order_id@ == key.1)
}

} // verus!
