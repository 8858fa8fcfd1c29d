//! What the outside sees: answers to requests, and the feed of events.
use crate::events::{event_type_tag, law_tags_tell_apart, Event, SequencedEvent};
use crate::keys::same_text;
use serde_json::Value;
use vstd::prelude::*;
use vstd::string::StringExecFns;

pub mod laws;
pub mod rest;
pub mod ws;

verus! {

/// How many envelopes a slow reader of the feed may fall behind.
pub const BROADCAST_CAPACITY: usize = 4_096;

/// A JSON value, carried through as it is.
#[verifier::external_type_specification]
#[verifier::external_body]
pub struct ExValue(serde_json::Value);

/// `<serde_json::Value as Clone>::clone`: the copy is the value.
#[verifier::external_body]
pub(crate) fn copy_value(value: &Value) -> (copy: Value)
    ensures
        copy == *value,
{
    value.clone()
}

/// One event on one channel of the feed.
#[derive(Debug)]
pub struct WsEnvelope {
    /// The stream that the envelope belongs to:
    ///
    ///  - `book.l3.{market}` for accepted orders,
    ///  - `trades.{market}` for fills,
    ///  - `orders.{trader}` for what concerns one trader,
    ///  - `market.{market}` for changes of a market's status,
    ///  - `cancels` for cancels.
    pub channel: String,
    /// The number of the event.
    pub sequence_id: u64,
    /// The name of the kind of the event.
    pub event_type: String,
    /// The event in JSON.
    pub payload: Value,
    /// The time stamp of the event.
    pub timestamp_ms: u64,
}

impl Clone for WsEnvelope {
    fn clone(&self) -> (copy: WsEnvelope)
        ensures
            copy == *self,
    {
        WsEnvelope {
            channel: self.channel.clone(),
            sequence_id: self.sequence_id,
            event_type: self.event_type.clone(),
            payload: copy_value(&self.payload),
            timestamp_ms: self.timestamp_ms,
        }
    }
}

/// The channels that an event is published on. A fill goes to both traders, and
/// only once where they are the same.
pub open spec fn channels(event: Event) -> Seq<Seq<char>> {
    match event {
        Event::OrderAccepted { order } => seq![
            "book.l3."@ + order.market_id.0@,
            "orders."@ + order.trader_id@,
        ],
        Event::Fill(fill) => if fill.maker_trader_id@ == fill.taker_trader_id@ {
            seq!["trades."@ + fill.market_id.0@, "orders."@ + fill.taker_trader_id@]
        } else {
            seq![
                "trades."@ + fill.market_id.0@,
                "orders."@ + fill.taker_trader_id@,
                "orders."@ + fill.maker_trader_id@,
            ]
        },
        Event::OrderCancelled { .. } => seq!["cancels"@],
        Event::OrderRejected { trader_id, .. } => seq!["orders."@ + trader_id@],
        Event::MarketPaused { market_id, .. } => seq!["market."@ + market_id.0@],
        Event::MarketResumed { market_id, .. } => seq!["market."@ + market_id.0@],
    }
}

impl WsEnvelope {
    /// The envelope carries `se`, with `payload`, on `channel`.
    pub open spec fn carries(&self, se: SequencedEvent, payload: Value, channel: Seq<char>) -> bool {
        &&& self.channel@ == channel
        &&& self.sequence_id == se.seq_id
        &&& self.event_type@ == se.event.tag()
        &&& self.payload == payload
        &&& self.timestamp_ms == se.timestamp_ms
    }

    fn on(se: &SequencedEvent, payload: &Value, prefix: &str, name: &str) -> (envelope: WsEnvelope)
        ensures
            envelope.carries(*se, *payload, prefix@ + name@),
    {
        let mut channel = prefix.to_owned();
        channel.append(name);
        WsEnvelope {
            channel,
            sequence_id: se.seq_id,
            event_type: event_type_tag(&se.event).to_owned(),
            payload: copy_value(payload),
            timestamp_ms: se.timestamp_ms,
        }
    }

    /// The envelopes of an event, one for each of its channels. `payload` is the
    /// event in JSON; an event that has none is not published.
    pub fn from_sequenced(se: &SequencedEvent, payload: Option<Value>) -> (envelopes: Vec<WsEnvelope>)
        ensures
            match payload {
                Some(payload) => {
                    &&& envelopes@.len() == channels(se.event).len()
                    &&& forall|i: int|
                        0 <= i < envelopes@.len() ==> (#[trigger] envelopes@[i]).carries(
                            *se,
                            payload,
                            channels(se.event)[i],
                        )
                },
                None => envelopes@.len() == 0,
            },
    {
        let mut envelopes: Vec<WsEnvelope> = Vec::new();
        let payload = match payload {
            Some(payload) => payload,
            None => {
                return envelopes;
            },
        };
        match &se.event {
            Event::OrderAccepted { order } => {
                envelopes.push(WsEnvelope::on(se, &payload, "book.l3.", order.market_id.0.as_str()));
                envelopes.push(WsEnvelope::on(se, &payload, "orders.", order.trader_id.as_str()));
            },
            Event::Fill(fill) => {
                envelopes.push(WsEnvelope::on(se, &payload, "trades.", fill.market_id.0.as_str()));
                envelopes.push(WsEnvelope::on(se, &payload, "orders.", fill.taker_trader_id.as_str()));
                if !same_text(fill.maker_trader_id.as_str(), fill.taker_trader_id.as_str()) {
                    envelopes.push(WsEnvelope::on(se, &payload, "orders.", fill.maker_trader_id.as_str()));
                }
            },
            Event::OrderCancelled { .. } => {
                proof {
                    reveal_strlit("");
                    assert("cancels"@ + ""@ =~= "cancels"@);
                }
                envelopes.push(WsEnvelope::on(se, &payload, "cancels", ""));
            },
            Event::OrderRejected { trader_id, .. } => {
                envelopes.push(WsEnvelope::on(se, &payload, "orders.", trader_id.as_str()));
            },
            Event::MarketPaused { market_id, .. } => {
                envelopes.push(WsEnvelope::on(se, &payload, "market.", market_id.0.as_str()));
            },
            Event::MarketResumed { market_id, .. } => {
                envelopes.push(WsEnvelope::on(se, &payload, "market.", market_id.0.as_str()));
            },
        }
        envelopes
    }
}

/// No event is published twice on one channel.
pub proof fn law_channels_distinct(event: Event, i: int, j: int)
    requires
        0 <= i < j < channels(event).len(),
    ensures
        channels(event)[i] != channels(event)[j],
{
    reveal_strlit("book.l3.");
    reveal_strlit("orders.");
    reveal_strlit("trades.");
    let a = channels(event)[i];
    let b = channels(event)[j];
    match event {
        Event::OrderAccepted { order } => {
            assert(a[0] == 'b' && b[0] == 'o');
        },
        Event::Fill(fill) => {
            if i == 0 {
                assert(a[0] == 't' && b[0] == 'o');
            } else {
                assert(a.skip(7) =~= fill.taker_trader_id@);
                assert(b.skip(7) =~= fill.maker_trader_id@);
            }
        },
        _ => {},
    }
}

/// Those events of `log` whose number is `from` or higher.
pub open spec fn from_number(log: Seq<SequencedEvent>, from: int) -> Seq<SequencedEvent>
    decreases log.len(),
{
    if log.len() == 0 {
        log
    } else if log.last().seq_id >= from {
        from_number(log.drop_last(), from).push(log.last())
    } else {
        from_number(log.drop_last(), from)
    }
}

/// The events after number `seq_before`: what is to be published and stored
/// after an operation on the engine.
pub fn events_since(log: &[SequencedEvent], seq_before: u64) -> (events: Vec<SequencedEvent>)
    ensures
        events@ == from_number(log@, seq_before + 1),
{
    if seq_before == u64::MAX {
        let events: Vec<SequencedEvent> = Vec::new();
        proof {
            lemma_none_before(log@, u64::MAX + 1);
            assert(events@ =~= Seq::<SequencedEvent>::empty());
        }
        return events;
    }
    events_from(log, seq_before + 1)
}

/// The events from number `from_seq` on.
pub fn events_from(log: &[SequencedEvent], from_seq: u64) -> (events: Vec<SequencedEvent>)
    ensures
        events@ == from_number(log@, from_seq as int),
{
    let mut events: Vec<SequencedEvent> = Vec::new();
    let mut i: usize = 0;
    proof {
        assert(log@.take(0) =~= Seq::<SequencedEvent>::empty());
    }
    while i < log.len()
        invariant
            i <= log@.len(),
            events@ == from_number(log@.take(i as int), from_seq as int),
        decreases log@.len() - i,
    {
        proof {
            let next = log@.take(i + 1);
            assert(next.drop_last() =~= log@.take(i as int));
            assert(next.last() == log@[i as int]);
        }
        if log[i].seq_id >= from_seq {
            events.push(log[i].clone());
        }
        i = i + 1;
    }
    proof {
        assert(log@.take(i as int) =~= log@);
    }
    events
}

/// Nothing is lost between operations: where `after` goes on from `before` with
/// numbers from `next` on, the events since then are exactly those that were
/// appended.
pub proof fn law_new_events_are_announced(before: Seq<SequencedEvent>, after: Seq<SequencedEvent>, next: int)
    requires
        before.is_prefix_of(after),
        forall|i: int| 0 <= i < before.len() ==> (#[trigger] after[i]).seq_id < next,
        forall|i: int| before.len() <= i < after.len() ==> (#[trigger] after[i]).seq_id >= next,
    ensures
        from_number(after, next) == after.skip(before.len() as int),
    decreases after.len(),
{
    let n = before.len() as int;
    if after.len() == 0 {
        assert(after.skip(n) =~= after);
    } else {
        let init = after.drop_last();
        assert(after[after.len() - 1] == after.last());
        if after.len() > before.len() {
            assert(before =~= init.take(n));
            assert forall|i: int| 0 <= i < before.len() implies (#[trigger] init[i]).seq_id < next by {
                assert(init[i] == after[i]);
            }
            assert forall|i: int| before.len() <= i < init.len() implies (#[trigger] init[i]).seq_id >= next by {
                assert(init[i] == after[i]);
            }
            law_new_events_are_announced(before, init, next);
            assert(after.skip(n) =~= init.skip(n).push(after.last()));
        } else {
            lemma_none_before(after, next);
            assert(after.skip(n) =~= Seq::<SequencedEvent>::empty());
        }
    }
}

proof fn lemma_none_before(log: Seq<SequencedEvent>, next: int)
    requires
        forall|i: int| 0 <= i < log.len() ==> (#[trigger] log[i]).seq_id < next,
    ensures
        from_number(log, next) == Seq::<SequencedEvent>::empty(),
    decreases log.len(),
{
    if log.len() > 0 {
        let init = log.drop_last();
        assert forall|i: int| 0 <= i < init.len() implies (#[trigger] init[i]).seq_id < next by {
            assert(init[i] == log[i]);
        }
        assert(log[log.len() - 1] == log.last());
        lemma_none_before(init, next);
    } else {
        assert(log =~= Seq::<SequencedEvent>::empty());
    }
}

/// Who is told of an event: an acceptance comes up on the book of its market and with its
/// trader; a fill with the trades of its market and with both traders; a cancel among the
/// cancels; a rejection with its trader; a pause or a resumption with its market; and none
/// of them anywhere else.
pub proof fn law_who_is_told(event: Event, channel: Seq<char>)
    ensures
        channels(event).contains(channel) <==> match event {
            Event::OrderAccepted { order } => channel == "book.l3."@ + order.market_id.0@ || channel == "orders."@
                + order.trader_id@,
            Event::OrderRejected { trader_id, .. } => channel == "orders."@ + trader_id@,
            Event::Fill(fill) => channel == "trades."@ + fill.market_id.0@ || channel == "orders."@
                + fill.taker_trader_id@ || channel == "orders."@ + fill.maker_trader_id@,
            Event::OrderCancelled { .. } => channel == "cancels"@,
            Event::MarketPaused { market_id, .. } => channel == "market."@ + market_id.0@,
            Event::MarketResumed { market_id, .. } => channel == "market."@ + market_id.0@,
        },
{
    let all = channels(event);
    assert(all.len() > 0 && all.contains(all[0]));
    if all.len() > 1 {
        assert(all.contains(all[1]));
    }
    if all.len() > 2 {
        assert(all.contains(all[2]));
    }
    assert(all.len() <= 3);
    if all.contains(channel) {
        let i = choose|i: int| 0 <= i < all.len() && all[i] == channel;
        assert(i == 0 || i == 1 || i == 2);
    }
}

/// The events from a number on are the events of the log that have it or a higher one, in
/// their order.
pub proof fn law_from_number_is_filter(log: Seq<SequencedEvent>, from: int)
    ensures
        from_number(log, from) == log.filter(|se: SequencedEvent| se.seq_id >= from),
{
    lemma_from_number_is_filter(log, from, |se: SequencedEvent| se.seq_id >= from);
}

proof fn lemma_from_number_is_filter(log: Seq<SequencedEvent>, from: int, keep: spec_fn(SequencedEvent) -> bool)
    requires
        forall|se: SequencedEvent| #[trigger] keep(se) == (se.seq_id >= from),
    ensures
        from_number(log, from) == log.filter(keep),
    decreases log.len(),
{
    reveal(Seq::filter);
    if log.len() > 0 {
        lemma_from_number_is_filter(log.drop_last(), from, keep);
        assert(keep(log.last()) == (log.last().seq_id >= from));
    } else {
        assert(log =~= Seq::<SequencedEvent>::empty());
    }
}

/// An envelope tells the number, the time and the kind of its event.
pub proof fn law_envelope_tells(envelope: WsEnvelope, se: SequencedEvent, payload: Value, channel: Seq<char>)
    requires
        envelope.carries(se, payload, channel),
    ensures
        envelope.channel@ == channel,
        envelope.sequence_id == se.seq_id,
        envelope.timestamp_ms == se.timestamp_ms,
        envelope.payload == payload,
        envelope.event_type@ == "fill"@ <==> se.event is Fill,
        envelope.event_type@ == "order_accepted"@ <==> se.event is OrderAccepted,
        envelope.event_type@ == "order_rejected"@ <==> se.event is OrderRejected,
        envelope.event_type@ == "order_cancelled"@ <==> se.event is OrderCancelled,
        envelope.event_type@ == "market_paused"@ <==> se.event is MarketPaused,
        envelope.event_type@ == "market_resumed"@ <==> se.event is MarketResumed,
{
    law_tags_tell_apart(se.event, se.event);
}

} // verus!
