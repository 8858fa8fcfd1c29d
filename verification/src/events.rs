//! The events of the log. Every change of state is one, and the log of them is
//! what all other state is derived from.
use crate::domain::market::MarketId;
use crate::domain::order::{Fill, Order, OrderHash, OrderId};
use vstd::prelude::*;

verus! {

/// Why an order was cancelled.
#[derive(Debug, Clone, Copy, PartialEq, Eq, Structural)]
pub enum CancelReason {
    /// The trader asked for it.
    TraderRequest,
    /// Its time had passed.
    Expired,
    /// It would have matched an order of its own trader.
    SelfTradePrevention,
    /// An operator asked for it.
    AdminForce,
}

/// A change of state. Orders and fills are held whole, so that a log can be
/// replayed on its own.
#[derive(Debug)]
#[allow(inconsistent_fields)]
pub enum Event {
    OrderAccepted { order: Order },
    OrderRejected { client_order_id: String, trader_id: String, reason: String },
    Fill(Fill),
    OrderCancelled { order_id: OrderId, order_hash: OrderHash, reason: CancelReason },
    MarketPaused { market_id: MarketId, triggered_by: String },
    MarketResumed { market_id: MarketId, triggered_by: String },
}

impl Clone for Event {
    fn clone(&self) -> (copy: Event)
        ensures
            copy == *self,
    {
        match self {
            Event::OrderAccepted { order } => Event::OrderAccepted { order: order.clone() },
            Event::OrderRejected { client_order_id, trader_id, reason } => Event::OrderRejected {
                client_order_id: client_order_id.clone(),
                trader_id: trader_id.clone(),
                reason: reason.clone(),
            },
            Event::Fill(fill) => Event::Fill(fill.clone()),
            Event::OrderCancelled { order_id, order_hash, reason } => Event::OrderCancelled {
                order_id: order_id.clone(),
                order_hash: *order_hash,
                reason: *reason,
            },
            Event::MarketPaused { market_id, triggered_by } => Event::MarketPaused {
                market_id: market_id.clone(),
                triggered_by: triggered_by.clone(),
            },
            Event::MarketResumed { market_id, triggered_by } => Event::MarketResumed {
                market_id: market_id.clone(),
                triggered_by: triggered_by.clone(),
            },
        }
    }
}

impl Event {
    /// The market that the event names. Rejections name none, and a cancel names
    /// only its order.
    pub open spec fn market(&self) -> Option<MarketId> {
        match self {
            Event::OrderAccepted { order } => Some(order.market_id),
            Event::OrderRejected { .. } => None,
            Event::Fill(fill) => Some(fill.market_id),
            Event::OrderCancelled { .. } => None,
            Event::MarketPaused { market_id, .. } => Some(*market_id),
            Event::MarketResumed { market_id, .. } => Some(*market_id),
        }
    }

    /// The market that the event names, if it names one.
    pub fn market_id(&self) -> (r: Option<&MarketId>)
        ensures
            match r {
                Some(id) => self.market() == Some(*id),
                None => self.market() is None,
            },
    {
        match self {
            Event::OrderAccepted { order } => Some(&order.market_id),
            Event::OrderRejected { .. } => None,
            Event::Fill(fill) => Some(&fill.market_id),
            Event::OrderCancelled { .. } => None,
            Event::MarketPaused { market_id, .. } => Some(market_id),
            Event::MarketResumed { market_id, .. } => Some(market_id),
        }
    }

    /// The name of the kind of an event, as stored and published.
    pub open spec fn tag(&self) -> Seq<char> {
        match self {
            Event::OrderAccepted { .. } => "order_accepted"@,
            Event::OrderRejected { .. } => "order_rejected"@,
            Event::Fill(_) => "fill"@,
            Event::OrderCancelled { .. } => "order_cancelled"@,
            Event::MarketPaused { .. } => "market_paused"@,
            Event::MarketResumed { .. } => "market_resumed"@,
        }
    }
}

/// The name of the kind of an event.
pub fn event_type_tag(event: &Event) -> (s: &'static str)
    ensures
        s@ == event.tag(),
{
    match event {
        Event::OrderAccepted { .. } => "order_accepted",
        Event::OrderRejected { .. } => "order_rejected",
        Event::Fill(_) => "fill",
        Event::OrderCancelled { .. } => "order_cancelled",
        Event::MarketPaused { .. } => "market_paused",
        Event::MarketResumed { .. } => "market_resumed",
    }
}

/// An event with its place in the total order of events.
#[derive(Debug)]
pub struct SequencedEvent {
    /// Starts at 1, never repeats, never skips.
    pub seq_id: u64,
    /// When the event was sequenced; for information.
    pub timestamp_ms: u64,
    pub event: Event,
}

impl Clone for SequencedEvent {
    fn clone(&self) -> (copy: SequencedEvent)
        ensures
            copy == *self,
    {
        SequencedEvent { seq_id: self.seq_id, timestamp_ms: self.timestamp_ms, event: self.event.clone() }
    }
}

/// A copy of a list of events.
pub fn copy_events(events: &[SequencedEvent]) -> (copy: Vec<SequencedEvent>)
    ensures
        copy@ == events@,
{
    let mut copy: Vec<SequencedEvent> = Vec::new();
    let mut i: usize = 0;
    while i < events.len()
        invariant
            i <= events@.len(),
            copy@ == events@.take(i as int),
        decreases events@.len() - i,
    {
        copy.push(events[i].clone());
        i = i + 1;
        proof {
            assert(copy@ =~= events@.take(i as int));
        }
    }
    proof {
        assert(events@.take(i as int) =~= events@);
    }
    copy
}

/// An event names the market of the order it accepts, of its fill, or that it pauses or
/// resumes; a rejection and a cancel name none.
pub proof fn law_event_names_market(event: Event)
    ensures
        match event.market() {
            Some(id) => match event {
                Event::OrderAccepted { order } => order.market_id == id,
                Event::Fill(fill) => fill.market_id == id,
                Event::MarketPaused { market_id, .. } => market_id == id,
                Event::MarketResumed { market_id, .. } => market_id == id,
                _ => false,
            },
            None => event is OrderRejected || event is OrderCancelled,
        },
{
}

/// Events of different kinds have different names, and events of one kind the same.
pub proof fn law_tags_tell_apart(a: Event, b: Event)
    ensures
        a.tag() == b.tag() <==> {
            ||| a is OrderAccepted && b is OrderAccepted
            ||| a is OrderRejected && b is OrderRejected
            ||| a is Fill && b is Fill
            ||| a is OrderCancelled && b is OrderCancelled
            ||| a is MarketPaused && b is MarketPaused
            ||| a is MarketResumed && b is MarketResumed
        },
        a is OrderAccepted <==> a.tag() == "order_accepted"@,
        a is OrderRejected <==> a.tag() == "order_rejected"@,
        a is Fill <==> a.tag() == "fill"@,
        a is OrderCancelled <==> a.tag() == "order_cancelled"@,
        a is MarketPaused <==> a.tag() == "market_paused"@,
        a is MarketResumed <==> a.tag() == "market_resumed"@,
{
    reveal_strlit("order_accepted");
    reveal_strlit("order_rejected");
    reveal_strlit("fill");
    reveal_strlit("order_cancelled");
    reveal_strlit("market_paused");
    reveal_strlit("market_resumed");
    let accepted = "order_accepted"@;
    let rejected = "order_rejected"@;
    let paused = "market_paused"@;
    let resumed = "market_resumed"@;
    assert(accepted.len() == 14 && rejected.len() == 14 && "fill"@.len() == 4 && "order_cancelled"@.len() == 15);
    assert(paused.len() == 13 && resumed.len() == 14);
    assert(accepted[6] == 'a' && rejected[6] == 'r');
    assert(accepted[0] == 'o' && rejected[0] == 'o' && resumed[0] == 'm');
}

} // verus!
