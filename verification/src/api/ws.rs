//! The feed: which messages a connection is sent.
//!
//! A client subscribes to channels and is sent the envelopes that come up on
//! them. It can ask for what it missed by giving the number to start from.
use crate::api::{channels, copy_value, law_who_is_told, WsEnvelope};
use crate::events::SequencedEvent;
use crate::keys::same_text;
use crate::ordmap::OrdMap;
use serde_json::Value;
use vstd::prelude::*;
use vstd::string::StringExecFns;

verus! {

/// What a client says.
#[derive(Debug)]
pub enum ClientMsg {
    /// Send what comes up on a channel; before that, where `from_seq` is not 0,
    /// what came up since that number.
    Subscribe { channel: String, from_seq: u64 },
    Unsubscribe { channel: String },
    Ping,
}

/// What a client is told.
#[derive(Debug)]
pub enum ServerMsg {
    Subscribed { channel: String },
    Unsubscribed { channel: String },
    Event(WsEnvelope),
    Error { code: &'static str, message: String },
    Pong,
    Disconnected { reason: &'static str },
}

/// The channels that a connection has subscribed to.
pub struct Subscriptions {
    channels: OrdMap<str, bool>,
}

impl View for Subscriptions {
    type V = Set<Seq<char>>;

    closed spec fn view(&self) -> Set<Seq<char>> {
        self.channels@.dom()
    }
}

impl Subscriptions {
    pub fn new() -> (s: Subscriptions)
        ensures
            s@ == Set::<Seq<char>>::empty(),
    {
        let s = Subscriptions { channels: OrdMap::new() };
        proof {
            assert(s@ =~= Set::<Seq<char>>::empty());
        }
        s
    }

    pub fn contains(&self, channel: &str) -> (b: bool)
        ensures
            b == self@.contains(channel@),
    {
        self.channels.contains_key(channel)
    }

    fn add(&mut self, channel: &str)
        ensures
            final(self)@ == old(self)@.insert(channel@),
    {
        self.channels.insert(channel.to_owned(), true);
        proof {
            assert(self@ =~= old(self)@.insert(channel@));
        }
    }

    fn drop_channel(&mut self, channel: &str)
        ensures
            final(self)@ == old(self)@.remove(channel@),
    {
        self.channels.remove(channel);
        proof {
            assert(self@ =~= old(self)@.remove(channel@));
        }
    }
}

/// What is to be done about a client's message: send the history of a channel
/// from a number on, if that is asked for, and then reply.
#[derive(Debug)]
pub struct Step {
    pub history: Option<(String, u64)>,
    pub reply: ServerMsg,
}

/// `step` is what is done about `msg`, and `after` what the connection is then
/// subscribed to. A message that could not be read comes with the reason.
pub open spec fn handles(
    before: Set<Seq<char>>,
    msg: Result<ClientMsg, String>,
    after: Set<Seq<char>>,
    step: Step,
) -> bool {
    match msg {
        Ok(ClientMsg::Subscribe { channel, from_seq }) => {
            &&& after == before.insert(channel@)
            &&& step.reply matches ServerMsg::Subscribed { channel: told } && told@ == channel@
            &&& from_seq > 0 ==> (step.history matches Some((asked, from)) && asked@ == channel@ && from == from_seq)
            &&& from_seq == 0 ==> step.history is None
        },
        Ok(ClientMsg::Unsubscribe { channel }) => {
            &&& after == before.remove(channel@)
            &&& step.reply matches ServerMsg::Unsubscribed { channel: told } && told@ == channel@
            &&& step.history is None
        },
        Ok(ClientMsg::Ping) => {
            &&& after == before
            &&& step.reply is Pong
            &&& step.history is None
        },
        Err(reason) => {
            &&& after == before
            &&& step.reply matches ServerMsg::Error { code, message } && code@ == "PARSE_ERROR"@ && message@
                == "could not parse message: "@ + reason@
            &&& step.history is None
        },
    }
}

/// Decide what is done about a client's message.
pub fn handle_client_message(msg: Result<ClientMsg, String>, subscriptions: &mut Subscriptions) -> (step: Step)
    ensures
        handles(old(subscriptions)@, msg, final(subscriptions)@, step),
{
    match msg {
        Ok(ClientMsg::Subscribe { channel, from_seq }) => {
            subscriptions.add(channel.as_str());
            let history = if from_seq > 0 {
                Some((channel.clone(), from_seq))
            } else {
                None
            };
            Step { history, reply: ServerMsg::Subscribed { channel } }
        },
        Ok(ClientMsg::Unsubscribe { channel }) => {
            subscriptions.drop_channel(channel.as_str());
            Step { history: None, reply: ServerMsg::Unsubscribed { channel } }
        },
        Ok(ClientMsg::Ping) => Step { history: None, reply: ServerMsg::Pong },
        Err(reason) => {
            let mut message = "could not parse message: ".to_owned();
            message.append(reason.as_str());
            Step { history: None, reply: ServerMsg::Error { code: "PARSE_ERROR", message } }
        },
    }
}

/// What comes from the client's side of a connection.
#[derive(Debug)]
pub enum Frame {
    /// A text, read as a message or with the reason why it could not be read.
    Text(Result<ClientMsg, String>),
    /// A frame of another kind.
    Other,
    /// The client closed the connection.
    Close,
    /// The connection is gone or could not be read.
    Gone,
}

/// Decide what is done about a frame: the step to take, if there is one, or
/// `Err` to close the connection. Frames other than texts are ignored.
pub fn handle_frame(frame: Frame, subscriptions: &mut Subscriptions) -> (r: Result<Option<Step>, ()>)
    ensures
        match frame {
            Frame::Text(msg) => r matches Ok(Some(step)) && handles(
                old(subscriptions)@,
                msg,
                final(subscriptions)@,
                step,
            ),
            Frame::Other => r matches Ok(step) && step is None && final(subscriptions)@ == old(subscriptions)@,
            Frame::Close => r is Err && final(subscriptions)@ == old(subscriptions)@,
            Frame::Gone => r is Err && final(subscriptions)@ == old(subscriptions)@,
        },
{
    match frame {
        Frame::Text(msg) => Ok(Some(handle_client_message(msg, subscriptions))),
        Frame::Other => Ok(None),
        Frame::Close => Err(()),
        Frame::Gone => Err(()),
    }
}

/// What comes from the feed.
#[derive(Debug)]
pub enum Received {
    Envelope(WsEnvelope),
    /// The connection fell too far behind.
    Lagged,
    /// The feed was shut down.
    Closed,
}

/// What is to be done about what came from the feed: send a message, if there is
/// one, and then close the connection or go on.
#[derive(Debug)]
pub struct FeedStep {
    pub send: Option<ServerMsg>,
    pub close: bool,
}

/// Decide what is done about what came from the feed. An envelope is sent where
/// its channel is subscribed to. A connection that fell behind is told and closed.
pub fn handle_received(received: Received, subscriptions: &Subscriptions) -> (step: FeedStep)
    ensures
        match received {
            Received::Envelope(envelope) => !step.close && (if subscriptions@.contains(envelope.channel@) {
                step.send == Some(ServerMsg::Event(envelope))
            } else {
                step.send is None
            }),
            Received::Lagged => step.close && (step.send matches Some(ServerMsg::Disconnected { reason }) && reason@
                == "lagged"@),
            Received::Closed => step.close && step.send is None,
        },
{
    match received {
        Received::Envelope(envelope) => {
            if subscriptions.contains(envelope.channel.as_str()) {
                FeedStep { send: Some(ServerMsg::Event(envelope)), close: false }
            } else {
                FeedStep { send: None, close: false }
            }
        },
        Received::Lagged => FeedStep { send: Some(ServerMsg::Disconnected { reason: "lagged" }), close: true },
        Received::Closed => FeedStep { send: None, close: true },
    }
}

/// The events of `log` from number `from` on that are published on `channel`,
/// with their payloads. An event without a payload is not published.
pub open spec fn history_of(log: Seq<(SequencedEvent, Option<Value>)>, channel: Seq<char>, from: u64) -> Seq<
    (SequencedEvent, Value),
>
    decreases log.len(),
{
    if log.len() == 0 {
        Seq::empty()
    } else {
        let before = history_of(log.drop_last(), channel, from);
        let (se, payload) = log.last();
        if se.seq_id >= from && payload is Some && channels(se.event).contains(channel) {
            before.push((se, payload->Some_0))
        } else {
            before
        }
    }
}

/// The envelope of `se` on `channel`, if it is published there.
fn envelope_on(se: &SequencedEvent, payload: &Option<Value>, channel: &str) -> (r: Option<WsEnvelope>)
    ensures
        match r {
            Some(envelope) => payload is Some && channels(se.event).contains(channel@) && envelope.carries(
                *se,
                payload->Some_0,
                channel@,
            ),
            None => payload is None || !channels(se.event).contains(channel@),
        },
{
    let copy = match payload {
        Some(value) => Some(copy_value(value)),
        None => None,
    };
    let envelopes = WsEnvelope::from_sequenced(se, copy);
    let mut i: usize = 0;
    while i < envelopes.len()
        invariant
            i <= envelopes@.len(),
            payload is Some ==> envelopes@.len() == channels(se.event).len(),
            payload is None ==> envelopes@.len() == 0,
            forall|j: int|
                0 <= j < envelopes@.len() ==> (#[trigger] envelopes@[j]).carries(
                    *se,
                    payload->Some_0,
                    channels(se.event)[j],
                ),
            forall|j: int| 0 <= j < i ==> #[trigger] channels(se.event)[j] != channel@,
        decreases envelopes@.len() - i,
    {
        if same_text(envelopes[i].channel.as_str(), channel) {
            proof {
                assert(envelopes@[i as int].carries(*se, payload->Some_0, channels(se.event)[i as int]));
                assert(channels(se.event)[i as int] == channel@);
            }
            return Some(envelopes[i].clone());
        }
        proof {
            assert(envelopes@[i as int].carries(*se, payload->Some_0, channels(se.event)[i as int]));
        }
        i = i + 1;
    }
    None
}

/// The messages that bring a client up to date on a channel: what was published
/// on it from number `from_seq` on. The log comes with the payload of each event.
pub fn replay_history(log: &Vec<(SequencedEvent, Option<Value>)>, channel: &str, from_seq: u64) -> (messages: Vec<ServerMsg>)
    ensures
        messages@.len() == history_of(log@, channel@, from_seq).len(),
        forall|i: int|
            0 <= i < messages@.len() ==> ((#[trigger] messages@[i]) matches ServerMsg::Event(envelope)
                && envelope.carries(
                history_of(log@, channel@, from_seq)[i].0,
                history_of(log@, channel@, from_seq)[i].1,
                channel@,
            )),
{
    let mut messages: Vec<ServerMsg> = Vec::new();
    let mut i: usize = 0;
    proof {
        assert(log@.take(0) =~= Seq::<(SequencedEvent, Option<Value>)>::empty());
    }
    while i < log.len()
        invariant
            i <= log@.len(),
            messages@.len() == history_of(log@.take(i as int), channel@, from_seq).len(),
            forall|j: int|
                0 <= j < messages@.len() ==> ((#[trigger] messages@[j]) matches ServerMsg::Event(envelope)
                    && envelope.carries(
                    history_of(log@.take(i as int), channel@, from_seq)[j].0,
                    history_of(log@.take(i as int), channel@, from_seq)[j].1,
                    channel@,
                )),
        decreases log@.len() - i,
    {
        let entry = &log[i];
        let ghost so_far = history_of(log@.take(i as int), channel@, from_seq);
        proof {
            let next = log@.take(i + 1);
            assert(next.drop_last() =~= log@.take(i as int));
            assert(next.last() == log@[i as int]);
        }
        if entry.0.seq_id >= from_seq {
            match envelope_on(&entry.0, &entry.1, channel) {
                Some(envelope) => {
                    messages.push(ServerMsg::Event(envelope));
                },
                None => {},
            }
        }
        i = i + 1;
    }
    proof {
        assert(log@.take(i as int) =~= log@);
    }
    messages
}

/// The history of a channel is made of the events of the log that have the number asked
/// for or a higher one, that have a payload, and that come up on the channel: all of
/// them, in their order, each with its payload.
pub proof fn law_history_is_filter(log: Seq<(SequencedEvent, Option<Value>)>, channel: Seq<char>, from: u64)
    ensures
        history_of(log, channel, from) == log.filter(
            |x: (SequencedEvent, Option<Value>)|
                x.0.seq_id >= from && x.1 is Some && channels(x.0.event).contains(channel),
        ).map_values(|x: (SequencedEvent, Option<Value>)| (x.0, x.1->Some_0)),
{
    lemma_history_is_filter(
        log,
        channel,
        from,
        |x: (SequencedEvent, Option<Value>)|
            x.0.seq_id >= from && x.1 is Some && channels(x.0.event).contains(channel),
        |x: (SequencedEvent, Option<Value>)| (x.0, x.1->Some_0),
    );
}

proof fn lemma_history_is_filter(
    log: Seq<(SequencedEvent, Option<Value>)>,
    channel: Seq<char>,
    from: u64,
    keep: spec_fn((SequencedEvent, Option<Value>)) -> bool,
    pair: spec_fn((SequencedEvent, Option<Value>)) -> (SequencedEvent, Value),
)
    requires
        forall|x: (SequencedEvent, Option<Value>)| #[trigger]
            keep(x) == (x.0.seq_id >= from && x.1 is Some && channels(x.0.event).contains(channel)),
        forall|x: (SequencedEvent, Option<Value>)| #[trigger] pair(x) == (x.0, x.1->Some_0),
    ensures
        history_of(log, channel, from) == log.filter(keep).map_values(pair),
    decreases log.len(),
{
    reveal(Seq::filter);
    if log.len() > 0 {
        let init = log.drop_last();
        let last = log.last();
        lemma_history_is_filter(init, channel, from, keep, pair);
        assert(keep(last) == (last.0.seq_id >= from && last.1 is Some && channels(last.0.event).contains(channel)));
        if keep(last) {
            assert(init.filter(keep).push(last).map_values(pair) =~= init.filter(keep).map_values(pair).push(pair(last)));
        }
    } else {
        assert(log.filter(keep).map_values(pair) =~= Seq::<(SequencedEvent, Value)>::empty());
    }
}

/// A fill that has a payload comes up in the history of both its traders and of its
/// market, from its number or an earlier one on.
pub proof fn law_history_tells_fills(log: Seq<(SequencedEvent, Option<Value>)>, i: int, from: u64)
    requires
        0 <= i < log.len(),
        log[i].0.event is Fill,
        log[i].1 is Some,
        from <= log[i].0.seq_id,
    ensures
        ({
            let fill = log[i].0.event->Fill_0;
            let told = (log[i].0, log[i].1->Some_0);
            &&& history_of(log, "trades."@ + fill.market_id.0@, from).contains(told)
            &&& history_of(log, "orders."@ + fill.taker_trader_id@, from).contains(told)
            &&& history_of(log, "orders."@ + fill.maker_trader_id@, from).contains(told)
        }),
{
    let fill = log[i].0.event->Fill_0;
    law_who_is_told(log[i].0.event, "trades."@ + fill.market_id.0@);
    law_who_is_told(log[i].0.event, "orders."@ + fill.taker_trader_id@);
    law_who_is_told(log[i].0.event, "orders."@ + fill.maker_trader_id@);
    lemma_in_history(log, "trades."@ + fill.market_id.0@, from, i);
    lemma_in_history(log, "orders."@ + fill.taker_trader_id@, from, i);
    lemma_in_history(log, "orders."@ + fill.maker_trader_id@, from, i);
}

proof fn lemma_in_history(log: Seq<(SequencedEvent, Option<Value>)>, channel: Seq<char>, from: u64, i: int)
    requires
        0 <= i < log.len(),
        log[i].1 is Some,
        from <= log[i].0.seq_id,
        channels(log[i].0.event).contains(channel),
    ensures
        history_of(log, channel, from).contains((log[i].0, log[i].1->Some_0)),
    decreases log.len(),
{
    let all = history_of(log, channel, from);
    let told = (log[i].0, log[i].1->Some_0);
    if i == log.len() - 1 {
        assert(all.last() == told);
        assert(all[all.len() - 1] == told);
    } else {
        let init = log.drop_last();
        let before = history_of(init, channel, from);
        assert(init[i] == log[i]);
        lemma_in_history(init, channel, from, i);
        let k = choose|k: int| 0 <= k < before.len() && before[k] == told;
        assert(all[k] == told);
    }
}

/// What a client's message does: after a subscription the channel is subscribed to, after
/// the end of one it is not, and no message changes any other channel. A subscription and
/// its end are confirmed by the name of the channel, a ping is answered, and a message
/// that cannot be read is told so with the reason. History is sent for a subscription that
/// gives a number other than 0, from that number on, and for nothing else.
pub proof fn law_what_a_message_does(
    before: Set<Seq<char>>,
    msg: Result<ClientMsg, String>,
    after: Set<Seq<char>>,
    step: Step,
    other: Seq<char>,
)
    requires
        handles(before, msg, after, step),
    ensures
        match msg {
            Ok(ClientMsg::Subscribe { channel, from_seq }) => {
                &&& after.contains(channel@)
                &&& other != channel@ ==> after.contains(other) == before.contains(other)
                &&& step.reply is Subscribed && (step.reply->Subscribed_channel)@ == channel@
                &&& step.history is Some <==> from_seq != 0
                &&& step.history matches Some(asked) ==> asked.0@ == channel@ && asked.1 == from_seq
            },
            Ok(ClientMsg::Unsubscribe { channel }) => {
                &&& !after.contains(channel@)
                &&& other != channel@ ==> after.contains(other) == before.contains(other)
                &&& step.reply is Unsubscribed && (step.reply->Unsubscribed_channel)@ == channel@
                &&& step.history is None
            },
            Ok(ClientMsg::Ping) => step.reply is Pong && step.history is None && after.contains(other)
                == before.contains(other),
            Err(reason) => {
                &&& step.reply is Error && step.reply->code@ == "PARSE_ERROR"@
                &&& (step.reply->message)@.len() == "could not parse message: "@.len() + reason@.len()
                &&& (step.reply->message)@.skip("could not parse message: "@.len() as int) == reason@
                &&& step.history is None
                &&& after.contains(other) == before.contains(other)
            },
        },
{
    if let Err(reason) = msg {
        let told = "could not parse message: "@ + reason@;
        assert(told.skip("could not parse message: "@.len() as int) =~= reason@);
    }
}

} // verus!
