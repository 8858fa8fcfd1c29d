//! What holds of the markets of an engine.
use crate::domain::market::MarketConfig;
use crate::domain::order::{OrderError, OrderHash, OrderId, SignedOrder};
use crate::engine::model::EngineModel;
use crate::events::{CancelReason, Event};
use crate::keys::text_before;
use crate::ordmap::{lemma_sorted_ids, sorted_ids, MapKey};
use vstd::prelude::*;

verus! {

/// The markets in ascending order of their ids.
pub open spec fn listing(markets: Map<Seq<char>, MarketConfig>) -> Seq<MarketConfig> {
    let ids = sorted_ids::<str>(markets.dom());
    Seq::new(ids.len(), |i: int| markets[ids[i]])
}

/// `list` holds every one of `markets` once, in ascending order of their ids.
pub open spec fn lists(list: Seq<MarketConfig>, markets: Map<Seq<char>, MarketConfig>) -> bool {
    &&& forall|i: int, j: int|
        0 <= i < j < list.len() ==> text_before((#[trigger] list[i]).id.0@, (#[trigger] list[j]).id.0@)
    &&& forall|i: int|
        0 <= i < list.len() ==> markets.contains_key((#[trigger] list[i]).id.0@) && markets[list[i].id.0@]
            == list[i]
    &&& forall|m: Seq<char>| #[trigger]
        markets.contains_key(m) ==> exists|i: int| 0 <= i < list.len() && (#[trigger] list[i]).id.0@ == m
}

/// Every market is listed once, in ascending order of the ids.
pub proof fn law_markets_listed_once(markets: Map<Seq<char>, MarketConfig>)
    requires
        markets.dom().finite(),
        forall|m: Seq<char>| #[trigger] markets.contains_key(m) ==> markets[m].id.0@ == m,
    ensures
        lists(listing(markets), markets),
        listing(markets).len() == markets.len(),
{
    let ids = sorted_ids::<str>(markets.dom());
    let list = listing(markets);
    lemma_sorted_ids::<str>(markets.dom());
    assert forall|i: int| 0 <= i < ids.len() implies markets.contains_key(#[trigger] ids[i]) by {
        assert(ids.to_set().contains(ids[i]));
    }
    assert forall|i: int, j: int| 0 <= i < j < list.len() implies text_before(
        (#[trigger] list[i]).id.0@,
        (#[trigger] list[j]).id.0@,
    ) by {
        assert(<str as MapKey>::before(ids[i], ids[j]));
    }
    assert forall|m: Seq<char>| #[trigger] markets.contains_key(m) implies exists|i: int|
        0 <= i < list.len() && (#[trigger] list[i]).id.0@ == m by {
        assert(ids.to_set().contains(m));
        let i = choose|i: int| 0 <= i < ids.len() && ids[i] == m;
        assert(list[i].id.0@ == m);
    }
    assert(ids.no_duplicates()) by {
        assert forall|i: int, j: int| 0 <= i < j < ids.len() implies ids[i] != ids[j] by {
            <str as MapKey>::before_irreflexive(ids[i]);
            assert(<str as MapKey>::before(ids[i], ids[j]));
        }
    }
    ids.unique_seq_to_set();
}

/// The engine after `configs` are registered in turn.
pub open spec fn registered(e: EngineModel, configs: Seq<MarketConfig>) -> EngineModel
    decreases configs.len(),
{
    if configs.len() == 0 {
        e
    } else {
        registered(e, configs.drop_last()).with_market(configs.last())
    }
}

/// The last of `configs` that is for the market `id`.
pub open spec fn latest(configs: Seq<MarketConfig>, id: Seq<char>) -> Option<MarketConfig>
    decreases configs.len(),
{
    if configs.len() == 0 {
        None
    } else if configs.last().id.0@ == id {
        Some(configs.last())
    } else {
        latest(configs.drop_last(), id)
    }
}

/// The latest registration of a market counts: after `configs` are registered in
/// turn, a market has the last of them that is for it, and is as it was where none
/// is.
pub proof fn law_latest_registration_counts(e: EngineModel, configs: Seq<MarketConfig>, id: Seq<char>)
    ensures
        match latest(configs, id) {
            Some(config) => registered(e, configs).markets.contains_key(id) && registered(e, configs).markets[id]
                == config,
            None => registered(e, configs).markets.contains_key(id) == e.markets.contains_key(id) && registered(
                e,
                configs,
            ).markets[id] == e.markets[id],
        },
    decreases configs.len(),
{
    if configs.len() > 0 {
        law_latest_registration_counts(e, configs.drop_last(), id);
    }
}

/// Markets change by registration alone: submissions, cancels and events that
/// concern no order leave them.
pub proof fn law_only_registration_changes_markets(
    e: EngineModel,
    signed: SignedOrder,
    now: u64,
    verdict: Result<(), OrderError>,
    hash: OrderHash,
    id: OrderId,
    market: Seq<char>,
    order: Seq<char>,
    reason: CancelReason,
    event: Event,
    submitted: EngineModel,
)
    requires
        e.submits(signed, now, verdict, hash, id, submitted),
    ensures
        submitted.markets == e.markets,
        e.cancel(market, order, reason).markets == e.markets,
        e.record(event).markets == e.markets,
{
}

} // verus!
