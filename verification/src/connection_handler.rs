//! The handling of one connection: whether it is still served, and to which
//! shard its action goes.

use crate::metric::query::QueryParams;
use crate::metric::{Metric, MetricAction, MetricActionView};
use crate::router::{route, shard_of};
use vstd::prelude::*;

verus! {

/// How long a connection may wait to be served, in milliseconds. One that
/// has waited as long or longer is dropped.
pub const CONNECTION_MAX_WAIT_MILLIS: u64 = 200;

/// The number of workers that serve connections.
pub const NUM_THREADS: usize = 4;

/// Sends the actions of connections to the shards.
pub struct ConnectionHandler {
    shards: usize,
}

/// Where an action goes.
#[derive(Debug)]
pub enum Dispatch {
    /// The sample goes to the writer of this shard.
    Insert { shard: usize, metric: Metric },
    /// The query goes to the engine of this shard, and one reply is waited
    /// for.
    Query { shard: usize, query: QueryParams },
}

/// The shard that an action is sent to: that of the metric it is about.
pub open spec fn shard_for(action: MetricActionView, shards: int) -> int {
    shard_of(action.metric_id(), shards)
}

/// A sample and every query for its metric go to one shard, that of the
/// metric, whenever they come and in whatever order.
pub proof fn lemma_same_metric_same_shard(
    insert: MetricActionView,
    query: MetricActionView,
    shards: int,
)
    requires
        shards > 0,
        insert is Insert,
        query is Query,
        insert.metric_id() == query.metric_id(),
    ensures
        shard_for(insert, shards) == shard_for(query, shards),
        shard_for(insert, shards) == shard_of(insert.metric_id(), shards),
        0 <= shard_for(insert, shards) < shards,
{
}

impl ConnectionHandler {
    #[verifier::type_invariant]
    spec fn has_shards(self) -> bool {
        self.shards > 0
    }

    /// The number of shards among which actions are sent.
    pub closed spec fn shard_count(&self) -> int {
        self.shards as int
    }

    /// A handler that sends actions among `shards` shards.
    pub fn new(shards: usize) -> (handler: Self)
        requires
            shards > 0,
        ensures
            handler.shard_count() == shards,
    {
        Self { shards }
    }

    /// Whether a connection that has waited `waited_millis` milliseconds is
    /// still served.
    pub fn admits(waited_millis: u64) -> (served: bool)
        ensures
            served == (waited_millis < CONNECTION_MAX_WAIT_MILLIS),
    {
        waited_millis < CONNECTION_MAX_WAIT_MILLIS
    }

    /// Where `action` goes: to the shard of the metric it is about, as
    /// what it is.
    pub fn send_action(&self, action: MetricAction) -> (dispatch: Dispatch)
        ensures
            match action {
                MetricAction::Insert(m) => dispatch matches Dispatch::Insert { shard, metric }
                    && metric@ == m@ && shard == shard_for(action@, self.shard_count()),
                MetricAction::Query(q) => dispatch matches Dispatch::Query { shard, query }
                    && query@ == q@ && shard == shard_for(action@, self.shard_count()),
            },
            match dispatch {
                Dispatch::Insert { shard, .. } => shard < self.shard_count(),
                Dispatch::Query { shard, .. } => shard < self.shard_count(),
            },
    {
        proof {
            use_type_invariant(self);
        }
        match action {
            MetricAction::Insert(metric) => {
                let shard: usize = route(metric.metric_id.as_str(), self.shards);
                Dispatch::Insert { shard, metric }
            },
            MetricAction::Query(query) => {
                let shard: usize = route(query.metric_id.as_str(), self.shards);
                Dispatch::Query { shard, query }
            },
        }
    }
}

} // verus!
