//! The alarm loop: which queries it asks in each cycle, and which of the
//! values that come back breach an alarm's limit.

use crate::metric::query::{QueryAggregation, QueryParams, QueryParamsView};
use crate::router::{route, shard_of};
use crate::single::{exceeds, single_exceeds};
use vstd::prelude::*;

verus! {

/// An alarm: a query to repeat, and the limit that its values are held to.
#[derive(Debug)]
pub struct AlarmConfig {
    /// The metric that is watched.
    pub metric_id: String,
    /// How its samples are aggregated.
    pub aggregation: QueryAggregation,
    /// The length of a window in seconds, as the 32 bits of an IEEE-754
    /// single.
    pub window_secs: u32,
    /// The limit, as the 32 bits of an IEEE-754 single.
    pub limit: u32,
}

/// The alarms and how often they are polled.
pub struct AlarmManager {
    configs: Vec<AlarmConfig>,
    frequency: i64,
}

/// One question of the alarm loop: the shard to ask, and what to ask it.
pub struct AlarmPoll {
    pub shard: usize,
    pub query: QueryParams,
}

/// Where the alarm loop stands in its cycle.
pub struct AlarmCycle {
    next: usize,
}

/// What the alarm loop does next.
#[derive(Clone, Copy, Debug, PartialEq, Eq, Structural)]
pub enum AlarmStep {
    /// Poll the alarm at this position, and report its breaches.
    Poll(usize),
    /// The cycle is over: wait for the next one.
    Sleep,
    /// End the loop.
    Stop,
}

/// The query that polls `config` at the instant `now`: the config's metric,
/// aggregation and window, over the `frequency` seconds up to `now`.
pub open spec fn poll_query(config: AlarmConfig, frequency: i64, now: i64) -> QueryParamsView {
    QueryParamsView {
        metric_id: config.metric_id@,
        date_range: Some(((now - frequency) as i64, now)),
        aggregation: config.aggregation,
        window_secs: config.window_secs,
    }
}

/// What the loop does at `position` in a cycle over `alarms` alarms: it
/// ends where a cycle starts and the loop is to end, polls the alarm at
/// the position while there is one, and sleeps after the last.
pub open spec fn next_step(position: nat, alarms: nat, terminating: bool) -> AlarmStep {
    if position == 0 && terminating {
        AlarmStep::Stop
    } else if position < alarms {
        AlarmStep::Poll(position as usize)
    } else {
        AlarmStep::Sleep
    }
}

/// Where the loop stands after the step it takes at `position`.
pub open spec fn next_position(position: nat, alarms: nat, terminating: bool) -> nat {
    match next_step(position, alarms, terminating) {
        AlarmStep::Poll(_) => position + 1,
        _ => 0,
    }
}

/// The values of `reply` that exceed `limit`, in their order.
pub open spec fn breaching(reply: Seq<u32>, limit: u32) -> Seq<u32> {
    reply.filter(|value: u32| exceeds(value, limit))
}

impl AlarmCycle {
    /// The position in the cycle of the alarm that is polled next.
    pub closed spec fn position(&self) -> nat {
        self.next as nat
    }

    /// The start of a cycle.
    pub fn new() -> (cycle: Self)
        ensures
            cycle.position() == 0,
    {
        AlarmCycle { next: 0 }
    }
}

impl AlarmManager {
    /// The alarms, in the order in which they are polled.
    pub closed spec fn alarms(&self) -> Seq<AlarmConfig> {
        self.configs@
    }

    /// The seconds between two cycles, and the seconds that a poll looks
    /// back.
    pub closed spec fn period(&self) -> i64 {
        self.frequency
    }

    /// The manager of `configs`, polled every `frequency` seconds.
    pub fn new(configs: Vec<AlarmConfig>, frequency: i64) -> (manager: Self)
        ensures
            manager.alarms() == configs@,
            manager.period() == frequency,
    {
        Self { configs, frequency }
    }

    /// The number of alarms.
    pub fn len(&self) -> (n: usize)
        ensures
            n == self.alarms().len(),
    {
        self.configs.len()
    }

    /// The seconds to wait between two cycles.
    pub fn frequency(&self) -> (secs: i64)
        ensures
            secs == self.period(),
    {
        self.frequency
    }

    /// The alarm at `index`.
    pub fn config(&self, index: usize) -> (config: &AlarmConfig)
        requires
            index < self.alarms().len(),
        ensures
            *config == self.alarms()[index as int],
    {
        &self.configs[index]
    }

    /// What the loop does next. Whether the loop is to end is looked at
    /// only where a cycle starts: a cycle that has begun polls every alarm
    /// in turn and then sleeps.
    pub fn step(&self, cycle: &mut AlarmCycle, terminating: bool) -> (step: AlarmStep)
        ensures
            step == next_step(old(cycle).position(), self.alarms().len(), terminating),
            final(cycle).position() == next_position(
                old(cycle).position(),
                self.alarms().len(),
                terminating,
            ),
    {
        if cycle.next == 0 && terminating {
            AlarmStep::Stop
        } else if cycle.next < self.configs.len() {
            let index: usize = cycle.next;
            cycle.next = index + 1;
            AlarmStep::Poll(index)
        } else {
            cycle.next = 0;
            AlarmStep::Sleep
        }
    }

    /// The question that polls the alarm at `index` at the instant `now`,
    /// among `shards` shards: the shard of the alarm's metric, and the
    /// alarm's query over the time since the last cycle.
    pub fn poll(&self, index: usize, now: i64, shards: usize) -> (poll: AlarmPoll)
        requires
            index < self.alarms().len(),
            shards > 0,
            i64::MIN <= now - self.period() <= i64::MAX,
        ensures
            poll.shard == shard_of(self.alarms()[index as int].metric_id@, shards as int),
            poll.shard < shards,
            poll.query@ == poll_query(self.alarms()[index as int], self.period(), now),
    {
        let config: &AlarmConfig = &self.configs[index];
        let query = QueryParams {
            metric_id: config.metric_id.clone(),
            date_range: Some((now - self.frequency, now)),
            aggregation: config.aggregation,
            window_secs: config.window_secs,
        };
        let shard: usize = route(query.metric_id.as_str(), shards);
        AlarmPoll { shard, query }
    }
}

impl AlarmConfig {
    /// The values that breach the alarm among those that its poll brought
    /// back: each value that exceeds the limit, as often as it comes, in
    /// the order of the reply.
    pub fn breaches(&self, reply: &Vec<u32>) -> (found: Vec<u32>)
        ensures
            found@ == breaching(reply@, self.limit),
    {
        let limit: u32 = self.limit;
        let ghost over = |value: u32| exceeds(value, limit);
        let mut found: Vec<u32> = Vec::new();
        let mut i: usize = 0;
        assert(reply@.subrange(0, 0) =~= Seq::<u32>::empty());
        proof {
            reveal(Seq::filter);
        }
        while i < reply.len()
            invariant
                i <= reply.len(),
                over == |value: u32| exceeds(value, limit),
                found@ == reply@.subrange(0, i as int).filter(over),
            decreases reply.len() - i,
        {
            proof {
                reveal(Seq::filter);
                assert(reply@.subrange(0, i + 1).drop_last() =~= reply@.subrange(0, i as int));
            }
            if single_exceeds(reply[i], limit) {
                found.push(reply[i]);
            }
            i += 1;
        }
        assert(reply@.subrange(0, i as int) =~= reply@);
        found
    }
}

} // verus!
