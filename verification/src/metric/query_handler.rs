//! The query engine of one shard: which files a query reads, and what the
//! records found in them amount to.

use crate::bucket::{bucket_starts, date_range_iterator, BucketIterator};
use crate::metric::query::{timestamps, windows, QueryParams, Window};
use crate::metric::{
    lemma_parse_record_in_bounds, parse_records, views, Metric, MetricIterator, MetricView,
};
use crate::names::{sealed_name, sealed_path, shard_prefix, shard_prefix_text};
use crate::router::{route, shard_of};
use vstd::prelude::*;
use vstd::utf8::encode_utf8;

verus! {

/// Answers the queries of one shard.
pub struct QueryHandler {
    hash_modulus: usize,
    metrics_root: String,
}

/// What a shard found for a query.
pub struct QueryAnswer {
    /// The samples of the metric asked for, in the order in which the files
    /// hold them.
    pub samples: Vec<Metric>,
    /// The windows over `samples` that the query aggregates.
    pub windows: Vec<Window>,
}

/// What waiting for a query gave.
#[derive(Debug)]
pub enum Request {
    /// A query to answer.
    Query(QueryParams),
    /// Nothing, and nobody is left to ask.
    Disconnected,
}

/// What the engine does about what it received.
pub enum QueryStep {
    /// Look for the sealed file of each of these buckets of the shard, in
    /// this order, and answer the query from those that are there.
    Buckets { query: QueryParams, shard: usize, buckets: BucketIterator },
    /// List the root directory, and answer the query from the files of the
    /// shard in it.
    History { query: QueryParams, shard: usize },
    /// The engine ends its work.
    Stop,
}

/// The records of the files that could be read, file after file. A file
/// that could not be read stands for no records.
pub open spec fn records_in(files: Seq<Option<Vec<u8>>>) -> Seq<MetricView>
    decreases files.len(),
{
    if files.len() == 0 {
        Seq::empty()
    } else {
        records_in(files.drop_last()) + (match files.last() {
            Some(bytes) => parse_records(bytes@),
            None => Seq::empty(),
        })
    }
}

/// The records of one metric among `records`, in their order.
pub open spec fn of_metric(records: Seq<MetricView>, metric_id: Seq<char>) -> Seq<MetricView> {
    records.filter(|m: MetricView| m.metric_id == metric_id)
}

/// Whether a file name is that of a sealed file of `shard`: whether its
/// UTF-8 bytes begin with those of the shard's prefix.
pub open spec fn belongs_to(name: Seq<char>, shard: nat) -> bool {
    encode_utf8(shard_prefix(shard)).is_prefix_of(encode_utf8(name))
}

/// Where under `root` the file called `name` lies.
pub open spec fn path_under(root: Seq<char>, name: Seq<char>) -> Seq<char> {
    root + "/"@ + name
}

/// What each text of `texts` holds.
pub open spec fn texts(texts: Seq<String>) -> Seq<Seq<char>> {
    texts.map_values(|t: String| t@)
}

/// The paths of the files of `shard` among the names listed in `root`, in
/// the order of the listing.
pub open spec fn history_of(root: Seq<char>, shard: nat, names: Seq<Seq<char>>) -> Seq<Seq<char>> {
    names.filter(|name: Seq<char>| belongs_to(name, shard)).map_values(
        |name: Seq<char>| path_under(root, name),
    )
}

/// Whether `bytes` begins with `prefix`.
fn starts_with(bytes: &[u8], prefix: &[u8]) -> (r: bool)
    ensures
        r == prefix@.is_prefix_of(bytes@),
{
    if prefix.len() > bytes.len() {
        return false;
    }
    let mut i: usize = 0;
    while i < prefix.len()
        invariant
            i <= prefix.len() <= bytes.len(),
            prefix@.subrange(0, i as int) =~= bytes@.subrange(0, i as int),
        decreases prefix.len() - i,
    {
        if prefix[i] != bytes[i] {
            assert(prefix@[i as int] != bytes@.subrange(0, prefix.len() as int)[i as int]);
            return false;
        }
        assert(prefix@.subrange(0, i + 1) =~= prefix@.subrange(0, i as int).push(prefix@[i as int]));
        assert(bytes@.subrange(0, i + 1) =~= bytes@.subrange(0, i as int).push(bytes@[i as int]));
        i += 1;
    }
    assert(prefix@.subrange(0, i as int) =~= prefix@);
    true
}

impl QueryHandler {
    #[verifier::type_invariant]
    spec fn has_shards(self) -> bool {
        self.hash_modulus > 0
    }

    /// The number of shards among which metrics are routed.
    pub closed spec fn shards(&self) -> int {
        self.hash_modulus as int
    }

    /// The directory that holds the shards' files.
    pub closed spec fn root(&self) -> Seq<char> {
        self.metrics_root@
    }

    /// The engine of one of `hash_modulus` shards whose files lie under
    /// `metrics_root`.
    pub fn new(hash_modulus: usize, metrics_root: String) -> (handler: Self)
        requires
            hash_modulus > 0,
        ensures
            handler.shards() == hash_modulus,
            handler.root() == metrics_root@,
    {
        Self { hash_modulus, metrics_root }
    }

    /// The shard whose files hold the samples that `query` asks for.
    pub fn shard(&self, query: &QueryParams) -> (shard: usize)
        ensures
            shard == shard_of(query@.metric_id, self.shards()),
            0 <= shard < self.shards(),
    {
        proof {
            use_type_invariant(self);
        }
        route(query.metric_id.as_str(), self.hash_modulus)
    }

    /// One turn of the engine's work on what waiting for a query gave. A
    /// query with a date range is answered from the buckets that the range
    /// touches, one without from the shard's whole history; and once nobody
    /// is left to ask, the engine stops, which is no error.
    pub fn receive(&self, received: Request) -> (step: QueryStep)
        ensures
            match received {
                Request::Query(asked) => match asked.date_range {
                    Some((from, to)) => step matches QueryStep::Buckets { query, shard, buckets }
                        && query@ == asked@ && shard == shard_of(asked@.metric_id, self.shards())
                        && buckets@ == bucket_starts(from as int, to as int),
                    None => step matches QueryStep::History { query, shard } && query@ == asked@
                        && shard == shard_of(asked@.metric_id, self.shards()),
                },
                Request::Disconnected => step is Stop,
            },
    {
        match received {
            Request::Query(query) => {
                let shard: usize = self.shard(&query);
                match query.date_range {
                    Some((from, to)) => {
                        let buckets = date_range_iterator(from, to);
                        QueryStep::Buckets { query, shard, buckets }
                    },
                    None => QueryStep::History { query, shard },
                }
            },
            Request::Disconnected => QueryStep::Stop,
        }
    }

    /// The sealed file in which the samples that `query` asks for lie, if
    /// any were stored in the bucket that starts at `bucket`.
    pub fn bucket_path(&self, query: &QueryParams, bucket: i64) -> (path: String)
        ensures
            path@ == sealed_name(
                self.root(),
                shard_of(query@.metric_id, self.shards()) as nat,
                bucket,
            ),
    {
        sealed_path(self.metrics_root.as_str(), self.shard(query), bucket)
    }

    /// The files that hold the whole history of the metric that `query`
    /// asks for: of the names listed in the root directory, those of the
    /// metric's shard, in the order of the listing, each as a path.
    pub fn history_paths(&self, query: &QueryParams, names: &Vec<String>) -> (paths: Vec<String>)
        ensures
            texts(paths@) == history_of(
                self.root(),
                shard_of(query@.metric_id, self.shards()) as nat,
                texts(names@),
            ),
    {
        let shard: usize = self.shard(query);
        let prefix = shard_prefix_text(shard);
        let ghost belongs = |name: Seq<char>| belongs_to(name, shard as nat);
        let ghost place = |name: Seq<char>| path_under(self.root(), name);
        let mut paths: Vec<String> = Vec::new();
        let mut i: usize = 0;
        assert(texts(names@).subrange(0, 0) =~= Seq::<Seq<char>>::empty());
        assert(texts(paths@) =~= Seq::<Seq<char>>::empty());
        proof {
            reveal(Seq::filter);
        }
        while i < names.len()
            invariant
                i <= names.len(),
                prefix@ == shard_prefix(shard as nat),
                belongs == |name: Seq<char>| belongs_to(name, shard as nat),
                place == |name: Seq<char>| path_under(self.root(), name),
                self.root() == self.metrics_root@,
                texts(paths@) == texts(names@).subrange(0, i as int).filter(belongs).map_values(
                    place,
                ),
            decreases names.len() - i,
        {
            let name: &String = &names[i];
            let ghost seen = texts(names@).subrange(0, i as int);
            let ghost next = texts(names@).subrange(0, i + 1);
            proof {
                reveal(Seq::filter);
                assert(next.drop_last() =~= seen);
                assert(next.last() == name@);
            }
            if starts_with(name.as_str().as_bytes(), prefix.as_str().as_bytes()) {
                let mut path = String::from_str(self.metrics_root.as_str());
                path.append("/");
                path.append(name.as_str());
                let ghost before = texts(paths@);
                paths.push(path);
                assert(texts(paths@) =~= before.push(path@));
                assert(next.filter(belongs) == seen.filter(belongs).push(name@));
                assert(next.filter(belongs).map_values(place) =~= seen.filter(belongs).map_values(
                    place,
                ).push(path_under(self.root(), name@)));
            } else {
                assert(next.filter(belongs) == seen.filter(belongs));
            }
            i += 1;
        }
        assert(texts(names@).subrange(0, i as int) =~= texts(names@));
        paths
    }

    /// Answers `query` from the files that were looked for, given in the
    /// order in which they were looked for, a file that could not be read
    /// as nothing. Each file is read record by record up to its end or to
    /// the first bytes that are no record; the records of other metrics in
    /// the shard are passed over. A file that is missing takes nothing from
    /// the answer but its own records.
    pub fn handle_query(&self, query: &QueryParams, files: &Vec<Option<Vec<u8>>>) -> (answer:
        QueryAnswer)
        ensures
            views(answer.samples@) == of_metric(records_in(files@), query@.metric_id),
            answer.windows@ == windows(
                query@.aggregation,
                query@.window_secs,
                timestamps(answer.samples@),
            ),
    {
        let ghost wanted = |m: MetricView| m.metric_id == query@.metric_id;
        let mut samples: Vec<Metric> = Vec::new();
        let mut i: usize = 0;
        assert(files@.subrange(0, 0) =~= Seq::<Option<Vec<u8>>>::empty());
        assert(views(samples@) =~= Seq::<MetricView>::empty());
        proof {
            reveal(Seq::filter);
        }
        while i < files.len()
            invariant
                i <= files.len(),
                wanted == |m: MetricView| m.metric_id == query@.metric_id,
                views(samples@) == records_in(files@.subrange(0, i as int)).filter(wanted),
                forall|k: int| 0 <= k < samples.len() ==> (#[trigger] samples[k]).timestamp is Some,
            decreases files.len() - i,
        {
            let ghost before = records_in(files@.subrange(0, i as int));
            assert(files@.subrange(0, i + 1).drop_last() =~= files@.subrange(0, i as int));
            assert(files@.subrange(0, i + 1).last() == files@[i as int]);
            match &files[i] {
                None => {
                    assert(records_in(files@.subrange(0, i + 1)) =~= before);
                },
                Some(bytes) => {
                    let mut records = MetricIterator::new(bytes.as_slice());
                    let ghost mut read: Seq<MetricView> = Seq::empty();
                    assert(before + read =~= before);
                    loop
                        invariant
                            wanted == |m: MetricView| m.metric_id == query@.metric_id,
                            read + parse_records(records@) == parse_records(bytes@),
                            views(samples@) == (before + read).filter(wanted),
                            forall|k: int|
                                0 <= k < samples.len() ==> (#[trigger] samples[k]).timestamp
                                    is Some,
                        ensures
                            views(samples@) == (before + parse_records(bytes@)).filter(wanted),
                        decreases records@.len(),
                    {
                        let ghost rest = records@;
                        proof {
                            lemma_parse_record_in_bounds(rest);
                        }
                        match records.next() {
                            None => {
                                assert(parse_records(rest) =~= Seq::<MetricView>::empty());
                                assert(read =~= parse_records(bytes@));
                                break;
                            },
                            Some(metric) => {
                                let ghost found = metric@;
                                proof {
                                    reveal(Seq::filter);
                                    assert((before + read.push(found)).last() == found);
                                    assert(parse_records(rest) == seq![found] + parse_records(
                                        records@,
                                    ));
                                    assert((before + read.push(found)).drop_last() =~= before
                                        + read);
                                    assert(read.push(found) + parse_records(records@) =~= read
                                        + parse_records(rest));
                                }
                                if metric.metric_id == query.metric_id {
                                    let ghost sofar = views(samples@);
                                    samples.push(metric);
                                    assert(views(samples@) =~= sofar.push(found));
                                }
                                proof {
                                    read = read.push(found);
                                }
                            },
                        }
                    }
                    assert(records_in(files@.subrange(0, i + 1)) == before + parse_records(bytes@));
                },
            }
            i += 1;
        }
        assert(files@.subrange(0, i as int) =~= files@);
        let windows = query.process_metrics(&samples);
        QueryAnswer { samples, windows }
    }
}

/// The records of files taken together are those of the first files, then
/// those of the rest.
pub proof fn lemma_records_in_add(first: Seq<Option<Vec<u8>>>, rest: Seq<Option<Vec<u8>>>)
    ensures
        records_in(first + rest) == records_in(first) + records_in(rest),
    decreases rest.len(),
{
    if rest.len() == 0 {
        assert(first + rest =~= first);
        assert(records_in(first) + records_in(rest) =~= records_in(first));
    } else {
        lemma_records_in_add(first, rest.drop_last());
        assert((first + rest).drop_last() =~= first + rest.drop_last());
        assert((first + rest).last() == rest.last());
        let tail = match rest.last() {
            Some(bytes) => parse_records(bytes@),
            None => Seq::empty(),
        };
        assert(records_in(first) + (records_in(rest.drop_last()) + tail) =~= (records_in(first)
            + records_in(rest.drop_last())) + tail);
    }
}

/// A bucket without a file changes nothing: the records found are those of
/// the files that are there, as if the missing one had not been looked for.
pub proof fn lemma_missing_file(before: Seq<Option<Vec<u8>>>, after: Seq<Option<Vec<u8>>>)
    ensures
        records_in(before + seq![None::<Vec<u8>>] + after) == records_in(before + after),
{
    let missing = seq![None::<Vec<u8>>];
    lemma_records_in_add(before + missing, after);
    lemma_records_in_add(before, missing);
    lemma_records_in_add(before, after);
    assert(missing.drop_last() =~= Seq::<Option<Vec<u8>>>::empty());
    assert(missing.last() is None);
    assert(records_in(missing.drop_last()) =~= Seq::<MetricView>::empty());
    assert(records_in(missing) =~= Seq::<MetricView>::empty());
    assert(records_in(before) + records_in(missing) =~= records_in(before));
}

} // verus!
