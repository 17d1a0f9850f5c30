//! Time buckets: the fixed-width intervals by which a shard's files rotate.

use vstd::prelude::*;

verus! {

/// Width of a bucket, in seconds.
pub const BUCKET_WIDTH: i64 = 5;

/// Start of the bucket that holds the instant `ts`: the greatest multiple of
/// the bucket width that is not after `ts`.
pub open spec fn bucket_floor(ts: int) -> int {
    (ts / (BUCKET_WIDTH as int)) * (BUCKET_WIDTH as int)
}

/// Whether the bucket that holds `ts` starts at a representable instant.
pub open spec fn has_bucket(ts: int) -> bool {
    bucket_floor(ts) >= i64::MIN
}

/// Start of the bucket that holds `ts`.
pub fn bucket_of(ts: i64) -> (start: i64)
    requires
        has_bucket(ts as int),
    ensures
        start == bucket_floor(ts as int),
{
    let r: i64 = ts % BUCKET_WIDTH;
    if r >= 0 {
        ts - r
    } else {
        ts - r - BUCKET_WIDTH
    }
}

/// Start of the bucket that holds `ts`, where that start is representable.
pub fn bucket_start(ts: i64) -> (start: Option<i64>)
    ensures
        start == (if has_bucket(ts as int) {
            Some(bucket_floor(ts as int) as i64)
        } else {
            None
        }),
{
    let r: i64 = ts % BUCKET_WIDTH;
    if r >= 0 || ts - r >= i64::MIN + BUCKET_WIDTH {
        Some(bucket_of(ts))
    } else {
        None
    }
}

/// The first bucket start at or after the one that holds `from` which is a
/// representable instant.
pub open spec fn first_bucket(from: int) -> int {
    if has_bucket(from) {
        bucket_floor(from)
    } else {
        bucket_floor(from) + BUCKET_WIDTH
    }
}

/// The bucket starts from `first` to `last`, one bucket width apart.
pub open spec fn starts_between(first: int, last: int) -> Seq<int> {
    if first > last {
        Seq::empty()
    } else {
        Seq::new(((last - first) / (BUCKET_WIDTH as int) + 1) as nat, |k: int| first + k * BUCKET_WIDTH)
    }
}

/// The starts of the buckets that a date range touches, in order: from the
/// bucket that holds `from` to the bucket that holds `to`, both included,
/// as far as they are representable instants.
pub open spec fn bucket_starts(from: int, to: int) -> Seq<int> {
    starts_between(first_bucket(from), bucket_floor(to))
}

/// Walks the bucket starts of a date range.
pub struct BucketIterator {
    next: i64,
    last: i64,
    done: bool,
}

impl View for BucketIterator {
    type V = Seq<int>;

    /// The bucket starts still to come.
    closed spec fn view(&self) -> Seq<int> {
        if self.done {
            Seq::empty()
        } else {
            starts_between(self.next as int, self.last as int)
        }
    }
}

impl BucketIterator {
    #[verifier::type_invariant]
    spec fn aligned(self) -> bool {
        !self.done ==> self.next <= self.last && self.next % BUCKET_WIDTH == 0 && self.last
            % BUCKET_WIDTH == 0
    }

    /// The next bucket start, if any is left.
    pub fn next(&mut self) -> (start: Option<i64>)
        ensures
            old(self)@.len() == 0 ==> start is None && final(self)@ == old(self)@,
            old(self)@.len() > 0 ==> start == Some(old(self)@[0] as i64) && final(self)@ == old(
                self,
            )@.drop_first(),
    {
        proof {
            use_type_invariant(&*self);
        }
        if self.done {
            return None;
        }
        let start: i64 = self.next;
        if start == self.last {
            self.done = true;
            assert(old(self)@.drop_first() =~= Seq::<int>::empty());
        } else {
            self.next = start + BUCKET_WIDTH;
            assert(old(self)@.drop_first() =~= self@);
        }
        Some(start)
    }
}

/// The bucket starts that the date range from `date_begin` to `date_end`
/// touches.
pub fn date_range_iterator(date_begin: i64, date_end: i64) -> (it: BucketIterator)
    ensures
        it@ == bucket_starts(date_begin as int, date_end as int),
{
    let first: i64 = match bucket_start(date_begin) {
        Some(first) => first,
        // the remainder is negative here, so this rounds up to the next start
        None => date_begin - date_begin % BUCKET_WIDTH,
    };
    match bucket_start(date_end) {
        Some(last) => {
            if first <= last {
                BucketIterator { next: first, last, done: false }
            } else {
                BucketIterator { next: 0, last: 0, done: true }
            }
        },
        None => BucketIterator { next: 0, last: 0, done: true },
    }
}

} // verus!
