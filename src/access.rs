use vstd::prelude::*;
use crate::model::{Bucket, BucketModel, Event, EventModel, event_wf, sorted_by_time, events_view};

verus! {

/// Failures of a store call.
pub enum StoreError {
    NoSuchBucket(String),
    BucketAlreadyExists(String),
    /// I/O failure or corruption.
    Internal(String),
}

/// Abstract content of one bucket of a store: its record and its events,
/// oldest first.
pub ghost struct BucketState {
    pub bucket: BucketModel,
    pub events: Seq<EventModel>,
}

/// A store is well formed when each bucket is filed under its own id and its
/// events are well formed and kept in time order.
pub open spec fn store_wf(m: Map<Seq<char>, BucketState>) -> bool {
    forall|k: Seq<char>|
        #[trigger] m.contains_key(k) ==> m[k].bucket.id == k && sorted_by_time(m[k].events)
            && forall|i: int| 0 <= i < m[k].events.len() ==> event_wf(#[trigger] m[k].events[i])
}

/// `e` has a timestamp in the half-open window `[start, end)`.
pub open spec fn in_window(e: EventModel, start: Option<i64>, end: Option<i64>) -> bool {
    (start matches Some(a) ==> a <= e.timestamp) && (end matches Some(b) ==> e.timestamp < b)
}

/// The events of `s` inside the window, newest first.
pub open spec fn newest_first(s: Seq<EventModel>, start: Option<i64>, end: Option<i64>) -> Seq<
    EventModel,
>
    decreases s.len(),
{
    if s.len() == 0 {
        seq![]
    } else {
        let rest = newest_first(s.drop_last(), start, end);
        if in_window(s.last(), start, end) {
            seq![s.last()] + rest
        } else {
            rest
        }
    }
}

/// At most `limit` elements from the front of `s`.
pub open spec fn take_limit<A>(s: Seq<A>, limit: Option<usize>) -> Seq<A> {
    match limit {
        Some(n) => if n < s.len() {
            s.take(n as int)
        } else {
            s
        },
        None => s,
    }
}

/// `e` placed after every event whose timestamp is not later than its own.
pub open spec fn insert_sorted(s: Seq<EventModel>, e: EventModel) -> Seq<EventModel>
    decreases s.len(),
{
    if s.len() == 0 {
        seq![e]
    } else if s.last().timestamp <= e.timestamp {
        s.push(e)
    } else {
        insert_sorted(s.drop_last(), e).push(s.last())
    }
}

/// Events after a heartbeat with a pulse window of zero: an event that is
/// already present is not inserted again.
pub open spec fn heartbeat_result(s: Seq<EventModel>, e: EventModel) -> Seq<EventModel> {
    if s.contains(e) {
        s
    } else {
        insert_sorted(s, e)
    }
}

/// The uniform capability set of every store kind. The engine is written
/// against it alone.
pub trait AccessMethod {
    /// The buckets of the store, by id.
    spec fn store(&self) -> Map<Seq<char>, BucketState>;

    /// The store never fails but where a bucket is missing or already exists.
    spec fn infallible(&self) -> bool;

    fn get_buckets(&self) -> (r: Result<Vec<Bucket>, StoreError>)
        requires
            store_wf(self.store()),
        ensures
            r matches Ok(v) ==> {
                &&& forall|i: int| 0 <= i < v.len() ==> #[trigger] self.store().contains_key(v[i].id@)
                    && self.store()[v[i].id@].bucket == v[i]@
                &&& forall|k: Seq<char>| #[trigger] self.store().contains_key(k) ==> exists|i: int|
                    0 <= i < v.len() && #[trigger] v[i].id@ == k
                &&& forall|i: int, j: int| 0 <= i < j < v.len() ==> v[i].id@ != v[j].id@
            },
            self.infallible() ==> r is Ok,
    ;

    fn get_bucket(&self, bucket_id: &String) -> (r: Result<Bucket, StoreError>)
        requires
            store_wf(self.store()),
        ensures
            r matches Ok(b) ==> self.store().contains_key(bucket_id@) && b@ == self.store()[bucket_id@].bucket,
            r matches Err(StoreError::NoSuchBucket(_)) ==> !self.store().contains_key(bucket_id@),
            !self.store().contains_key(bucket_id@) ==> r is Err,
            self.infallible() ==> (self.store().contains_key(bucket_id@) <==> r is Ok),
            self.infallible() && !self.store().contains_key(bucket_id@) ==> r matches Err(StoreError::NoSuchBucket(_)),
    ;

    fn create_bucket(&mut self, bucket: &Bucket) -> (r: Result<(), StoreError>)
        requires
            store_wf(old(self).store()),
        ensures
            store_wf(final(self).store()),
            final(self).infallible() == old(self).infallible(),
            old(self).infallible() && !old(self).store().contains_key(bucket.id@) ==> r is Ok,
            r is Ok ==> !old(self).store().contains_key(bucket.id@) && final(self).store()
                == old(self).store().insert(bucket.id@, BucketState { bucket: bucket@, events: seq![] }),
            r is Err ==> final(self).store() == old(self).store(),
            r matches Err(StoreError::BucketAlreadyExists(_)) ==> old(self).store().contains_key(bucket.id@),
    ;

    /// Events of a bucket in `[start, end)`, newest first, at most `limit` of them.
    fn get_events(&self, bucket_id: &String, start: Option<i64>, end: Option<i64>, limit: Option<usize>) -> (r: Result<Vec<Event>, StoreError>)
        requires
            store_wf(self.store()),
        ensures
            r matches Ok(v) ==> self.store().contains_key(bucket_id@) && events_view(v@) == take_limit(
                newest_first(self.store()[bucket_id@].events, start, end),
                limit,
            ),
            self.infallible() && self.store().contains_key(bucket_id@) ==> r is Ok,
    ;

    fn get_event_count(&self, bucket_id: &String) -> (r: Result<u64, StoreError>)
        requires
            store_wf(self.store()),
        ensures
            r matches Ok(n) ==> self.store().contains_key(bucket_id@) && n == self.store()[bucket_id@].events.len(),
            r matches Err(StoreError::NoSuchBucket(_)) ==> !self.store().contains_key(bucket_id@),
            self.infallible() && self.store().contains_key(bucket_id@) ==> r is Ok,
    ;

    /// Inserts `event` with a pulse window of zero: every event that is not
    /// already present becomes a distinct event of the bucket. Ids are
    /// store-local, so the event handed in carries none.
    fn heartbeat(&mut self, bucket_id: &String, event: Event) -> (r: Result<(), StoreError>)
        requires
            store_wf(old(self).store()),
            event_wf(event@),
            event.id is None,
        ensures
            store_wf(final(self).store()),
            final(self).infallible() == old(self).infallible(),
            old(self).infallible() && old(self).store().contains_key(bucket_id@) ==> r is Ok,
            r is Ok ==> old(self).store().contains_key(bucket_id@) && final(self).store() == old(self).store().insert(
                bucket_id@,
                BucketState {
                    bucket: old(self).store()[bucket_id@].bucket,
                    events: heartbeat_result(old(self).store()[bucket_id@].events, event@),
                },
            ),
            r is Err ==> final(self).store() == old(self).store(),
    ;
}

} // verus!
