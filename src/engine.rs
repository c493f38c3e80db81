use vstd::prelude::*;
use crate::model::{Bucket, BucketModel, clone_bucket, Event, EventModel, event_wf, events_view};
use vstd::string::*;
use crate::ident::{
    dest_id, new_sync_bucket, repaired_hostname, strings_view, destination_id, make_sync_bucket,
    UNKNOWN_HOSTNAME,
};
use crate::access::{AccessMethod, BucketState, StoreError, store_wf, newest_first, heartbeat_result};
use crate::laws::{all_wf, law_merge_idempotent};
use crate::merge::{
    resume_point, oldest_first, replay, merged, appended, lemma_newest_first_unbounded,
    lemma_newest_first_contains, lemma_replay, lemma_partial_merge_appended, lemma_member_wf,
};

verus! {

/// Failures of a synchronization pass.
pub enum SyncError {
    Store(StoreError),
    /// A bucket with the placeholder hostname was met and no source device id was given.
    MissingDeviceId,
}

/// Store `m` with the events of bucket `k` replaced by `events`.
pub open spec fn with_events(m: Map<Seq<char>, BucketState>, k: Seq<char>, events: Seq<EventModel>) -> Map<
    Seq<char>,
    BucketState,
> {
    m.insert(k, BucketState { bucket: m[k].bucket, events: events })
}

/// Merges the events of `bucket_from` in `ds_from` into `bucket_to` in
/// `ds_to`, resuming after the most recent destination event. Returns how
/// many events the destination gained.
pub fn sync_one<F: AccessMethod, T: AccessMethod>(
    ds_from: &F,
    ds_to: &mut T,
    bucket_from: &Bucket,
    bucket_to: &Bucket,
) -> (r: Result<u64, SyncError>)
    requires
        store_wf(ds_from.store()),
        store_wf(old(ds_to).store()),
    ensures
        store_wf(final(ds_to).store()),
        final(ds_to).infallible() == old(ds_to).infallible(),
        ds_from.infallible() && old(ds_to).infallible() && ds_from.store().contains_key(bucket_from.id@) && old(
            ds_to).store().contains_key(bucket_to.id@) ==> r is Ok,
        r is Err ==> r matches Err(SyncError::Store(_)),
        !old(ds_to).store().contains_key(bucket_to.id@) ==> final(ds_to).store() == old(ds_to).store(),
        old(ds_to).store().contains_key(bucket_to.id@) ==> {
            let old_events = old(ds_to).store()[bucket_to.id@].events;
            exists|s: Seq<EventModel>| #[trigger]
                with_events(old(ds_to).store(), bucket_to.id@, s) == final(ds_to).store() && appended(
                    old_events,
                    s,
                    ds_from.store()[bucket_from.id@].events,
                )
        },
        r matches Ok(n) ==> ds_from.store().contains_key(bucket_from.id@) && old(ds_to).store().contains_key(
            bucket_to.id@,
        ) && {
            let old_events = old(ds_to).store()[bucket_to.id@].events;
            let new_events = merged(old_events, ds_from.store()[bucket_from.id@].events);
            &&& final(ds_to).store() == with_events(old(ds_to).store(), bucket_to.id@, new_events)
            &&& n == new_events.len() - old_events.len()
        },
{
    let ghost m0 = ds_to.store();
    let ghost to_id = bucket_to.id@;
    proof {
        if m0.contains_key(to_id) {
            assert(with_events(m0, to_id, m0[to_id].events) =~= m0);
            let src0 = ds_from.store()[bucket_from.id@].events;
            lemma_partial_merge_appended(m0[to_id].events, src0, None, 0);
            assert(replay(m0[to_id].events, oldest_first(src0, None).take(0)) == m0[to_id].events);
        }
    }
    let count_old = match ds_to.get_event_count(&bucket_to.id) {
        Ok(n) => n,
        Err(e) => return Err(SyncError::Store(e)),
    };
    let ghost old_events = m0[to_id].events;
    let recent = match ds_to.get_events(&bucket_to.id, None, None, Some(1)) {
        Ok(v) => v,
        Err(e) => return Err(SyncError::Store(e)),
    };
    proof {
        lemma_newest_first_unbounded(old_events);
        assert(events_view(recent@).len() == recent@.len());
        if old_events.len() > 0 {
            assert(recent@.len() > 0);
            assert(events_view(recent@)[0] == recent@[0]@);
            assert(event_wf(old_events[old_events.len() - 1]));
        }
    }
    let resume_sync_at: Option<i64> = if recent.len() == 0 {
        None
    } else {
        Some(recent[0].timestamp + recent[0].duration)
    };
    assert(resume_sync_at == resume_point(old_events));
    let mut pending = match ds_from.get_events(&bucket_from.id, resume_sync_at, None, None) {
        Ok(v) => v,
        Err(e) => return Err(SyncError::Store(e)),
    };
    let ghost src_events = ds_from.store()[bucket_from.id@].events;
    let ghost asc = oldest_first(src_events, resume_sync_at);
    let ghost n = pending.len();
    assert(events_view(pending@) == newest_first(src_events, resume_sync_at, None));
    // Pending events are handed over oldest first; their store-local ids are dropped.
    while pending.len() > 0
        invariant
            store_wf(ds_from.store()),
            store_wf(ds_to.store()),
            ds_from.store().contains_key(bucket_from.id@),
            src_events == ds_from.store()[bucket_from.id@].events,
            asc == oldest_first(src_events, resume_sync_at),
            n == asc.len(),
            pending.len() <= n,
            events_view(pending@) == newest_first(src_events, resume_sync_at, None).take(pending.len() as int),
            m0.contains_key(to_id),
            m0 == old(ds_to).store(),
            ds_to.infallible() == old(ds_to).infallible(),
            to_id == bucket_to.id@,
            old_events == m0[to_id].events,
            ds_to.store() == with_events(m0, to_id, replay(old_events, asc.take(n - pending.len()))),
        decreases pending.len(),
    {
        let ghost k = n - pending.len();
        let ghost desc = newest_first(src_events, resume_sync_at, None);
        let ghost before = pending@;
        let e = pending.pop().unwrap();
        proof {
            assert(events_view(before)[before.len() - 1] == before[before.len() - 1]@);
            assert(e@ == desc[pending.len() as int]);
            assert(asc[k] == e@);
            assert(asc.take(k + 1) =~= asc.take(k).push(e@));
            assert(events_view(pending@) =~= desc.take(pending.len() as int));
            lemma_newest_first_contains(src_events, resume_sync_at, None, e@);
            assert(desc[pending.len() as int] == e@);
            lemma_member_wf(src_events, e@);
        }
        let ghost ev = e@;
        let event = Event { id: None, timestamp: e.timestamp, duration: e.duration, data: e.data };
        match ds_to.heartbeat(&bucket_to.id, event) {
            Ok(()) => {},
            Err(err) => {
                proof {
                    lemma_partial_merge_appended(old_events, src_events, resume_sync_at, k);
                    assert(with_events(m0, to_id, replay(old_events, asc.take(k))) == ds_to.store());
                }
                return Err(SyncError::Store(err));
            },
        }
        proof {
            assert(asc.take(k + 1).drop_last() =~= asc.take(k));
            assert(asc.take(k + 1).last() == ev);
            assert(replay(old_events, asc.take(k + 1)) == heartbeat_result(replay(old_events, asc.take(k)), ev));
            assert(with_events(m0, to_id, replay(old_events, asc.take(k + 1))) =~= ds_to.store());
        }
    }
    assert(asc.take(n as int) =~= asc);
    let count_new = match ds_to.get_event_count(&bucket_to.id) {
        Ok(c) => c,
        Err(e) => {
            proof {
                lemma_partial_merge_appended(old_events, src_events, resume_sync_at, n as int);
            }
            return Err(SyncError::Store(e));
        },
    };
    proof {
        lemma_replay(old_events, asc, old_events.first());
        lemma_partial_merge_appended(old_events, src_events, resume_sync_at, n as int);
        assert(with_events(m0, to_id, merged(old_events, src_events)) == ds_to.store());
    }
    Ok(count_new - count_old)
}

/// Returns the destination bucket for `bucket_from`, creating it from the
/// source record when it does not exist yet.
pub fn get_or_create_sync_bucket<T: AccessMethod>(bucket_from: &Bucket, ds_to: &mut T, is_push: bool) -> (r:
    Result<Bucket, SyncError>)
    requires
        store_wf(old(ds_to).store()),
    ensures
        store_wf(final(ds_to).store()),
        final(ds_to).infallible() == old(ds_to).infallible(),
        old(ds_to).infallible() ==> r is Ok,
        r is Err ==> r matches Err(SyncError::Store(_)),
        old(ds_to).store().contains_key(dest_id(bucket_from@, is_push)) ==> final(ds_to).store() == old(ds_to).store(),
        final(ds_to).store() == old(ds_to).store() || final(ds_to).store() == old(ds_to).store().insert(
            dest_id(bucket_from@, is_push),
            BucketState { bucket: new_sync_bucket(bucket_from@, is_push), events: seq![] },
        ),
        r matches Ok(b) ==> final(ds_to).store().contains_key(dest_id(bucket_from@, is_push)) && b@ == final(ds_to).store()[dest_id(bucket_from@, is_push)].bucket,
        !old(ds_to).store().contains_key(dest_id(bucket_from@, is_push)) && r is Ok ==> final(ds_to).store()
            == old(ds_to).store().insert(
            dest_id(bucket_from@, is_push),
            BucketState { bucket: new_sync_bucket(bucket_from@, is_push), events: seq![] },
        ),
{
    let new_id = destination_id(bucket_from, is_push);
    match ds_to.get_bucket(&new_id) {
        Ok(b) => Ok(b),
        Err(StoreError::NoSuchBucket(_)) => {
            let bucket_new = make_sync_bucket(bucket_from, is_push);
            match ds_to.create_bucket(&bucket_new) {
                Ok(()) => {},
                Err(e) => return Err(SyncError::Store(e)),
            }
            match ds_to.get_bucket(&new_id) {
                Ok(b) => Ok(b),
                Err(e) => Err(SyncError::Store(e)),
            }
        },
        Err(e) => Err(SyncError::Store(e)),
    }
}

/// A source bucket after hostname repair.
pub open spec fn repair_bucket(b: BucketModel, src_did: Option<Seq<char>>) -> BucketModel {
    BucketModel { hostname: repaired_hostname(b.hostname, src_did), ..b }
}

pub open spec fn did_view(src_did: Option<&str>) -> Option<Seq<char>> {
    match src_did {
        Some(d) => Some(d@),
        None => None,
    }
}

/// `None` orders before every instant.
pub open spec fn end_le(a: Option<i64>, b: Option<i64>) -> bool {
    match (a, b) {
        (None, _) => true,
        (Some(_), None) => false,
        (Some(x), Some(y)) => x <= y,
    }
}

pub open spec fn sorted_by_end(v: Seq<Bucket>) -> bool {
    forall|i: int, j: int| 0 <= i <= j < v.len() ==> end_le(v[i].end, v[j].end)
}

fn end_before_or_at(a: Option<i64>, b: Option<i64>) -> (r: bool)
    ensures
        r == end_le(a, b),
{
    match (a, b) {
        (None, _) => true,
        (Some(_), None) => false,
        (Some(x), Some(y)) => x <= y,
    }
}

/// Whether `id` is in the allow-list.
pub fn is_allowed(allow: &Vec<String>, id: &String) -> (r: bool)
    ensures
        r == strings_view(allow@).contains(id@),
{
    let mut i: usize = 0;
    while i < allow.len()
        invariant
            i <= allow.len(),
            forall|j: int| 0 <= j < i ==> allow@[j]@ != id@,
        decreases allow.len() - i,
    {
        if allow[i] == *id {
            assert(strings_view(allow@)[i as int] == id@);
            return true;
        }
        i += 1;
    }
    proof {
        if strings_view(allow@).contains(id@) {
            let j = choose|j: int| 0 <= j < allow.len() && strings_view(allow@)[j] == id@;
            assert(allow@[j]@ == id@);
        }
    }
    false
}

pub open spec fn bucket_views(v: Seq<Bucket>) -> Seq<BucketModel> {
    v.map_values(|b: Bucket| b@)
}

proof fn lemma_insert_contains<A>(s: Seq<A>, pos: int, e: A, y: A)
    requires
        0 <= pos <= s.len(),
    ensures
        s.insert(pos, e).contains(y) <==> (s.contains(y) || y == e),
{
    let t = s.insert(pos, e);
    s.insert_ensures(pos, e);
    if s.contains(y) {
        let i = choose|i: int| 0 <= i < s.len() && s[i] == y;
        if i < pos {
            assert(t[i] == y);
        } else {
            assert(t[i + 1] == y);
        }
    }
    if y == e {
        assert(t[pos] == y);
    }
    if t.contains(y) {
        let i = choose|i: int| 0 <= i < t.len() && t[i] == y;
        if i < pos {
            assert(s[i] == y);
        } else if i > pos {
            assert(s[i - 1] == y);
        }
    }
}

/// Inserts `b` after every bucket whose end is not later than its own.
fn insert_by_end(v: &mut Vec<Bucket>, b: Bucket)
    requires
        sorted_by_end(old(v)@),
    ensures
        sorted_by_end(final(v)@),
        forall|y: BucketModel| #[trigger] bucket_views(final(v)@).contains(y) <==> (bucket_views(old(v)@).contains(y) || y == b@),
{
    let mut pos: usize = 0;
    while pos < v.len() && end_before_or_at(v[pos].end, b.end)
        invariant
            pos <= v.len(),
            forall|i: int| 0 <= i < pos ==> end_le(#[trigger] v[i].end, b.end),
        decreases v.len() - pos,
    {
        pos += 1;
    }
    let ghost before = v@;
    let ghost bv = b@;
    let ghost be = b.end;
    assert(pos < before.len() ==> !end_le(before[pos as int].end, be));
    v.insert(pos, b);
    proof {
        before.insert_ensures(pos as int, v@[pos as int]);
        assert forall|i: int, j: int| 0 <= i <= j < v.len() implies end_le(v@[i].end, v@[j].end) by {
            if j > pos && pos < before.len() {
                assert(end_le(before[pos as int].end, before[j - 1].end));
            }
        }
        assert(bucket_views(v@) =~= bucket_views(before).insert(pos as int, bv));
        assert forall|y: BucketModel| #[trigger] bucket_views(v@).contains(y) <==> (bucket_views(before).contains(y) || y == bv) by {
            lemma_insert_contains(bucket_views(before), pos as int, bv, y);
        }
    }
}

/// The buckets of `list` to synchronize: hostnames repaired, only those on
/// the allow-list, ordered by non-decreasing end of their events.
pub fn select_buckets(list: &Vec<Bucket>, src_did: Option<&str>, allow: &Vec<String>) -> (r: Result<
    Vec<Bucket>,
    SyncError,
>)
    ensures
        r is Err <==> (src_did is None && exists|j: int| 0 <= j < list.len() && #[trigger] list[j].hostname@ == UNKNOWN_HOSTNAME@),
        r is Err ==> r matches Err(SyncError::MissingDeviceId),
        r matches Ok(v) ==> {
            &&& sorted_by_end(v@)
            &&& forall|y: BucketModel| #[trigger] bucket_views(v@).contains(y) ==> exists|j: int| 0 <= j < list.len() && y
                == repair_bucket(#[trigger] list[j]@, did_view(src_did)) && strings_view(allow@).contains(list[j].id@)
            &&& forall|j: int| 0 <= j < list.len() && #[trigger] strings_view(allow@).contains(list[j].id@) ==>
                bucket_views(v@).contains(repair_bucket(list[j]@, did_view(src_did)))
        },
{
    let unknown = String::from_str(UNKNOWN_HOSTNAME);
    let mut v: Vec<Bucket> = Vec::new();
    let mut idx: usize = 0;
    while idx < list.len()
        invariant
            idx <= list.len(),
            unknown@ == UNKNOWN_HOSTNAME@,
            src_did is None ==> forall|j: int| 0 <= j < idx ==> #[trigger] list[j].hostname@ != UNKNOWN_HOSTNAME@,
            sorted_by_end(v@),
            forall|y: BucketModel| #[trigger] bucket_views(v@).contains(y) ==> exists|j: int| 0 <= j < idx && y
                == repair_bucket(#[trigger] list[j]@, did_view(src_did)) && strings_view(allow@).contains(list[j].id@),
            forall|j: int| 0 <= j < idx && #[trigger] strings_view(allow@).contains(list[j].id@) ==>
                bucket_views(v@).contains(repair_bucket(list[j]@, did_view(src_did))),
        decreases list.len() - idx,
    {
        let mut b = clone_bucket(&list[idx]);
        if b.hostname == unknown {
            match src_did {
                Some(d) => {
                    b.hostname = String::from_str(d);
                },
                None => return Err(SyncError::MissingDeviceId),
            }
        }
        let ghost bv = b@;
        assert(bv == repair_bucket(list[idx as int]@, did_view(src_did)));
        if is_allowed(allow, &b.id) {
            insert_by_end(&mut v, b);
            assert forall|y: BucketModel| #[trigger] bucket_views(v@).contains(y) implies exists|j: int| 0 <= j < idx + 1 && y
                == repair_bucket(#[trigger] list[j]@, did_view(src_did)) && strings_view(allow@).contains(list[j].id@) by {
                if y == bv {
                    assert(y == repair_bucket(list[idx as int]@, did_view(src_did)));
                }
            }
        }
        idx += 1;
    }
    Ok(v)
}

/// `k` is the destination id of an allow-listed bucket of the source store.
pub open spec fn is_target(
    m_from: Map<Seq<char>, BucketState>,
    k: Seq<char>,
    is_push: bool,
    did: Option<Seq<char>>,
    allow: Seq<Seq<char>>,
) -> bool {
    exists|id: Seq<char>|
        #[trigger] m_from.contains_key(id) && allow.contains(id) && dest_id(repair_bucket(m_from[id].bucket, did), is_push) == k
}

/// No bucket of `m0` is lost, none has its record changed, and none loses
/// an event: its old events stay, each as often as before.
pub open spec fn keeps_events(m0: Map<Seq<char>, BucketState>, m1: Map<Seq<char>, BucketState>) -> bool {
    forall|k: Seq<char>| #[trigger] m0.contains_key(k) ==> m1.contains_key(k) && m1[k].bucket == m0[k].bucket
        && m0[k].events.to_multiset().subset_of(m1[k].events.to_multiset())
}

/// Buckets that are no destination of the pass are neither created nor modified.
pub open spec fn unchanged_outside(
    m0: Map<Seq<char>, BucketState>,
    m1: Map<Seq<char>, BucketState>,
    m_from: Map<Seq<char>, BucketState>,
    is_push: bool,
    did: Option<Seq<char>>,
    allow: Seq<Seq<char>>,
) -> bool {
    forall|k: Seq<char>|
        #![trigger m0.contains_key(k)]
        #![trigger m1.contains_key(k)]
        !is_target(m_from, k, is_push, did, allow) ==> m1.contains_key(k) == m0.contains_key(k) && (m0.contains_key(k) ==> m1[k]
            == m0[k])
}

/// No other allow-listed source bucket shares the destination of bucket `id`.
pub open spec fn unique_target(
    m_from: Map<Seq<char>, BucketState>,
    id: Seq<char>,
    is_push: bool,
    did: Option<Seq<char>>,
    allow: Seq<Seq<char>>,
) -> bool {
    forall|id2: Seq<char>|
        #[trigger] m_from.contains_key(id2) && allow.contains(id2) && dest_id(repair_bucket(m_from[id2].bucket, did), is_push)
            == dest_id(repair_bucket(m_from[id].bucket, did), is_push) ==> id2 == id
}

/// The destination bucket of `b` after its merge, from the destination
/// store `m0` as it was before the pass: its record as it was, or the record
/// created for `b`, and its events merged with the source events `src`.
pub open spec fn synced_state(m0: Map<Seq<char>, BucketState>, b: BucketModel, is_push: bool, src: Seq<EventModel>) -> BucketState {
    let k = dest_id(b, is_push);
    if m0.contains_key(k) {
        BucketState { bucket: m0[k].bucket, events: merged(m0[k].events, src) }
    } else {
        BucketState { bucket: new_sync_bucket(b, is_push), events: merged(seq![], src) }
    }
}

/// One of the first `i` selected buckets has destination `k`.
pub open spec fn touched(sel: Seq<Bucket>, i: int, k: Seq<char>, is_push: bool) -> bool {
    exists|j: int| 0 <= j < i && #[trigger] dest_id(sel[j]@, is_push) == k
}

proof fn lemma_keeps_events_trans(m0: Map<Seq<char>, BucketState>, m1: Map<Seq<char>, BucketState>, m2: Map<Seq<char>, BucketState>)
    requires
        keeps_events(m0, m1),
        keeps_events(m1, m2),
    ensures
        keeps_events(m0, m2),
{
    assert forall|k: Seq<char>| #[trigger] m0.contains_key(k) implies m2.contains_key(k) && m2[k].bucket == m0[k].bucket
        && m0[k].events.to_multiset().subset_of(m2[k].events.to_multiset()) by {
        assert(m1.contains_key(k));
        assert forall|x: EventModel| m0[k].events.to_multiset().count(x) <= m2[k].events.to_multiset().count(x) by {
            assert(m0[k].events.to_multiset().count(x) <= m1[k].events.to_multiset().count(x));
            assert(m1[k].events.to_multiset().count(x) <= m2[k].events.to_multiset().count(x));
        }
    }
}

proof fn lemma_wf_events(m: Map<Seq<char>, BucketState>, k: Seq<char>)
    requires
        store_wf(m),
    ensures
        all_wf(if m.contains_key(k) { m[k].events } else { seq![] }),
{
    if m.contains_key(k) {
        assert forall|i: int| 0 <= i < m[k].events.len() implies event_wf(#[trigger] m[k].events[i]) by {
            assert(m.contains_key(k));
        }
    }
}

/// Synchronizes the allow-listed buckets of `ds_from` into `ds_to`, in order
/// of the end of their events. When pulling, destination ids carry the
/// origin; when pushing, they are the source ids.
pub fn sync_datastores<F: AccessMethod, T: AccessMethod>(
    ds_from: &F,
    ds_to: &mut T,
    is_push: bool,
    src_did: Option<&str>,
    buckets: &Vec<String>,
) -> (r: Result<(), SyncError>)
    requires
        store_wf(ds_from.store()),
        store_wf(old(ds_to).store()),
    ensures
        store_wf(final(ds_to).store()),
        final(ds_to).infallible() == old(ds_to).infallible(),
        ds_from.infallible() && old(ds_to).infallible() && !(src_did is None && exists|id: Seq<char>| #[trigger] ds_from.store().contains_key(id)
            && ds_from.store()[id].bucket.hostname == UNKNOWN_HOSTNAME@) ==> r is Ok,
        keeps_events(old(ds_to).store(), final(ds_to).store()),
        unchanged_outside(old(ds_to).store(), final(ds_to).store(), ds_from.store(), is_push, did_view(src_did), strings_view(buckets@)),
        r matches Err(SyncError::MissingDeviceId) ==> src_did is None && exists|id: Seq<char>| #[trigger] ds_from.store().contains_key(id)
            && ds_from.store()[id].bucket.hostname == UNKNOWN_HOSTNAME@,
        (src_did is None && exists|id: Seq<char>| #[trigger] ds_from.store().contains_key(id)
            && ds_from.store()[id].bucket.hostname == UNKNOWN_HOSTNAME@) ==> r is Err,
        r is Ok ==> forall|id: Seq<char>| #[trigger] ds_from.store().contains_key(id) && strings_view(buckets@).contains(id)
            ==> final(ds_to).store().contains_key(dest_id(repair_bucket(ds_from.store()[id].bucket, did_view(src_did)), is_push)),
        r is Ok ==> forall|id: Seq<char>| #[trigger] ds_from.store().contains_key(id) && strings_view(buckets@).contains(id)
            && unique_target(ds_from.store(), id, is_push, did_view(src_did), strings_view(buckets@)) ==> final(ds_to).store()[dest_id(
                repair_bucket(ds_from.store()[id].bucket, did_view(src_did)), is_push)] == synced_state(
                old(ds_to).store(), repair_bucket(ds_from.store()[id].bucket, did_view(src_did)), is_push, ds_from.store()[id].events),
{
    let ghost m0 = ds_to.store();
    let ghost mf = ds_from.store();
    let ghost did = did_view(src_did);
    let ghost allow = strings_view(buckets@);
    let list = match ds_from.get_buckets() {
        Ok(l) => l,
        Err(e) => {
            proof {
                lemma_keeps_events_refl(m0);
            }
            return Err(SyncError::Store(e));
        },
    };
    let selected = match select_buckets(&list, src_did, buckets) {
        Ok(v) => v,
        Err(e) => {
            proof {
                let j = choose|j: int| 0 <= j < list.len() && #[trigger] list[j].hostname@ == UNKNOWN_HOSTNAME@;
                assert(mf.contains_key(list[j].id@));
                lemma_keeps_events_refl(m0);
            }
            return Err(e);
        },
    };
    proof {
        if src_did is None && exists|id: Seq<char>| #[trigger] mf.contains_key(id) && mf[id].bucket.hostname == UNKNOWN_HOSTNAME@ {
            let id = choose|id: Seq<char>| #[trigger] mf.contains_key(id) && mf[id].bucket.hostname == UNKNOWN_HOSTNAME@;
            let j = choose|j: int| 0 <= j < list.len() && #[trigger] list[j].id@ == id;
            assert(list[j].hostname@ == UNKNOWN_HOSTNAME@);
        }
        assert forall|j: int| 0 <= j < selected.len() implies #[trigger] mf.contains_key(selected[j].id@) && allow.contains(selected[j].id@)
            && selected[j]@ == repair_bucket(mf[selected[j].id@].bucket, did) by {
            assert(bucket_views(selected@)[j] == selected[j]@);
            assert(bucket_views(selected@).contains(selected[j]@));
            let a = choose|a: int| 0 <= a < list.len() && selected[j]@ == repair_bucket(#[trigger] list[a]@, did) && allow.contains(list[a].id@);
            assert(mf.contains_key(list[a].id@));
        }
        lemma_keeps_events_refl(m0);
    }
    let mut i: usize = 0;
    while i < selected.len()
        invariant
            i <= selected.len(),
            mf == ds_from.store(),
            m0 == old(ds_to).store(),
            ds_to.infallible() == old(ds_to).infallible(),
            did == did_view(src_did),
            allow == strings_view(buckets@),
            store_wf(mf),
            store_wf(m0),
            store_wf(ds_to.store()),
            keeps_events(m0, ds_to.store()),
            unchanged_outside(m0, ds_to.store(), mf, is_push, did, allow),
            forall|j: int| 0 <= j < selected.len() ==> #[trigger] mf.contains_key(selected[j].id@) && allow.contains(selected[j].id@)
                && selected[j]@ == repair_bucket(mf[selected[j].id@].bucket, did),
            forall|j: int| 0 <= j < i ==> ds_to.store().contains_key(#[trigger] dest_id(selected[j]@, is_push)),
            forall|k: Seq<char>| #![trigger ds_to.store().contains_key(k)] !touched(selected@, i as int, k, is_push) ==> ds_to.store().contains_key(k)
                == m0.contains_key(k) && (m0.contains_key(k) ==> ds_to.store()[k] == m0[k]),
            forall|j: int| 0 <= j < i && unique_target(mf, #[trigger] selected[j].id@, is_push, did, allow) ==> ds_to.store()[dest_id(selected[j]@, is_push)]
                == synced_state(m0, selected[j]@, is_push, mf[selected[j].id@].events),
            forall|y: BucketModel| #[trigger] bucket_views(selected@).contains(y) ==> exists|j: int| 0 <= j < list.len() && y
                == repair_bucket(#[trigger] list[j]@, did) && allow.contains(list[j].id@),
            forall|j: int| 0 <= j < list.len() ==> #[trigger] mf.contains_key(list[j].id@) && mf[list[j].id@].bucket == list[j]@,
        decreases selected.len() - i,
    {
        let ghost m1 = ds_to.store();
        let ghost b = selected[i as int]@;
        let ghost kt = dest_id(b, is_push);
        let ghost src = mf[b.id].events;
        proof {
            assert(mf.contains_key(b.id));
            assert(is_target(mf, kt, is_push, did, allow));
        }
        let bucket_to = match get_or_create_sync_bucket(&selected[i], ds_to, is_push) {
            Ok(bt) => bt,
            Err(e) => {
                proof {
                    lemma_keeps_events_trans(m0, m1, ds_to.store());
                }
                return Err(e);
            },
        };
        let ghost m2 = ds_to.store();
        proof {
            lemma_keeps_events_trans(m0, m1, m2);
        }
        assert(bucket_to.id@ == kt);
        let res = sync_one(ds_from, ds_to, &selected[i], &bucket_to);
        let ghost m3 = ds_to.store();
        proof {
            let s = choose|s: Seq<EventModel>| #[trigger] with_events(m2, kt, s) == m3 && appended(m2[kt].events, s, src);
            assert(keeps_events(m2, m3));
            lemma_keeps_events_trans(m0, m2, m3);
        }
        match res {
            Ok(_) => {},
            Err(e) => return Err(e),
        }
        proof {
            assert(m3 == with_events(m2, kt, merged(m2[kt].events, src)));
            if unique_target(mf, b.id, is_push, did, allow) {
                lemma_wf_events(m0, kt);
                lemma_wf_events(mf, b.id);
                if touched(selected@, i as int, kt, is_push) {
                    let j0 = choose|j: int| 0 <= j < i && #[trigger] dest_id(selected@[j]@, is_push) == kt;
                    assert(mf.contains_key(selected[j0].id@));
                    assert(selected[j0].id@ == b.id);
                    assert(unique_target(mf, selected[j0].id@, is_push, did, allow));
                    assert(m1[kt] == synced_state(m0, b, is_push, src));
                    law_merge_idempotent(if m0.contains_key(kt) { m0[kt].events } else { seq![] }, src);
                } else {
                    assert(m1.contains_key(kt) == m0.contains_key(kt));
                }
                assert(m3[kt] == synced_state(m0, b, is_push, src));
            }
            assert forall|j: int| 0 <= j < i + 1 && unique_target(mf, #[trigger] selected[j].id@, is_push, did, allow) implies m3[dest_id(selected[j]@, is_push)]
                == synced_state(m0, selected[j]@, is_push, mf[selected[j].id@].events) by {
                if dest_id(selected[j]@, is_push) == kt {
                    assert(mf.contains_key(b.id) && allow.contains(b.id) && b == repair_bucket(mf[b.id].bucket, did));
                    assert(0 <= j < selected.len());
                    assert(mf.contains_key(selected@[j].id@));
                    assert(mf.contains_key(selected[j].id@) && selected[j]@ == repair_bucket(mf[selected[j].id@].bucket, did));
                    assert(dest_id(repair_bucket(mf[b.id].bucket, did), is_push) == dest_id(
                        repair_bucket(mf[selected[j].id@].bucket, did), is_push));
                    assert(b.id == selected[j].id@);
                }
            }
            assert forall|k: Seq<char>| #![trigger m3.contains_key(k)] !touched(selected@, i + 1, k, is_push) implies m3.contains_key(k)
                == m0.contains_key(k) && (m0.contains_key(k) ==> m3[k] == m0[k]) by {
                assert(dest_id(selected@[i as int]@, is_push) == kt);
                assert(k != kt);
                assert(!touched(selected@, i as int, k, is_push));
                assert(m1.contains_key(k) == m0.contains_key(k));
            }
        }
        i += 1;
    }
    proof {
        assert forall|id: Seq<char>| #[trigger] mf.contains_key(id) && allow.contains(id) implies ds_to.store().contains_key(
            dest_id(repair_bucket(mf[id].bucket, did), is_push)) && (unique_target(mf, id, is_push, did, allow) ==> ds_to.store()[dest_id(
                repair_bucket(mf[id].bucket, did), is_push)] == synced_state(m0, repair_bucket(mf[id].bucket, did), is_push, mf[id].events)) by {
            let j = choose|j: int| 0 <= j < list.len() && #[trigger] list[j].id@ == id;
            assert(mf.contains_key(list[j].id@));
            assert(bucket_views(selected@).contains(repair_bucket(list[j]@, did)));
            let i0 = choose|i0: int| 0 <= i0 < selected.len() && bucket_views(selected@)[i0] == repair_bucket(list[j]@, did);
            assert(selected[i0]@ == repair_bucket(list[j]@, did));
            assert(ds_to.store().contains_key(dest_id(selected[i0]@, is_push)));
            assert(selected[i0].id@ == id);
        }
    }
    Ok(())
}

/// A second pass over unchanged source buckets leaves each destination
/// bucket that the first pass settled exactly as the first pass left it, so
/// its event count does not change.
pub proof fn law_pass_idempotent(
    m0: Map<Seq<char>, BucketState>,
    m1: Map<Seq<char>, BucketState>,
    m2: Map<Seq<char>, BucketState>,
    mf: Map<Seq<char>, BucketState>,
    b: BucketModel,
    is_push: bool,
)
    requires
        store_wf(m0),
        store_wf(mf),
        mf.contains_key(b.id),
        m1.contains_key(dest_id(b, is_push)),
        m1[dest_id(b, is_push)] == synced_state(m0, b, is_push, mf[b.id].events),
        m2[dest_id(b, is_push)] == synced_state(m1, b, is_push, mf[b.id].events),
    ensures
        m2[dest_id(b, is_push)] == m1[dest_id(b, is_push)],
        m2[dest_id(b, is_push)].events.len() == m1[dest_id(b, is_push)].events.len(),
{
    let kt = dest_id(b, is_push);
    lemma_wf_events(m0, kt);
    lemma_wf_events(mf, b.id);
    law_merge_idempotent(if m0.contains_key(kt) { m0[kt].events } else { seq![] }, mf[b.id].events);
}

proof fn lemma_keeps_events_refl(m: Map<Seq<char>, BucketState>)
    ensures
        keeps_events(m, m),
{
}

/// One pass: pull each remote, given with its device id, into the live
/// store, then push the allow-listed buckets of the live store into the
/// staging store under their own ids.
pub fn sync_pass<L: AccessMethod, S: AccessMethod, R: AccessMethod>(
    live: &mut L,
    staging: &mut S,
    remotes: &Vec<(String, R)>,
    device_id: &str,
    buckets: &Vec<String>,
) -> (r: Result<(), SyncError>)
    requires
        store_wf(old(live).store()),
        store_wf(old(staging).store()),
        forall|j: int| 0 <= j < remotes.len() ==> store_wf(#[trigger] remotes[j].1.store()),
    ensures
        store_wf(final(live).store()),
        store_wf(final(staging).store()),
        old(live).infallible() && old(staging).infallible() && (forall|j: int| 0 <= j < remotes.len() ==> #[trigger] remotes[j].1.infallible())
            ==> r is Ok,
        keeps_events(old(live).store(), final(live).store()),
        keeps_events(old(staging).store(), final(staging).store()),
        r is Ok ==> forall|j: int, id: Seq<char>| 0 <= j < remotes.len() && #[trigger] remotes[j].1.store().contains_key(id)
            && strings_view(buckets@).contains(id) ==> final(live).store().contains_key(
                dest_id(repair_bucket(remotes[j].1.store()[id].bucket, Some(remotes[j].0@)), false)),
        r is Ok ==> forall|id: Seq<char>| #[trigger] final(live).store().contains_key(id) && strings_view(buckets@).contains(id)
            ==> final(staging).store().contains_key(id) && final(staging).store()[id] == synced_state(
                old(staging).store(), repair_bucket(final(live).store()[id].bucket, Some(device_id@)), true, final(live).store()[id].events),
{
    let ghost l0 = live.store();
    let ghost allow = strings_view(buckets@);
    let mut i: usize = 0;
    proof {
        lemma_keeps_events_refl(l0);
    }
    while i < remotes.len()
        invariant
            i <= remotes.len(),
            l0 == old(live).store(),
            live.infallible() == old(live).infallible(),
            allow == strings_view(buckets@),
            staging.store() == old(staging).store(),
            store_wf(staging.store()),
            store_wf(live.store()),
            keeps_events(l0, live.store()),
            forall|j: int| 0 <= j < remotes.len() ==> store_wf(#[trigger] remotes[j].1.store()),
            forall|j: int, id: Seq<char>| 0 <= j < i && #[trigger] remotes[j].1.store().contains_key(id) && allow.contains(id)
                ==> live.store().contains_key(dest_id(repair_bucket(remotes[j].1.store()[id].bucket, Some(remotes[j].0@)), false)),
        decreases remotes.len() - i,
    {
        let ghost before = live.store();
        let res = sync_datastores(&remotes[i].1, live, false, Some(remotes[i].0.as_str()), buckets);
        proof {
            lemma_keeps_events_trans(l0, before, live.store());
        }
        match res {
            Ok(()) => {},
            Err(e) => return Err(e),
        }
        proof {
            assert forall|j: int, id: Seq<char>| 0 <= j < i + 1 && #[trigger] remotes[j].1.store().contains_key(id) && allow.contains(id)
                implies live.store().contains_key(dest_id(repair_bucket(remotes[j].1.store()[id].bucket, Some(remotes[j].0@)), false)) by {
                if j < i {
                    assert(before.contains_key(dest_id(repair_bucket(remotes[j].1.store()[id].bucket, Some(remotes[j].0@)), false)));
                }
            }
        }
        i += 1;
    }
    let ghost lf = live.store();
    let res = sync_datastores(&*live, staging, true, Some(device_id), buckets);
    proof {
        assert forall|id: Seq<char>| #[trigger] lf.contains_key(id) && allow.contains(id) implies unique_target(
            lf, id, true, Some(device_id@), allow) by {
            assert forall|id2: Seq<char>| #[trigger] lf.contains_key(id2) && allow.contains(id2) && dest_id(repair_bucket(lf[id2].bucket, Some(device_id@)), true)
                == dest_id(repair_bucket(lf[id].bucket, Some(device_id@)), true) implies id2 == id by {
                assert(lf[id2].bucket.id == id2);
                assert(lf[id].bucket.id == id);
            }
        }
        assert forall|id: Seq<char>| #[trigger] lf.contains_key(id) implies dest_id(repair_bucket(lf[id].bucket, Some(device_id@)), true) == id by {
            assert(lf[id].bucket.id == id);
        }
    }
    res
}

/// Every bucket id of the store with its event count.
pub fn log_buckets<A: AccessMethod>(ds: &A) -> (r: Result<Vec<(String, u64)>, SyncError>)
    requires
        store_wf(ds.store()),
    ensures
        ds.infallible() ==> r is Ok,
        r matches Ok(v) ==> {
            &&& forall|i: int| 0 <= i < v.len() ==> #[trigger] ds.store().contains_key(v[i].0@)
                && v[i].1 == ds.store()[v[i].0@].events.len()
            &&& forall|k: Seq<char>| #[trigger] ds.store().contains_key(k) ==> exists|i: int| 0 <= i < v.len() && #[trigger] v[i].0@ == k
            &&& forall|i: int, j: int| 0 <= i < j < v.len() ==> v[i].0@ != v[j].0@
        },
{
    let buckets = match ds.get_buckets() {
        Ok(l) => l,
        Err(e) => return Err(SyncError::Store(e)),
    };
    let mut out: Vec<(String, u64)> = Vec::new();
    let mut i: usize = 0;
    while i < buckets.len()
        invariant
            i <= buckets.len(),
            store_wf(ds.store()),
            out.len() == i,
            forall|j: int| 0 <= j < buckets.len() ==> #[trigger] ds.store().contains_key(buckets[j].id@),
            forall|j: int| 0 <= j < i ==> #[trigger] out[j].0@ == buckets[j].id@ && ds.store().contains_key(out[j].0@)
                && out[j].1 == ds.store()[out[j].0@].events.len(),
        decreases buckets.len() - i,
    {
        let count = match ds.get_event_count(&buckets[i].id) {
            Ok(c) => c,
            Err(e) => return Err(SyncError::Store(e)),
        };
        out.push((buckets[i].id.clone(), count));
        i += 1;
    }
    proof {
        assert forall|k: Seq<char>| #[trigger] ds.store().contains_key(k) implies exists|i: int| 0 <= i < out.len() && #[trigger] out[i].0@ == k by {
            let j = choose|j: int| 0 <= j < buckets.len() && #[trigger] buckets[j].id@ == k;
            assert(out[j].0@ == k);
        }
        assert forall|a: int, b: int| 0 <= a < b < out.len() implies out[a].0@ != out[b].0@ by {
            assert(out[a].0@ == buckets[a].id@);
            assert(out[b].0@ == buckets[b].id@);
        }
    }
    Ok(out)
}

} // verus!
