use vstd::prelude::*;
use crate::model::{Bucket, Event, EventModel, event_wf, sorted_by_time, events_view, clone_bucket, clone_event};
use crate::access::{
    AccessMethod, BucketState, StoreError, store_wf, newest_first, insert_sorted, heartbeat_result,
};

verus! {

struct MemBucket {
    bucket: Bucket,
    events: Vec<Event>,
}

spec fn entry_state(e: MemBucket) -> BucketState {
    BucketState { bucket: e.bucket@, events: events_view(e.events@) }
}

/// A store held in memory: a list of buckets, each with its events oldest first.
pub struct MemStore {
    entries: Vec<MemBucket>,
    model: Ghost<Map<Seq<char>, BucketState>>,
}

proof fn lemma_insert_at_sorted_place(s: Seq<EventModel>, e: EventModel, pos: int)
    requires
        0 <= pos <= s.len(),
        forall|j: int| pos <= j < s.len() ==> s[j].timestamp > e.timestamp,
        pos > 0 ==> s[pos - 1].timestamp <= e.timestamp,
    ensures
        insert_sorted(s, e) == s.insert(pos, e),
    decreases s.len(),
{
    if s.len() == 0 {
        assert(seq![e] =~= s.insert(pos, e));
    } else if s.last().timestamp <= e.timestamp {
        assert(s.push(e) =~= s.insert(pos, e));
    } else {
        lemma_insert_at_sorted_place(s.drop_last(), e, pos);
        assert(s.drop_last().insert(pos, e).push(s.last()) =~= s.insert(pos, e));
    }
}

fn in_window_exec(ts: i64, start: Option<i64>, end: Option<i64>) -> (r: bool)
    ensures
        r == ((start matches Some(a) ==> a <= ts) && (end matches Some(b) ==> ts < b)),
{
    let after = match start {
        Some(a) => a <= ts,
        None => true,
    };
    let before = match end {
        Some(b) => ts < b,
        None => true,
    };
    after && before
}

impl MemStore {
    #[verifier::type_invariant]
    spec fn inv(self) -> bool {
        &&& store_wf(self.model@)
        &&& forall|i: int, j: int|
            0 <= i < j < self.entries.len() ==> self.entries[i].bucket.id@ != self.entries[j].bucket.id@
        &&& forall|i: int|
            0 <= i < self.entries.len() ==> #[trigger] self.model@.contains_key(self.entries[i].bucket.id@)
                && self.model@[self.entries[i].bucket.id@] == entry_state(self.entries[i])
        &&& forall|k: Seq<char>| #[trigger] self.model@.contains_key(k) ==> exists|i: int|
            0 <= i < self.entries.len() && self.entries[i].bucket.id@ == k
    }

    /// An empty store.
    pub fn new() -> (r: MemStore)
        ensures
            r.store() == Map::<Seq<char>, BucketState>::empty(),
            r.infallible(),
            store_wf(r.store()),
    {
        MemStore { entries: Vec::new(), model: Ghost(Map::empty()) }
    }

    fn find(&self, bucket_id: &String) -> (r: Option<usize>)
        ensures
            r matches Some(i) ==> i < self.entries.len() && self.entries[i as int].bucket.id@ == bucket_id@,
            r is None ==> !self.store().contains_key(bucket_id@),
    {
        proof {
            use_type_invariant(self);
        }
        let mut i: usize = 0;
        while i < self.entries.len()
            invariant
                i <= self.entries.len(),
                forall|j: int| 0 <= j < i ==> self.entries[j].bucket.id@ != bucket_id@,
            decreases self.entries.len() - i,
        {
            if self.entries[i].bucket.id == *bucket_id {
                return Some(i);
            }
            i += 1;
        }
        None
    }
}

impl AccessMethod for MemStore {
    closed spec fn store(&self) -> Map<Seq<char>, BucketState> {
        self.model@
    }

    closed spec fn infallible(&self) -> bool {
        true
    }

    fn get_buckets(&self) -> (r: Result<Vec<Bucket>, StoreError>) {
        proof {
            use_type_invariant(self);
        }
        let mut v: Vec<Bucket> = Vec::new();
        let mut i: usize = 0;
        while i < self.entries.len()
            invariant
                i <= self.entries.len(),
                v.len() == i,
                forall|j: int| 0 <= j < i ==> #[trigger] v[j]@ == self.entries[j].bucket@,
            decreases self.entries.len() - i,
        {
            v.push(clone_bucket(&self.entries[i].bucket));
            i += 1;
        }
        proof {
            assert forall|j: int| 0 <= j < v.len() implies #[trigger] self.store().contains_key(v[j].id@)
                && self.store()[v[j].id@].bucket == v[j]@ by {
                assert(v[j].id@ == self.entries[j].bucket.id@);
            }
            assert forall|k: Seq<char>| #[trigger] self.store().contains_key(k) implies exists|j: int|
                0 <= j < v.len() && #[trigger] v[j].id@ == k by {
                let j = choose|j: int| 0 <= j < self.entries.len() && self.entries[j].bucket.id@ == k;
                assert(v[j]@ == self.entries[j].bucket@);
            }
            assert forall|a: int, b: int| 0 <= a < b < v.len() implies v[a].id@ != v[b].id@ by {
                assert(v[a]@ == self.entries[a].bucket@);
                assert(v[b]@ == self.entries[b].bucket@);
            }
        }
        Ok(v)
    }

    fn get_bucket(&self, bucket_id: &String) -> (r: Result<Bucket, StoreError>) {
        proof {
            use_type_invariant(self);
        }
        match self.find(bucket_id) {
            Some(i) => {
                assert(self.model@.contains_key(self.entries[i as int].bucket.id@));
                Ok(clone_bucket(&self.entries[i].bucket))
            },
            None => Err(StoreError::NoSuchBucket(bucket_id.clone())),
        }
    }

    fn create_bucket(&mut self, bucket: &Bucket) -> (r: Result<(), StoreError>) {
        proof {
            use_type_invariant(&*self);
        }
        if self.find(&bucket.id).is_some() {
            return Err(StoreError::BucketAlreadyExists(bucket.id.clone()));
        }
        let mut st = MemStore::new();
        std::mem::swap(self, &mut st);
        proof {
            use_type_invariant(&st);
        }
        let ghost m0 = st.model@;
        let ghost id = bucket.id@;
        let ghost state = BucketState { bucket: bucket@, events: seq![] };
        let MemStore { mut entries, model } = st;
        let ghost e0 = entries@;
        entries.push(MemBucket { bucket: clone_bucket(bucket), events: Vec::new() });
        proof {
            assert(events_view(entries@[e0.len() as int].events@) =~= Seq::<EventModel>::empty());
            assert forall|k: Seq<char>| #[trigger] m0.insert(id, state).contains_key(k) implies exists|i: int|
                0 <= i < entries.len() && entries[i].bucket.id@ == k by {
                if k == id {
                    assert(entries[e0.len() as int].bucket.id@ == k);
                } else {
                    let i = choose|i: int| 0 <= i < e0.len() && e0[i].bucket.id@ == k;
                    assert(entries[i] == e0[i]);
                }
            }
            assert forall|i: int| 0 <= i < entries.len() implies #[trigger] m0.insert(id, state).contains_key(entries[i].bucket.id@)
                && m0.insert(id, state)[entries[i].bucket.id@] == entry_state(entries[i]) by {
                if i < e0.len() {
                    assert(entries[i] == e0[i]);
                    assert(m0.contains_key(e0[i].bucket.id@));
                }
            }
        }
        *self = MemStore { entries, model: Ghost(m0.insert(id, state)) };
        Ok(())
    }

    fn get_events(&self, bucket_id: &String, start: Option<i64>, end: Option<i64>, limit: Option<usize>) -> (r: Result<
        Vec<Event>,
        StoreError,
    >) {
        proof {
            use_type_invariant(self);
        }
        let idx = match self.find(bucket_id) {
            Some(i) => i,
            None => return Err(StoreError::NoSuchBucket(bucket_id.clone())),
        };
        let evs = &self.entries[idx].events;
        let ghost s = events_view(evs@);
        assert(self.model@.contains_key(self.entries[idx as int].bucket.id@));
        assert(self.store()[bucket_id@].events == s);
        let mut v: Vec<Event> = Vec::new();
        let mut i: usize = 0;
        while i < evs.len()
            invariant
                i <= evs.len(),
                s == events_view(evs@),
                events_view(v@) == newest_first(s.take(i as int), start, end),
            decreases evs.len() - i,
        {
            assert(s.take(i + 1).drop_last() =~= s.take(i as int));
            assert(s.take(i + 1).last() == evs@[i as int]@);
            if in_window_exec(evs[i].timestamp, start, end) {
                let ghost before = v@;
                v.insert(0, clone_event(&evs[i]));
                assert(events_view(v@) =~= seq![evs@[i as int]@] + events_view(before));
            }
            i += 1;
        }
        assert(s.take(evs.len() as int) =~= s);
        match limit {
            Some(n) => {
                if n < v.len() {
                    let ghost full = v@;
                    v.truncate(n);
                    assert(events_view(v@) =~= events_view(full).take(n as int));
                }
            },
            None => {},
        }
        Ok(v)
    }

    fn get_event_count(&self, bucket_id: &String) -> (r: Result<u64, StoreError>) {
        proof {
            use_type_invariant(self);
        }
        match self.find(bucket_id) {
            Some(i) => Ok(self.entries[i].events.len() as u64),
            None => Err(StoreError::NoSuchBucket(bucket_id.clone())),
        }
    }

    fn heartbeat(&mut self, bucket_id: &String, event: Event) -> (r: Result<(), StoreError>) {
        proof {
            use_type_invariant(&*self);
        }
        let idx = match self.find(bucket_id) {
            Some(i) => i,
            None => return Err(StoreError::NoSuchBucket(bucket_id.clone())),
        };
        let ghost s = events_view(self.entries[idx as int].events@);
        assert(self.model@.contains_key(self.entries[idx as int].bucket.id@));
        let mut j: usize = 0;
        while j < self.entries[idx].events.len()
            invariant
                idx < self.entries.len(),
                store_wf(self.store()),
                self.store().contains_key(bucket_id@),
                self.store()[bucket_id@].events == s,
                s == events_view(self.entries[idx as int].events@),
                j <= s.len(),
                forall|k: int| 0 <= k < j ==> s[k] != event@,
            decreases s.len() - j,
        {
            let e = &self.entries[idx].events[j];
            if e.timestamp == event.timestamp && e.duration == event.duration && e.data == event.data {
                assert(s[j as int] == event@);
                assert(heartbeat_result(s, event@) == s);
                assert(self.store().insert(bucket_id@, BucketState { bucket: self.store()[bucket_id@].bucket, events: s })
                    =~= self.store());
                return Ok(());
            }
            j += 1;
        }
        let mut pos: usize = self.entries[idx].events.len();
        while pos > 0 && self.entries[idx].events[pos - 1].timestamp > event.timestamp
            invariant
                idx < self.entries.len(),
                s == events_view(self.entries[idx as int].events@),
                pos <= s.len(),
                forall|k: int| pos <= k < s.len() ==> s[k].timestamp > event@.timestamp,
            decreases pos,
        {
            pos -= 1;
        }
        proof {
            lemma_insert_at_sorted_place(s, event@, pos as int);
            assert(!s.contains(event@));
        }
        let mut st = MemStore::new();
        std::mem::swap(self, &mut st);
        proof {
            use_type_invariant(&st);
        }
        let ghost m0 = st.model@;
        let ghost id = bucket_id@;
        let ghost ev = event@;
        let MemStore { mut entries, model } = st;
        let ghost e0 = entries@;
        let mut entry = entries.remove(idx);
        entry.events.insert(pos, event);
        entries.insert(idx, entry);
        let ghost ns = s.insert(pos as int, ev);
        let ghost state = BucketState { bucket: m0[id].bucket, events: ns };
        proof {
            assert(events_view(entries@[idx as int].events@) =~= ns);
            assert(m0.contains_key(id));
            assert(m0[id] == entry_state(e0[idx as int]));
            assert(sorted_by_time(ns)) by {
                assert forall|a: int, b: int| 0 <= a <= b < ns.len() implies ns[a].timestamp <= ns[b].timestamp by {
                    if a < pos && b > pos {
                        assert(s[a].timestamp <= s[pos - 1].timestamp);
                    }
                    if a < pos && b == pos {
                        assert(s[a].timestamp <= s[pos - 1].timestamp);
                    }
                }
            }
            assert forall|k: int| 0 <= k < ns.len() implies event_wf(#[trigger] ns[k]) by {
                if k < pos {
                    assert(ns[k] == m0[id].events[k]);
                } else if k > pos {
                    assert(ns[k] == m0[id].events[k - 1]);
                }
            }
            assert forall|i: int| 0 <= i < entries.len() implies entries[i].bucket.id@ == e0[i].bucket.id@ && (i != idx ==> entries[i] == e0[i]) by {
                if i != idx {
                    assert(entries[i] == e0[i]);
                }
            }
            assert forall|k: Seq<char>| #[trigger] m0.insert(id, state).contains_key(k) implies exists|i: int|
                0 <= i < entries.len() && entries[i].bucket.id@ == k by {
                let i = choose|i: int| 0 <= i < e0.len() && e0[i].bucket.id@ == k;
                assert(entries[i].bucket.id@ == k);
            }
            assert forall|i: int| 0 <= i < entries.len() implies #[trigger] m0.insert(id, state).contains_key(entries[i].bucket.id@)
                && m0.insert(id, state)[entries[i].bucket.id@] == entry_state(entries[i]) by {
                assert(m0.contains_key(e0[i].bucket.id@));
            }
        }
        *self = MemStore { entries, model: Ghost(m0.insert(id, state)) };
        Ok(())
    }
}

} // verus!
