use vstd::prelude::*;

verus! {

/// Abstract value of an event: what identifies it across stores.
/// The store-local id is deliberately not part of it.
pub ghost struct EventModel {
    pub timestamp: int,
    pub duration: int,
    pub data: Seq<char>,
}

/// Abstract value of a bucket record.
pub ghost struct BucketModel {
    pub id: Seq<char>,
    pub bucket_type: Seq<char>,
    pub hostname: Seq<char>,
    pub client: Seq<char>,
    pub data: Seq<(Seq<char>, Seq<char>)>,
    pub start: Option<i64>,
    pub end: Option<i64>,
}

/// A timestamped, duration-bearing record. Times are milliseconds since the
/// Unix epoch; `data` is the payload in its serialized form.
pub struct Event {
    pub id: Option<i64>,
    pub timestamp: i64,
    pub duration: i64,
    pub data: String,
}

/// A per-device, append-only log header. `data` is a string-keyed map kept as
/// a list of entries; the first entry of a key is its value.
pub struct Bucket {
    pub id: String,
    pub bucket_type: String,
    pub hostname: String,
    pub client: String,
    pub data: Vec<(String, String)>,
    pub start: Option<i64>,
    pub end: Option<i64>,
}

pub open spec fn entry_view(e: (String, String)) -> (Seq<char>, Seq<char>) {
    (e.0@, e.1@)
}

pub open spec fn data_view(d: Seq<(String, String)>) -> Seq<(Seq<char>, Seq<char>)> {
    d.map_values(|e: (String, String)| entry_view(e))
}

impl View for Event {
    type V = EventModel;

    open spec fn view(&self) -> EventModel {
        EventModel { timestamp: self.timestamp as int, duration: self.duration as int, data: self.data@ }
    }
}

impl View for Bucket {
    type V = BucketModel;

    open spec fn view(&self) -> BucketModel {
        BucketModel {
            id: self.id@,
            bucket_type: self.bucket_type@,
            hostname: self.hostname@,
            client: self.client@,
            data: data_view(self.data@),
            start: self.start,
            end: self.end,
        }
    }
}

pub open spec fn events_view(v: Seq<Event>) -> Seq<EventModel> {
    v.map_values(|e: Event| e@)
}

/// An event is well formed when its duration is non-negative and its end
/// instant is representable.
pub open spec fn event_wf(e: EventModel) -> bool {
    0 <= e.duration && i64::MIN <= e.timestamp && e.timestamp + e.duration <= i64::MAX
}

/// The instant at which an event ends.
pub open spec fn event_end(e: EventModel) -> int {
    e.timestamp + e.duration
}

/// Events ordered by non-decreasing timestamp.
pub open spec fn sorted_by_time(s: Seq<EventModel>) -> bool {
    forall|i: int, j: int| 0 <= i <= j < s.len() ==> s[i].timestamp <= s[j].timestamp
}

/// Value of `key` in a bucket's data map: its first entry.
pub open spec fn data_get(d: Seq<(Seq<char>, Seq<char>)>, key: Seq<char>) -> Option<Seq<char>>
    decreases d.len(),
{
    if d.len() == 0 {
        None
    } else if d[0].0 == key {
        Some(d[0].1)
    } else {
        data_get(d.drop_first(), key)
    }
}

/// The data map with `key` bound to `value`: the first entry of the key is
/// replaced, or a new entry is appended.
pub open spec fn data_set(d: Seq<(Seq<char>, Seq<char>)>, key: Seq<char>, value: Seq<char>) -> Seq<
    (Seq<char>, Seq<char>),
>
    decreases d.len(),
{
    if d.len() == 0 {
        seq![(key, value)]
    } else if d[0].0 == key {
        d.update(0, (key, value))
    } else {
        seq![d[0]] + data_set(d.drop_first(), key, value)
    }
}

pub fn clone_event(e: &Event) -> (r: Event)
    ensures
        r@ == e@,
        r.id == e.id,
{
    Event { id: e.id, timestamp: e.timestamp, duration: e.duration, data: e.data.clone() }
}

pub fn clone_data(d: &Vec<(String, String)>) -> (r: Vec<(String, String)>)
    ensures
        data_view(r@) == data_view(d@),
{
    let mut r: Vec<(String, String)> = Vec::new();
    let mut i: usize = 0;
    while i < d.len()
        invariant
            i <= d.len(),
            data_view(r@) == data_view(d@.take(i as int)),
        decreases d.len() - i,
    {
        let ghost r0 = r@;
        r.push((d[i].0.clone(), d[i].1.clone()));
        assert(d@.take(i + 1) == d@.take(i as int).push(d@[i as int]));
        assert(data_view(r@) =~= data_view(r0).push(entry_view(d@[i as int])));
        assert(data_view(r@) =~= data_view(d@.take(i + 1)));
        i += 1;
    }
    assert(d@.take(d.len() as int) == d@);
    r
}

pub fn clone_bucket(b: &Bucket) -> (r: Bucket)
    ensures
        r@ == b@,
{
    Bucket {
        id: b.id.clone(),
        bucket_type: b.bucket_type.clone(),
        hostname: b.hostname.clone(),
        client: b.client.clone(),
        data: clone_data(&b.data),
        start: b.start,
        end: b.end,
    }
}

/// Looks `key` up in a bucket's data map.
pub fn data_lookup(d: &Vec<(String, String)>, key: &String) -> (r: Option<String>)
    ensures
        r matches Some(v) ==> data_get(data_view(d@), key@) == Some(v@),
        r is None ==> data_get(data_view(d@), key@) is None,
{
    let mut i: usize = 0;
    assert(data_view(d@).skip(0) =~= data_view(d@));
    while i < d.len()
        invariant
            i <= d.len(),
            data_get(data_view(d@), key@) == data_get(data_view(d@).skip(i as int), key@),
        decreases d.len() - i,
    {
        let ghost rest = data_view(d@).skip(i as int);
        assert(rest[0] == entry_view(d@[i as int]));
        if d[i].0 == *key {
            return Some(d[i].1.clone());
        }
        assert(rest.drop_first() == data_view(d@).skip(i + 1));
        i += 1;
    }
    assert(data_view(d@).skip(i as int).len() == 0);
    None
}

/// Binds `key` to `value` in a bucket's data map.
pub fn data_insert(d: &Vec<(String, String)>, key: &String, value: &String) -> (r: Vec<(String, String)>)
    ensures
        data_view(r@) == data_set(data_view(d@), key@, value@),
{
    let mut r: Vec<(String, String)> = Vec::new();
    let mut i: usize = 0;
    assert(data_view(d@).skip(0) =~= data_view(d@));
    assert(data_view(d@).take(0) + data_view(d@) =~= data_view(d@));
    while i < d.len()
        invariant
            i <= d.len(),
            data_view(r@) == data_view(d@).take(i as int),
            data_set(data_view(d@), key@, value@) == data_view(d@).take(i as int) + data_set(
                data_view(d@).skip(i as int),
                key@,
                value@,
            ),
        decreases d.len() - i,
    {
        let ghost dv = data_view(d@);
        let ghost rest = dv.skip(i as int);
        assert(rest[0] == entry_view(d@[i as int]));
        if d[i].0 == *key {
            r.push((key.clone(), value.clone()));
            let mut j: usize = i + 1;
            while j < d.len()
                invariant
                    i < j <= d.len(),
                    data_view(r@) == dv.take(i as int) + seq![(key@, value@)] + dv.subrange(
                        i + 1,
                        j as int,
                    ),
                    dv == data_view(d@),
                decreases d.len() - j,
            {
                let ghost r0 = r@;
                r.push((d[j].0.clone(), d[j].1.clone()));
                assert(data_view(r@) =~= data_view(r0).push(dv[j as int]));
                assert(dv.subrange(i + 1, j + 1) == dv.subrange(i + 1, j as int).push(dv[j as int]));
                assert(data_view(r@) =~= dv.take(i as int) + seq![(key@, value@)] + dv.subrange(
                    i + 1,
                    j + 1,
                ));
                j += 1;
            }
            assert(data_set(rest, key@, value@) =~= seq![(key@, value@)] + dv.subrange(
                i + 1,
                d.len() as int,
            ));
            assert(data_view(r@) =~= data_set(dv, key@, value@));
            return r;
        }
        r.push((d[i].0.clone(), d[i].1.clone()));
        assert(rest.drop_first() =~= dv.skip(i + 1));
        assert(dv.take(i + 1) =~= dv.take(i as int).push(dv[i as int]));
        assert(data_view(r@) =~= dv.take(i + 1));
        assert(dv.take(i as int) + data_set(rest, key@, value@) =~= dv.take(i + 1) + data_set(
            dv.skip(i + 1),
            key@,
            value@,
        ));
        i += 1;
    }
    r.push((key.clone(), value.clone()));
    assert(data_view(r@) =~= data_set(data_view(d@), key@, value@));
    r
}

} // verus!
