use vstd::prelude::*;
use vstd::string::*;
use crate::model::{Bucket, BucketModel, data_get, data_set, data_lookup, data_insert};

verus! {

/// Separator between a bucket's base id and the device it was pulled from.
pub const SYNC_MARKER: &'static str = "-synced-from-";

/// Reserved data key that records the device a synced bucket came from.
pub const ORIGIN_KEY: &'static str = "sync.origin";

/// Placeholder hostname of buckets whose device is not known.
pub const UNKNOWN_HOSTNAME: &'static str = "unknown";

pub open spec fn marker() -> Seq<char> {
    SYNC_MARKER@
}

pub open spec fn origin_key() -> Seq<char> {
    ORIGIN_KEY@
}

/// `p` stands in `s` at position `i`.
pub open spec fn occurs_at(s: Seq<char>, p: Seq<char>, i: int) -> bool {
    0 <= i && i + p.len() <= s.len() && s.subrange(i, i + p.len()) == p
}

/// First position at or after `i` where `p` stands in `s`, or -1.
pub open spec fn find_from(s: Seq<char>, p: Seq<char>, i: int) -> int
    decreases s.len() + 1 - i,
{
    if i < 0 || i + p.len() > s.len() {
        -1
    } else if occurs_at(s, p, i) {
        i
    } else {
        find_from(s, p, i + 1)
    }
}

pub open spec fn contains_sub(s: Seq<char>, p: Seq<char>) -> bool {
    find_from(s, p, 0) >= 0
}

/// A bucket id with any `-synced-from-<origin>` suffix removed: the part
/// before the first occurrence of the marker.
pub open spec fn base_id(id: Seq<char>) -> Seq<char> {
    let k = find_from(id, marker(), 0);
    if k >= 0 {
        id.take(k)
    } else {
        id
    }
}

/// The device a bucket's events come from: its recorded origin, else its hostname.
pub open spec fn sync_origin(b: BucketModel) -> Seq<char> {
    match data_get(b.data, origin_key()) {
        Some(o) => o,
        None => b.hostname,
    }
}

/// Id of the destination bucket for `b`.
pub open spec fn dest_id(b: BucketModel, is_push: bool) -> Seq<char> {
    if is_push {
        b.id
    } else {
        base_id(b.id) + marker() + sync_origin(b)
    }
}

/// The record created at the destination when the destination bucket is missing.
pub open spec fn new_sync_bucket(b: BucketModel, is_push: bool) -> BucketModel {
    BucketModel {
        id: dest_id(b, is_push),
        data: data_set(b.data, origin_key(), b.hostname),
        ..b
    }
}

/// Hostname after repair: the placeholder is replaced by the source device id.
pub open spec fn repaired_hostname(h: Seq<char>, src_did: Option<Seq<char>>) -> Seq<char> {
    if h == UNKNOWN_HOSTNAME@ && src_did is Some {
        src_did->Some_0
    } else {
        h
    }
}

/// The paths that do not name the local device.
pub open spec fn nonlocal(paths: Seq<Seq<char>>, device_id: Seq<char>) -> Seq<Seq<char>>
    decreases paths.len(),
{
    if paths.len() == 0 {
        seq![]
    } else {
        let rest = nonlocal(paths.drop_last(), device_id);
        if contains_sub(paths.last(), device_id) {
            rest
        } else {
            rest.push(paths.last())
        }
    }
}

pub open spec fn strings_view(v: Seq<String>) -> Seq<Seq<char>> {
    v.map_values(|s: String| s@)
}

/// The characters of `s`.
pub fn chars_of(s: &str) -> (r: Vec<char>)
    ensures
        r@ == s@,
{
    let n = s.unicode_len();
    let mut r: Vec<char> = Vec::new();
    let mut i: usize = 0;
    while i < n
        invariant
            n == s@.len(),
            i <= n,
            r@ == s@.take(i as int),
        decreases n - i,
    {
        r.push(s.get_char(i));
        assert(s@.take(i + 1) =~= s@.take(i as int).push(s@[i as int]));
        i += 1;
    }
    assert(s@.take(n as int) =~= s@);
    r
}

/// Whether `p` stands in `s` at position `i`.
pub fn matches_at(s: &Vec<char>, p: &Vec<char>, i: usize) -> (r: bool)
    requires
        i + p.len() <= s.len(),
    ensures
        r == occurs_at(s@, p@, i as int),
{
    let mut j: usize = 0;
    while j < p.len()
        invariant
            i + p.len() <= s.len(),
            j <= p.len(),
            forall|k: int| 0 <= k < j ==> s@[i + k] == p@[k],
        decreases p.len() - j,
    {
        if s[i + j] != p[j] {
            assert(s@.subrange(i as int, i + p.len())[j as int] != p@[j as int]);
            return false;
        }
        j += 1;
    }
    assert(s@.subrange(i as int, i + p.len()) =~= p@);
    true
}

/// What a search returns: -1, or a position at or after `i` where `p` stands.
pub proof fn lemma_find_from(s: Seq<char>, p: Seq<char>, i: int)
    ensures
        find_from(s, p, i) == -1 || (find_from(s, p, i) >= i && occurs_at(s, p, find_from(s, p, i))),
    decreases s.len() + 1 - i,
{
    if !(i < 0 || i + p.len() > s.len()) && !occurs_at(s, p, i) {
        lemma_find_from(s, p, i + 1);
    }
}

/// First position where `p` stands in `s`.
pub fn find_seq(s: &Vec<char>, p: &Vec<char>) -> (r: Option<usize>)
    ensures
        r matches Some(k) ==> find_from(s@, p@, 0) == k,
        r is None ==> find_from(s@, p@, 0) == -1,
{
    if p.len() > s.len() {
        return None;
    }
    let last = s.len() - p.len();
    let mut i: usize = 0;
    loop
        invariant
            last == s.len() - p.len(),
            i <= last,
            find_from(s@, p@, 0) == find_from(s@, p@, i as int),
        decreases last - i,
    {
        if matches_at(s, p, i) {
            return Some(i);
        }
        if i == last {
            assert(find_from(s@, p@, i + 1) == -1);
            return None;
        }
        i += 1;
    }
}

/// Whether `p` stands anywhere in `s`.
pub fn contains_str(s: &str, p: &str) -> (r: bool)
    ensures
        r == contains_sub(s@, p@),
{
    let sc = chars_of(s);
    let pc = chars_of(p);
    find_seq(&sc, &pc).is_some()
}

/// The destination bucket id for `bucket_from`: unchanged when pushing,
/// `<base>-synced-from-<origin>` when pulling.
pub fn destination_id(bucket_from: &Bucket, is_push: bool) -> (r: String)
    ensures
        r@ == dest_id(bucket_from@, is_push),
{
    if is_push {
        return bucket_from.id.clone();
    }
    let id_chars = chars_of(bucket_from.id.as_str());
    let marker_chars = chars_of(SYNC_MARKER);
    proof {
        lemma_find_from(bucket_from.id@, marker(), 0);
    }
    let base = match find_seq(&id_chars, &marker_chars) {
        Some(k) => String::from_str(bucket_from.id.as_str().substring_char(0, k)),
        None => bucket_from.id.clone(),
    };
    assert(base@ == base_id(bucket_from.id@));
    let key = String::from_str(ORIGIN_KEY);
    let origin = match data_lookup(&bucket_from.data, &key) {
        Some(o) => o,
        None => bucket_from.hostname.clone(),
    };
    assert(origin@ == sync_origin(bucket_from@));
    let r = base.concat(SYNC_MARKER).concat(origin.as_str());
    r
}

/// The record to create at the destination for `bucket_from`.
pub fn make_sync_bucket(bucket_from: &Bucket, is_push: bool) -> (r: Bucket)
    ensures
        r@ == new_sync_bucket(bucket_from@, is_push),
{
    let key = String::from_str(ORIGIN_KEY);
    Bucket {
        id: destination_id(bucket_from, is_push),
        bucket_type: bucket_from.bucket_type.clone(),
        hostname: bucket_from.hostname.clone(),
        client: bucket_from.client.clone(),
        data: data_insert(&bucket_from.data, &key, &bucket_from.hostname),
        start: bucket_from.start,
        end: bucket_from.end,
    }
}

/// Keeps the store files found under the sync directory that do not belong
/// to the local device: those whose path does not contain `device_id`.
pub fn find_remotes_nonlocal(paths: &Vec<String>, device_id: &str) -> (r: Vec<String>)
    ensures
        strings_view(r@) == nonlocal(strings_view(paths@), device_id@),
{
    let mut r: Vec<String> = Vec::new();
    let mut i: usize = 0;
    while i < paths.len()
        invariant
            i <= paths.len(),
            strings_view(r@) == nonlocal(strings_view(paths@.take(i as int)), device_id@),
        decreases paths.len() - i,
    {
        let ghost before = r@;
        assert(strings_view(paths@.take(i + 1)).drop_last() =~= strings_view(paths@.take(i as int)));
        assert(strings_view(paths@.take(i + 1)).last() == paths@[i as int]@);
        if !contains_str(paths[i].as_str(), device_id) {
            r.push(paths[i].clone());
            assert(strings_view(r@) =~= strings_view(before).push(paths@[i as int]@));
        }
        i += 1;
    }
    assert(paths@.take(paths.len() as int) =~= paths@);
    r
}

} // verus!
