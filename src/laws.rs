use vstd::prelude::*;
use crate::model::{BucketModel, EventModel, event_wf, data_get, data_set};
use crate::access::{in_window, insert_sorted, heartbeat_result};
use crate::ident::{find_from, occurs_at, base_id, marker, dest_id, sync_origin, origin_key, new_sync_bucket, UNKNOWN_HOSTNAME};
use crate::merge::{resume_point, oldest_first, replay, merged, lemma_replay, lemma_oldest_first_contains};
use crate::engine::repair_bucket;

verus! {

pub open spec fn all_wf(s: Seq<EventModel>) -> bool {
    forall|i: int| 0 <= i < s.len() ==> event_wf(#[trigger] s[i])
}

/// `r` resumes no earlier than `r0`.
pub open spec fn resumes_after(r: Option<i64>, r0: Option<i64>) -> bool {
    match r0 {
        None => true,
        Some(a) => r matches Some(b) && a <= b,
    }
}

proof fn lemma_replay_present(s: Seq<EventModel>, w: Seq<EventModel>)
    requires
        forall|x: EventModel| w.contains(x) ==> s.contains(x),
    ensures
        replay(s, w) == s,
    decreases w.len(),
{
    if w.len() > 0 {
        assert forall|x: EventModel| w.drop_last().contains(x) implies s.contains(x) by {
            let i = choose|i: int| 0 <= i < w.len() - 1 && w.drop_last()[i] == x;
            assert(w[i] == x);
        }
        lemma_replay_present(s, w.drop_last());
        assert(w[w.len() - 1] == w.last());
    }
}

proof fn lemma_replay_resumes(s: Seq<EventModel>, w: Seq<EventModel>, r0: Option<i64>)
    requires
        resumes_after(resume_point(s), r0),
        all_wf(s),
        all_wf(w),
        forall|i: int| 0 <= i < w.len() ==> in_window(#[trigger] w[i], r0, None),
    ensures
        resumes_after(resume_point(replay(s, w)), r0),
        all_wf(replay(s, w)),
    decreases w.len(),
{
    if w.len() > 0 {
        let cur = replay(s, w.drop_last());
        lemma_replay_resumes(s, w.drop_last(), r0);
        let e = w.last();
        assert(e == w[w.len() - 1]);
        if !cur.contains(e) {
            if cur.len() > 0 && cur.last().timestamp > e.timestamp {
                assert(insert_sorted(cur, e).last() == cur.last());
            }
        }
        let next = heartbeat_result(cur, e);
        assert forall|i: int| 0 <= i < next.len() implies event_wf(#[trigger] next[i]) by {
            lemma_replay(s, w, next[i]);
            assert(next.contains(next[i]));
            if s.contains(next[i]) {
                let j = choose|j: int| 0 <= j < s.len() && s[j] == next[i];
                assert(event_wf(s[j]));
            } else {
                let j = choose|j: int| 0 <= j < w.len() && w[j] == next[i];
                assert(event_wf(w[j]));
            }
        }
    }
}

/// A second merge of the same source events changes nothing at the
/// destination, so its event count stays as it was.
pub proof fn law_merge_idempotent(dest: Seq<EventModel>, src: Seq<EventModel>)
    requires
        all_wf(dest),
        all_wf(src),
    ensures
        merged(merged(dest, src), src) == merged(dest, src),
        merged(merged(dest, src), src).len() == merged(dest, src).len(),
{
    let r0 = resume_point(dest);
    let w0 = oldest_first(src, r0);
    let d1 = merged(dest, src);
    assert forall|i: int| 0 <= i < w0.len() implies in_window(#[trigger] w0[i], r0, None) && event_wf(w0[i]) by {
        assert(w0.contains(w0[i]));
        lemma_oldest_first_contains(src, r0, w0[i]);
        let j = choose|j: int| 0 <= j < src.len() && src[j] == w0[i];
        assert(event_wf(src[j]));
    }
    lemma_replay_resumes(dest, w0, r0);
    let r1 = resume_point(d1);
    let w1 = oldest_first(src, r1);
    assert forall|x: EventModel| w1.contains(x) implies d1.contains(x) by {
        lemma_oldest_first_contains(src, r1, x);
        lemma_oldest_first_contains(src, r0, x);
        lemma_replay(dest, w0, x);
    }
    lemma_replay_present(d1, w1);
}

/// After a merge the destination holds every source event at or after the
/// resume point, keeps all its own events, and holds nothing else.
pub proof fn law_merge_converges(dest: Seq<EventModel>, src: Seq<EventModel>)
    ensures
        forall|x: EventModel| #[trigger] src.contains(x) && in_window(x, resume_point(dest), None) ==> merged(dest, src).contains(x),
        forall|x: EventModel| #[trigger] dest.contains(x) ==> merged(dest, src).contains(x),
        forall|x: EventModel| #[trigger] merged(dest, src).contains(x) ==> dest.contains(x) || src.contains(x),
{
    let r0 = resume_point(dest);
    assert forall|x: EventModel| #[trigger] src.contains(x) && in_window(x, r0, None) implies merged(dest, src).contains(x) by {
        lemma_oldest_first_contains(src, r0, x);
        lemma_replay(dest, oldest_first(src, r0), x);
    }
    assert forall|x: EventModel| #[trigger] dest.contains(x) implies merged(dest, src).contains(x) by {
        lemma_replay(dest, oldest_first(src, r0), x);
    }
    assert forall|x: EventModel| #[trigger] merged(dest, src).contains(x) implies dest.contains(x) || src.contains(x) by {
        lemma_oldest_first_contains(src, r0, x);
        lemma_replay(dest, oldest_first(src, r0), x);
    }
}

proof fn lemma_find_from_extend(t: Seq<char>, u: Seq<char>, p: Seq<char>, i: int)
    requires
        0 <= i,
        find_from(t, p, i) >= 0,
    ensures
        find_from(t + u, p, i) == find_from(t, p, i),
    decreases t.len() + 1 - i,
{
    let tu = t + u;
    assert(i + p.len() <= t.len());
    assert(tu.subrange(i, i + p.len()) =~= t.subrange(i, i + p.len()));
    if !occurs_at(t, p, i) {
        lemma_find_from_extend(t, u, p, i + 1);
    }
}

/// Pulling a bucket that was itself pulled from the same origin resolves to
/// the same destination id: the suffix is replaced, not stacked. Excluded
/// are ids whose base, followed by the marker, holds an earlier occurrence
/// of it (an id ending in "-synced-from" without the final dash).
pub proof fn law_stable_identity(b: BucketModel, again: BucketModel)
    requires
        again.id == dest_id(b, false),
        sync_origin(again) == sync_origin(b),
        find_from(base_id(b.id) + marker(), marker(), 0) == base_id(b.id).len(),
    ensures
        dest_id(again, false) == dest_id(b, false),
        base_id(again.id) == base_id(b.id),
{
    let base = base_id(b.id);
    lemma_find_from_extend(base + marker(), sync_origin(b), marker(), 0);
    assert(again.id =~= (base + marker()) + sync_origin(b));
    assert(again.id.take(base.len() as int) =~= base);
}

proof fn lemma_data_set_get(d: Seq<(Seq<char>, Seq<char>)>, key: Seq<char>, value: Seq<char>)
    ensures
        data_get(data_set(d, key, value), key) == Some(value),
    decreases d.len(),
{
    if d.len() > 0 && d[0].0 != key {
        lemma_data_set_get(d.drop_first(), key, value);
        assert((seq![d[0]] + data_set(d.drop_first(), key, value)).drop_first() =~= data_set(d.drop_first(), key, value));
    }
}

/// A bucket with the placeholder hostname, once repaired with a device id,
/// yields a destination record whose recorded origin is that device id.
pub proof fn law_hostname_repair(b: BucketModel, device_id: Seq<char>, is_push: bool)
    requires
        b.hostname == UNKNOWN_HOSTNAME@,
    ensures
        repair_bucket(b, Some(device_id)).hostname == device_id,
        data_get(new_sync_bucket(repair_bucket(b, Some(device_id)), is_push).data, origin_key()) == Some(device_id),
        data_get(b.data, origin_key()) is None ==> sync_origin(repair_bucket(b, Some(device_id))) == device_id,
{
    lemma_data_set_get(b.data, origin_key(), device_id);
}

} // verus!
