use vstd::prelude::*;
use crate::model::{EventModel, event_wf, event_end};
use crate::access::{in_window, newest_first, insert_sorted, heartbeat_result};

verus! {

/// Where a merge into a bucket with events `s` resumes: the end of its most
/// recent event, or the beginning when it is empty.
pub open spec fn resume_point(s: Seq<EventModel>) -> Option<i64> {
    if s.len() == 0 {
        None
    } else {
        Some(event_end(s.last()) as i64)
    }
}

/// Source events at or after `start`, oldest first.
pub open spec fn oldest_first(src: Seq<EventModel>, start: Option<i64>) -> Seq<EventModel> {
    newest_first(src, start, None).reverse()
}

/// Events after heartbeating each event of `w`, in order, into `s`.
pub open spec fn replay(s: Seq<EventModel>, w: Seq<EventModel>) -> Seq<EventModel>
    decreases w.len(),
{
    if w.len() == 0 {
        s
    } else {
        heartbeat_result(replay(s, w.drop_last()), w.last())
    }
}

/// Destination events after one merge of the source events `src` into `dest`.
pub open spec fn merged(dest: Seq<EventModel>, src: Seq<EventModel>) -> Seq<EventModel> {
    replay(dest, oldest_first(src, resume_point(dest)))
}

/// `new_s` holds every event of `old_s`, as often as `old_s` does, and every
/// event of `new_s` was in `old_s` or in `src`.
pub open spec fn appended(old_s: Seq<EventModel>, new_s: Seq<EventModel>, src: Seq<EventModel>) -> bool {
    &&& old_s.to_multiset().subset_of(new_s.to_multiset())
    &&& forall|x: EventModel| #[trigger] new_s.contains(x) ==> old_s.contains(x) || src.contains(x)
}

pub proof fn lemma_push_contains<A>(s: Seq<A>, e: A, x: A)
    ensures
        s.push(e).contains(x) <==> (s.contains(x) || x == e),
{
    if s.contains(x) {
        let i = choose|i: int| 0 <= i < s.len() && s[i] == x;
        assert(s.push(e)[i] == x);
    }
    if x == e {
        assert(s.push(e)[s.len() as int] == x);
    }
    if s.push(e).contains(x) {
        let i = choose|i: int| 0 <= i < s.len() + 1 && s.push(e)[i] == x;
        if i < s.len() {
            assert(s[i] == x);
        }
    }
}

pub proof fn lemma_prepend_contains<A>(e: A, s: Seq<A>, x: A)
    ensures
        (seq![e] + s).contains(x) <==> (s.contains(x) || x == e),
{
    let t = seq![e] + s;
    if s.contains(x) {
        let i = choose|i: int| 0 <= i < s.len() && s[i] == x;
        assert(t[i + 1] == x);
    }
    if x == e {
        assert(t[0] == x);
    }
    if t.contains(x) {
        let i = choose|i: int| 0 <= i < t.len() && t[i] == x;
        if i > 0 {
            assert(s[i - 1] == x);
        }
    }
}

pub proof fn lemma_last_contains<A>(s: Seq<A>, x: A)
    requires
        s.len() > 0,
    ensures
        s.contains(x) <==> (s.drop_last().contains(x) || x == s.last()),
{
    assert(s =~= s.drop_last().push(s.last()));
    lemma_push_contains(s.drop_last(), s.last(), x);
}

pub proof fn lemma_reverse_contains<A>(s: Seq<A>, x: A)
    ensures
        s.reverse().contains(x) <==> s.contains(x),
{
    if s.contains(x) {
        let i = choose|i: int| 0 <= i < s.len() && s[i] == x;
        assert(s.reverse()[s.len() - 1 - i] == x);
    }
    if s.reverse().contains(x) {
        let i = choose|i: int| 0 <= i < s.len() && s.reverse()[i] == x;
        assert(s[s.len() - 1 - i] == x);
    }
}

/// The window holds exactly the events of `s` inside it.
pub proof fn lemma_newest_first_contains(s: Seq<EventModel>, start: Option<i64>, end: Option<i64>, x: EventModel)
    ensures
        newest_first(s, start, end).contains(x) <==> (s.contains(x) && in_window(x, start, end)),
    decreases s.len(),
{
    if s.len() > 0 {
        lemma_newest_first_contains(s.drop_last(), start, end, x);
        lemma_last_contains(s, x);
        lemma_prepend_contains(s.last(), newest_first(s.drop_last(), start, end), x);
    }
}

pub proof fn lemma_oldest_first_contains(src: Seq<EventModel>, start: Option<i64>, x: EventModel)
    ensures
        oldest_first(src, start).contains(x) <==> (src.contains(x) && in_window(x, start, None)),
{
    lemma_newest_first_contains(src, start, None, x);
    lemma_reverse_contains(newest_first(src, start, None), x);
}

/// Without bounds, the most recent event comes first.
pub proof fn lemma_newest_first_unbounded(s: Seq<EventModel>)
    ensures
        newest_first(s, None, None).len() == s.len(),
        s.len() > 0 ==> newest_first(s, None, None)[0] == s.last(),
    decreases s.len(),
{
    if s.len() > 0 {
        lemma_newest_first_unbounded(s.drop_last());
    }
}

pub proof fn lemma_insert_sorted(s: Seq<EventModel>, e: EventModel, x: EventModel)
    ensures
        insert_sorted(s, e).len() == s.len() + 1,
        insert_sorted(s, e).contains(x) <==> (s.contains(x) || x == e),
    decreases s.len(),
{
    if s.len() == 0 {
        lemma_push_contains(s, e, x);
        assert(seq![e] =~= s.push(e));
    } else if s.last().timestamp <= e.timestamp {
        lemma_push_contains(s, e, x);
    } else {
        lemma_insert_sorted(s.drop_last(), e, x);
        lemma_push_contains(insert_sorted(s.drop_last(), e), s.last(), x);
        lemma_last_contains(s, x);
    }
}

pub proof fn lemma_heartbeat_result(s: Seq<EventModel>, e: EventModel, x: EventModel)
    ensures
        heartbeat_result(s, e).len() >= s.len(),
        heartbeat_result(s, e).contains(x) <==> (s.contains(x) || x == e),
{
    lemma_insert_sorted(s, e, x);
}

/// A replay keeps every event and adds exactly the replayed ones.
pub proof fn lemma_replay(s: Seq<EventModel>, w: Seq<EventModel>, x: EventModel)
    ensures
        replay(s, w).len() >= s.len(),
        replay(s, w).contains(x) <==> (s.contains(x) || w.contains(x)),
    decreases w.len(),
{
    if w.len() > 0 {
        lemma_replay(s, w.drop_last(), x);
        lemma_heartbeat_result(replay(s, w.drop_last()), w.last(), x);
        lemma_last_contains(w, x);
    }
}

/// A partial merge only adds source events.
pub proof fn lemma_partial_merge_appended(old_s: Seq<EventModel>, src: Seq<EventModel>, start: Option<i64>, k: int)
    requires
        0 <= k <= oldest_first(src, start).len(),
    ensures
        appended(old_s, replay(old_s, oldest_first(src, start).take(k)), src),
{
    let asc = oldest_first(src, start);
    let s = replay(old_s, asc.take(k));
    assert forall|x: EventModel| #[trigger] s.contains(x) implies old_s.contains(x) || src.contains(x) by {
        lemma_replay(old_s, asc.take(k), x);
        if asc.take(k).contains(x) {
            let j = choose|j: int| 0 <= j < k && asc.take(k)[j] == x;
            assert(asc[j] == x);
            lemma_oldest_first_contains(src, start, x);
        }
    }
    lemma_replay_multiset(old_s, asc.take(k));
}

/// Every event of a well-formed sequence is well formed.
pub proof fn lemma_member_wf(s: Seq<EventModel>, x: EventModel)
    requires
        forall|i: int| 0 <= i < s.len() ==> event_wf(#[trigger] s[i]),
        s.contains(x),
    ensures
        event_wf(x),
{
    let j = choose|j: int| 0 <= j < s.len() && s[j] == x;
    assert(event_wf(s[j]));
}

pub proof fn lemma_insert_sorted_multiset(s: Seq<EventModel>, e: EventModel)
    ensures
        insert_sorted(s, e).to_multiset() =~= s.to_multiset().insert(e),
    decreases s.len(),
{
    broadcast use vstd::seq_lib::to_multiset_build;
    if s.len() == 0 {
        assert(seq![e] =~= s.push(e));
    } else if s.last().timestamp <= e.timestamp {
    } else {
        lemma_insert_sorted_multiset(s.drop_last(), e);
        assert(s =~= s.drop_last().push(s.last()));
    }
}

/// A replay only adds events: what was there stays, as often as it was.
pub proof fn lemma_replay_multiset(s: Seq<EventModel>, w: Seq<EventModel>)
    ensures
        s.to_multiset().subset_of(replay(s, w).to_multiset()),
    decreases w.len(),
{
    if w.len() > 0 {
        lemma_replay_multiset(s, w.drop_last());
        let cur = replay(s, w.drop_last());
        if !cur.contains(w.last()) {
            lemma_insert_sorted_multiset(cur, w.last());
        }
    }
}

} // verus!
