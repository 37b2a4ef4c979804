//! `members`: who has spoken in a channel, derived from the log alone.

use vstd::prelude::*;

use crate::message::{Message, Timestamp};

verus! {

broadcast use vstd::seq_lib::group_to_multiset_ensures;

/// Arguments of `members`.
#[derive(Debug)]
pub struct MembersArgs {
    /// Channel to summarize.
    pub channel: String,
    /// Output in human-readable format instead of JSON Lines.
    pub pretty: bool,
}

/// One distinct sender in a channel, with activity bounds. Serialized as one
/// JSON object per line by `tsuji members`.
#[derive(Debug, PartialEq, Eq)]
pub struct MemberSummary {
    pub from: String,
    pub count: usize,
    pub first_id: u128,
    pub first_ts: Timestamp,
    pub last_id: u128,
    pub last_ts: Timestamp,
}

/// How many of the messages were sent by `f`.
pub open spec fn sender_count(msgs: Seq<Message>, f: Seq<char>) -> nat
    decreases msgs.len(),
{
    if msgs.len() == 0 {
        0
    } else {
        sender_count(msgs.drop_last(), f) + if msgs.last().from@ == f {
            1nat
        } else {
            0nat
        }
    }
}

/// Among the first `n` messages, message `k` is the first one from `f` that
/// carries the smallest id that `f` sent.
pub open spec fn first_of(msgs: Seq<Message>, n: int, f: Seq<char>, k: int) -> bool {
    &&& 0 <= k < n <= msgs.len()
    &&& msgs[k].from@ == f
    &&& forall|j: int| 0 <= j < n && #[trigger] msgs[j].from@ == f ==> msgs[k].id <= msgs[j].id
    &&& forall|j: int| 0 <= j < k && #[trigger] msgs[j].from@ == f ==> msgs[j].id != msgs[k].id
}

/// Among the first `n` messages, message `k` is the first one from `f` that
/// carries the largest id that `f` sent.
pub open spec fn last_of(msgs: Seq<Message>, n: int, f: Seq<char>, k: int) -> bool {
    &&& 0 <= k < n <= msgs.len()
    &&& msgs[k].from@ == f
    &&& forall|j: int| 0 <= j < n && #[trigger] msgs[j].from@ == f ==> msgs[j].id <= msgs[k].id
    &&& forall|j: int| 0 <= j < k && #[trigger] msgs[j].from@ == f ==> msgs[j].id != msgs[k].id
}

/// `s` summarizes the messages of its sender: how many there are, and the id
/// and time of the earliest and of the latest (by id).
pub open spec fn summarizes(s: MemberSummary, msgs: Seq<Message>) -> bool {
    &&& s.count == sender_count(msgs, s.from@)
    &&& exists|k: int|
        #![trigger msgs[k]]
        first_of(msgs, msgs.len() as int, s.from@, k) && s.first_id == msgs[k].id && s.first_ts
            == msgs[k].ts
    &&& exists|k: int|
        #![trigger msgs[k]]
        last_of(msgs, msgs.len() as int, s.from@, k) && s.last_id == msgs[k].id && s.last_ts
            == msgs[k].ts
}

/// The senders of a sequence of summaries.
pub open spec fn senders(r: Seq<MemberSummary>) -> Seq<Seq<char>> {
    r.map_values(|s: MemberSummary| s.from@)
}

/// The summaries are ordered most recently active first.
pub open spec fn latest_first(r: Seq<MemberSummary>) -> bool {
    forall|a: int, b: int| 0 <= a < b < r.len() ==> #[trigger] r[a].last_id >= #[trigger] r[b].last_id
}

/// `r` is the membership of the channel whose log holds `msgs`: one summary
/// per distinct sender, each accurate, most recently active first.
pub open spec fn membership(r: Seq<MemberSummary>, msgs: Seq<Message>) -> bool {
    &&& forall|j: int| 0 <= j < r.len() ==> #[trigger] summarizes(r[j], msgs)
    &&& senders(r).no_duplicates()
    &&& forall|k: int| 0 <= k < msgs.len() ==> senders(r).contains(#[trigger] msgs[k].from@)
    &&& latest_first(r)
}

proof fn lemma_sender_count_bound(msgs: Seq<Message>, f: Seq<char>)
    ensures
        sender_count(msgs, f) <= msgs.len(),
    decreases msgs.len(),
{
    if msgs.len() > 0 {
        lemma_sender_count_bound(msgs.drop_last(), f);
    }
}

proof fn lemma_sender_count_absent(msgs: Seq<Message>, f: Seq<char>)
    requires
        forall|k: int| 0 <= k < msgs.len() ==> #[trigger] msgs[k].from@ != f,
    ensures
        sender_count(msgs, f) == 0,
    decreases msgs.len(),
{
    if msgs.len() > 0 {
        assert(msgs[msgs.len() - 1].from@ != f);
        lemma_sender_count_absent(msgs.drop_last(), f);
    }
}

/// Aggregates messages into per-sender summaries, sorted most-recently-active
/// first (descending `last_id`; ULID order equals time order).
pub fn aggregate(messages: &[Message]) -> (r: Vec<MemberSummary>)
    ensures
        membership(r@, messages@),
{
    let ghost msgs = messages@;
    let mut out: Vec<MemberSummary> = Vec::new();
    let ghost mut fi: Seq<int> = Seq::empty();
    let ghost mut li: Seq<int> = Seq::empty();
    let ghost mut own: Seq<int> = Seq::empty();
    let mut i: usize = 0;
    while i < messages.len()
        invariant
            msgs == messages@,
            i <= messages.len(),
            out.len() == fi.len(),
            out.len() == li.len(),
            own.len() == i,
            forall|j: int|
                0 <= j < out.len() ==> {
                    &&& (#[trigger] out@[j]).count == sender_count(msgs.take(i as int), out@[j].from@)
                    &&& first_of(msgs, i as int, out@[j].from@, fi[j])
                    &&& out@[j].first_id == msgs[fi[j]].id
                    &&& out@[j].first_ts == msgs[fi[j]].ts
                    &&& last_of(msgs, i as int, out@[j].from@, li[j])
                    &&& out@[j].last_id == msgs[li[j]].id
                    &&& out@[j].last_ts == msgs[li[j]].ts
                },
            forall|a: int, b: int| 0 <= a < b < out.len() ==> out@[a].from@ != out@[b].from@,
            forall|k: int|
                0 <= k < i ==> 0 <= #[trigger] own[k] < out.len() && out@[own[k]].from@
                    == msgs[k].from@,
        decreases messages.len() - i,
    {
        let m = &messages[i];
        let ghost f = m.from@;
        let mut j: usize = 0;
        while j < out.len() && out[j].from != m.from
            invariant
                j <= out.len(),
                forall|t: int| 0 <= t < j ==> out@[t].from@ != f,
                f == m.from@,
            decreases out.len() - j,
        {
            j = j + 1;
        }
        proof {
            assert(msgs.take(i + 1).drop_last() =~= msgs.take(i as int));
            assert(msgs.take(i + 1).last() == msgs[i as int]);
        }
        if j < out.len() {
            let cur = &out[j];
            proof {
                lemma_sender_count_bound(msgs.take(i as int), f);
            }
            let (last_id, last_ts) = if m.id > cur.last_id {
                (m.id, m.ts)
            } else {
                (cur.last_id, cur.last_ts)
            };
            let (first_id, first_ts) = if m.id < cur.first_id {
                (m.id, m.ts)
            } else {
                (cur.first_id, cur.first_ts)
            };
            let updated = MemberSummary {
                from: cur.from.clone(),
                count: cur.count + 1,
                first_id,
                first_ts,
                last_id,
                last_ts,
            };
            let ghost prev = out@;
            let ghost pfi = fi;
            let ghost pli = li;
            proof {
                if m.id > prev[j as int].last_id {
                    li = li.update(j as int, i as int);
                }
                if m.id < prev[j as int].first_id {
                    fi = fi.update(j as int, i as int);
                }
                own = own.push(j as int);
            }
            out.set(j, updated);
            proof {
                assert forall|t: int| 0 <= t < out.len() implies {
                    &&& (#[trigger] out@[t]).count == sender_count(msgs.take(i + 1), out@[t].from@)
                    &&& first_of(msgs, i + 1, out@[t].from@, fi[t])
                    &&& out@[t].first_id == msgs[fi[t]].id
                    &&& out@[t].first_ts == msgs[fi[t]].ts
                    &&& last_of(msgs, i + 1, out@[t].from@, li[t])
                    &&& out@[t].last_id == msgs[li[t]].id
                    &&& out@[t].last_ts == msgs[li[t]].ts
                } by {
                    if t != j {
                        assert(out@[t] == prev[t]);
                        assert(prev[t].from@ != f);
                    } else {
                        assert(out@[t].from@ == f);
                        assert(first_of(msgs, i as int, f, pfi[t]));
                        assert(last_of(msgs, i as int, f, pli[t]));
                    }
                }
            }
        } else {
            proof {
                assert forall|k: int| 0 <= k < i implies #[trigger] msgs.take(i as int)[k].from@
                    != f by {
                    assert(msgs.take(i as int)[k] == msgs[k]);
                    assert(out@[own[k]].from@ == msgs[k].from@);
                }
                lemma_sender_count_absent(msgs.take(i as int), f);
            }
            let fresh = MemberSummary {
                from: m.from.clone(),
                count: 1,
                first_id: m.id,
                first_ts: m.ts,
                last_id: m.id,
                last_ts: m.ts,
            };
            let ghost prev = out@;
            out.push(fresh);
            proof {
                fi = fi.push(i as int);
                li = li.push(i as int);
                own = own.push(j as int);
                assert forall|t: int| 0 <= t < out.len() implies {
                    &&& (#[trigger] out@[t]).count == sender_count(msgs.take(i + 1), out@[t].from@)
                    &&& first_of(msgs, i + 1, out@[t].from@, fi[t])
                    &&& out@[t].first_id == msgs[fi[t]].id
                    &&& out@[t].first_ts == msgs[fi[t]].ts
                    &&& last_of(msgs, i + 1, out@[t].from@, li[t])
                    &&& out@[t].last_id == msgs[li[t]].id
                    &&& out@[t].last_ts == msgs[li[t]].ts
                } by {
                    if t < prev.len() {
                        assert(out@[t] == prev[t]);
                        assert(prev[t].from@ != f);
                    } else {
                        assert forall|k: int| 0 <= k < i + 1 && #[trigger] msgs[k].from@ == f
                            implies k == i by {
                            if k < i {
                                assert(out@[own[k]].from@ == msgs[k].from@);
                            }
                        }
                    }
                }
            }
        }
        i = i + 1;
    }
    proof {
        assert(msgs.take(i as int) =~= msgs);
    }
    let ghost unsorted = out@;
    let sorted = sort_latest_first(out);
    proof {
        assert forall|j: int| 0 <= j < unsorted.len() implies #[trigger] summarizes(
            unsorted[j],
            msgs,
        ) by {
            assert(first_of(msgs, msgs.len() as int, unsorted[j].from@, fi[j]));
            assert(msgs[fi[j]] == msgs[fi[j]]);
            assert(last_of(msgs, msgs.len() as int, unsorted[j].from@, li[j]));
            assert(msgs[li[j]] == msgs[li[j]]);
        }
        assert(senders(unsorted).no_duplicates());
        senders(unsorted).lemma_multiset_has_no_duplicates();
        senders(sorted@).lemma_multiset_has_no_duplicates_conv();
        assert forall|k: int| 0 <= k < msgs.len() implies senders(sorted@).contains(
            #[trigger] msgs[k].from@,
        ) by {
            assert(senders(unsorted)[own[k]] == msgs[k].from@);
            assert(senders(unsorted).contains(msgs[k].from@));
            vstd::seq_lib::to_multiset_contains(senders(unsorted), msgs[k].from@);
            vstd::seq_lib::to_multiset_contains(senders(sorted@), msgs[k].from@);
        }
    }
    sorted
}

/// Orders summaries by `last_id`, largest first; summaries with equal
/// `last_id` keep their relative order.
fn sort_latest_first(v: Vec<MemberSummary>) -> (r: Vec<MemberSummary>)
    ensures
        latest_first(r@),
        senders(r@).to_multiset() == senders(v@).to_multiset(),
        forall|j: int| 0 <= j < r.len() ==> v@.contains(#[trigger] r@[j]),
{
    let mut rest = v;
    let ghost orig = rest@;
    let mut sorted: Vec<MemberSummary> = Vec::new();
    let mut taken: usize = 0;
    let n = rest.len();
    while rest.len() > 0
        invariant
            taken + rest.len() == n,
            n == orig.len(),
            rest@ == orig.skip(taken as int),
            latest_first(sorted@),
            senders(sorted@).to_multiset() == senders(orig.take(taken as int)).to_multiset(),
            forall|j: int| 0 <= j < sorted.len() ==> orig.contains(#[trigger] sorted@[j]),
        decreases rest.len(),
    {
        let x = rest.remove(0);
        proof {
            assert(x == orig[taken as int]);
            assert(rest@ =~= orig.skip(taken + 1));
        }
        let mut p: usize = 0;
        while p < sorted.len() && sorted[p].last_id >= x.last_id
            invariant
                p <= sorted.len(),
                forall|k: int| 0 <= k < p ==> (#[trigger] sorted@[k]).last_id >= x.last_id,
            decreases sorted.len() - p,
        {
            p = p + 1;
        }
        let ghost before = sorted@;
        sorted.insert(p, x);
        proof {
            assert forall|a: int, b: int| 0 <= a < b < sorted@.len() implies #[trigger] sorted@[a].last_id
                >= #[trigger] sorted@[b].last_id by {
                if b < p {
                    assert(sorted@[a] == before[a] && sorted@[b] == before[b]);
                } else if b == p {
                    assert(sorted@[a] == before[a]);
                } else if a == p {
                    assert(sorted@[b] == before[b - 1]);
                    assert(before[p as int].last_id < x.last_id);
                    assert(before[p as int].last_id >= before[b - 1].last_id);
                } else if a < p {
                    assert(sorted@[a] == before[a] && sorted@[b] == before[b - 1]);
                } else {
                    assert(sorted@[a] == before[a - 1] && sorted@[b] == before[b - 1]);
                }
            }
            assert(senders(sorted@) =~= senders(before).insert(p as int, x.from@));
            assert(senders(orig.take(taken + 1)) =~= senders(orig.take(taken as int)).push(
                orig[taken as int].from@,
            ));
            assert forall|j: int| 0 <= j < sorted.len() implies orig.contains(#[trigger] sorted@[j]) by {
                if j < p {
                    assert(sorted@[j] == before[j]);
                } else if j == p {
                    assert(orig[taken as int] == x);
                } else {
                    assert(sorted@[j] == before[j - 1]);
                }
            }
        }
        taken = taken + 1;
    }
    proof {
        assert(orig.take(n as int) =~= orig);
    }
    sorted
}

// ---------------------------------------------------------------------------
// Every message is counted once
// ---------------------------------------------------------------------------

/// The sum of the counts of a sequence of summaries.
pub open spec fn total_count(r: Seq<MemberSummary>) -> nat
    decreases r.len(),
{
    if r.len() == 0 {
        0
    } else {
        total_count(r.drop_last()) + r.last().count as nat
    }
}

spec fn count_sum(keys: Seq<Seq<char>>, msgs: Seq<Message>) -> nat
    decreases keys.len(),
{
    if keys.len() == 0 {
        0
    } else {
        count_sum(keys.drop_last(), msgs) + sender_count(msgs, keys.last())
    }
}

spec fn hits(keys: Seq<Seq<char>>, x: Seq<char>) -> nat
    decreases keys.len(),
{
    if keys.len() == 0 {
        0
    } else {
        hits(keys.drop_last(), x) + if keys.last() == x {
            1nat
        } else {
            0nat
        }
    }
}

proof fn lemma_count_sum_step(keys: Seq<Seq<char>>, msgs: Seq<Message>)
    requires
        msgs.len() > 0,
    ensures
        count_sum(keys, msgs) == count_sum(keys, msgs.drop_last()) + hits(keys, msgs.last().from@),
    decreases keys.len(),
{
    if keys.len() > 0 {
        lemma_count_sum_step(keys.drop_last(), msgs);
    }
}

proof fn lemma_hits_absent(keys: Seq<Seq<char>>, x: Seq<char>)
    requires
        !keys.contains(x),
    ensures
        hits(keys, x) == 0,
    decreases keys.len(),
{
    if keys.len() > 0 {
        assert(keys[keys.len() - 1] != x);
        assert forall|i: int| 0 <= i < keys.drop_last().len() implies keys.drop_last()[i] != x by {
            assert(keys.drop_last()[i] == keys[i]);
        }
        lemma_hits_absent(keys.drop_last(), x);
    }
}

proof fn lemma_hits_once(keys: Seq<Seq<char>>, x: Seq<char>)
    requires
        keys.no_duplicates(),
        keys.contains(x),
    ensures
        hits(keys, x) == 1,
    decreases keys.len(),
{
    let rest = keys.drop_last();
    assert(rest.no_duplicates()) by {
        assert forall|i: int, j: int| 0 <= i < rest.len() && 0 <= j < rest.len() && i != j implies rest[i]
            != rest[j] by {
            assert(rest[i] == keys[i] && rest[j] == keys[j]);
        }
    }
    if keys.last() == x {
        assert forall|i: int| 0 <= i < rest.len() implies rest[i] != x by {
            assert(rest[i] == keys[i]);
            assert(keys[keys.len() - 1] == x);
        }
        lemma_hits_absent(rest, x);
    } else {
        let k = choose|k: int| 0 <= k < keys.len() && keys[k] == x;
        assert(k < keys.len() - 1);
        assert(rest[k] == x);
        lemma_hits_once(rest, x);
    }
}

proof fn lemma_count_sum_covers(keys: Seq<Seq<char>>, msgs: Seq<Message>)
    requires
        keys.no_duplicates(),
        forall|k: int| 0 <= k < msgs.len() ==> keys.contains(#[trigger] msgs[k].from@),
    ensures
        count_sum(keys, msgs) == msgs.len(),
    decreases msgs.len(),
{
    if msgs.len() == 0 {
        assert(count_sum(keys, msgs) == 0) by {
            lemma_count_sum_empty(keys, msgs);
        }
    } else {
        let rest = msgs.drop_last();
        assert forall|k: int| 0 <= k < rest.len() implies keys.contains(#[trigger] rest[k].from@) by {
            assert(rest[k] == msgs[k]);
        }
        lemma_count_sum_covers(keys, rest);
        lemma_count_sum_step(keys, msgs);
        assert(keys.contains(msgs[msgs.len() - 1].from@));
        lemma_hits_once(keys, msgs.last().from@);
    }
}

proof fn lemma_count_sum_empty(keys: Seq<Seq<char>>, msgs: Seq<Message>)
    requires
        msgs.len() == 0,
    ensures
        count_sum(keys, msgs) == 0,
    decreases keys.len(),
{
    if keys.len() > 0 {
        lemma_count_sum_empty(keys.drop_last(), msgs);
    }
}

proof fn lemma_total_is_count_sum(r: Seq<MemberSummary>, msgs: Seq<Message>)
    requires
        forall|j: int| 0 <= j < r.len() ==> #[trigger] summarizes(r[j], msgs),
    ensures
        total_count(r) == count_sum(senders(r), msgs),
    decreases r.len(),
{
    if r.len() > 0 {
        let rest = r.drop_last();
        assert forall|j: int| 0 <= j < rest.len() implies #[trigger] summarizes(rest[j], msgs) by {
            assert(rest[j] == r[j]);
        }
        lemma_total_is_count_sum(rest, msgs);
        assert(senders(r).drop_last() =~= senders(rest));
        assert(summarizes(r[r.len() - 1], msgs));
    }
}

/// Every message is counted exactly once: the counts of a channel's
/// membership add up to the number of messages in its log.
pub proof fn lemma_counts_cover_every_message(r: Seq<MemberSummary>, msgs: Seq<Message>)
    requires
        membership(r, msgs),
    ensures
        total_count(r) == msgs.len(),
{
    lemma_total_is_count_sum(r, msgs);
    lemma_count_sum_covers(senders(r), msgs);
}

// ---------------------------------------------------------------------------
// The membership depends only on which messages there are
// ---------------------------------------------------------------------------

/// No two messages carry the same id.
pub open spec fn ids_distinct(msgs: Seq<Message>) -> bool {
    forall|i: int, j: int| 0 <= i < msgs.len() && 0 <= j < msgs.len() && i != j ==> #[trigger] msgs[i].id
        != #[trigger] msgs[j].id
}

/// What a summary says: sender, count, and the first and last ids and times.
pub open spec fn summary_view(s: MemberSummary) -> (Seq<char>, usize, u128, Timestamp, u128, Timestamp) {
    (s.from@, s.count, s.first_id, s.first_ts, s.last_id, s.last_ts)
}

/// What a sequence of summaries says.
pub open spec fn summary_views(r: Seq<MemberSummary>) -> Seq<(Seq<char>, usize, u128, Timestamp, u128, Timestamp)> {
    r.map_values(|s: MemberSummary| summary_view(s))
}

proof fn lemma_count_remove(t: Seq<Message>, i: int, f: Seq<char>)
    requires
        0 <= i < t.len(),
    ensures
        sender_count(t, f) == sender_count(t.remove(i), f) + if t[i].from@ == f {
            1nat
        } else {
            0nat
        },
    decreases t.len(),
{
    if i == t.len() - 1 {
        assert(t.remove(i) =~= t.drop_last());
    } else {
        lemma_count_remove(t.drop_last(), i, f);
        assert(t.remove(i).drop_last() =~= t.drop_last().remove(i));
        assert(t.remove(i).last() == t.last());
    }
}

proof fn lemma_count_permutation(s: Seq<Message>, t: Seq<Message>, f: Seq<char>)
    requires
        s.to_multiset() == t.to_multiset(),
    ensures
        sender_count(s, f) == sender_count(t, f),
    decreases s.len(),
{
    vstd::seq_lib::to_multiset_len(s);
    vstd::seq_lib::to_multiset_len(t);
    if s.len() == 0 {
        assert(t.len() == 0);
    } else {
        let x = s.last();
        assert(s.contains(x)) by {
            assert(s[s.len() - 1] == x);
        }
        vstd::seq_lib::to_multiset_contains(s, x);
        vstd::seq_lib::to_multiset_contains(t, x);
        assert(t.contains(x));
        let i = choose|i: int| 0 <= i < t.len() && t[i] == x;
        assert(s.remove(s.len() - 1) =~= s.drop_last());
        assert(s.drop_last().to_multiset() == s.to_multiset().remove(x));
        assert(t.remove(i).to_multiset() == t.to_multiset().remove(x));
        lemma_count_permutation(s.drop_last(), t.remove(i), f);
        lemma_count_remove(t, i, f);
    }
}

proof fn lemma_permutation_members(msgs: Seq<Message>, p: Seq<Message>)
    requires
        ids_distinct(msgs),
        p.to_multiset() == msgs.to_multiset(),
    ensures
        ids_distinct(p),
        p.len() == msgs.len(),
        forall|j: int| 0 <= j < p.len() ==> msgs.contains(#[trigger] p[j]),
        forall|a: int| 0 <= a < msgs.len() ==> p.contains(#[trigger] msgs[a]),
{
    vstd::seq_lib::to_multiset_len(p);
    vstd::seq_lib::to_multiset_len(msgs);
    assert(p.len() == msgs.len());
    assert forall|j: int| 0 <= j < p.len() implies msgs.contains(#[trigger] p[j]) by {
        assert(p.contains(p[j]));
        vstd::seq_lib::to_multiset_contains(p, p[j]);
        vstd::seq_lib::to_multiset_contains(msgs, p[j]);
    }
    assert forall|a: int| 0 <= a < msgs.len() implies p.contains(#[trigger] msgs[a]) by {
        assert(msgs.contains(msgs[a]));
        vstd::seq_lib::to_multiset_contains(p, msgs[a]);
        vstd::seq_lib::to_multiset_contains(msgs, msgs[a]);
    }
    assert forall|i: int, j: int| 0 <= i < msgs.len() && 0 <= j < msgs.len() && i != j implies msgs[i]
        != msgs[j] by {
        assert(msgs[i].id != msgs[j].id);
    }
    assert(msgs.no_duplicates());
    msgs.lemma_multiset_has_no_duplicates();
    p.lemma_multiset_has_no_duplicates_conv();
    assert forall|i: int, j: int| 0 <= i < p.len() && 0 <= j < p.len() && i != j implies #[trigger] p[i].id
        != #[trigger] p[j].id by {
        assert(msgs.contains(p[i]));
        assert(msgs.contains(p[j]));
        let a = choose|a: int| 0 <= a < msgs.len() && msgs[a] == p[i];
        let b = choose|b: int| 0 <= b < msgs.len() && msgs[b] == p[j];
        assert(p[i] != p[j]);
    }
}

proof fn lemma_summarizes_permutation(s: MemberSummary, msgs: Seq<Message>, p: Seq<Message>)
    requires
        ids_distinct(msgs),
        p.to_multiset() == msgs.to_multiset(),
        summarizes(s, msgs),
    ensures
        summarizes(s, p),
{
    lemma_permutation_members(msgs, p);
    lemma_count_permutation(msgs, p, s.from@);
    let f = s.from@;
    let n = msgs.len() as int;
    let k = choose|k: int|
        #![trigger msgs[k]]
        first_of(msgs, n, f, k) && s.first_id == msgs[k].id && s.first_ts == msgs[k].ts;
    assert(p.contains(msgs[k]));
    let k2 = choose|k2: int| 0 <= k2 < p.len() && p[k2] == msgs[k];
    assert forall|j: int| 0 <= j < n && #[trigger] p[j].from@ == f implies p[k2].id <= p[j].id by {
        assert(msgs.contains(p[j]));
        let a = choose|a: int| 0 <= a < msgs.len() && msgs[a] == p[j];
        assert(msgs[a].from@ == f);
    }
    assert(first_of(p, n, f, k2));
    let l = choose|l: int|
        #![trigger msgs[l]]
        last_of(msgs, n, f, l) && s.last_id == msgs[l].id && s.last_ts == msgs[l].ts;
    assert(p.contains(msgs[l]));
    let l2 = choose|l2: int| 0 <= l2 < p.len() && p[l2] == msgs[l];
    assert forall|j: int| 0 <= j < n && #[trigger] p[j].from@ == f implies p[j].id <= p[l2].id by {
        assert(msgs.contains(p[j]));
        let a = choose|a: int| 0 <= a < msgs.len() && msgs[a] == p[j];
        assert(msgs[a].from@ == f);
    }
    assert(last_of(p, n, f, l2));
    assert(p[k2] == p[k2] && p[l2] == p[l2]);
}

/// A membership of a log is a membership of any reordering of it, when no
/// two messages share an id.
proof fn lemma_membership_permutation(r: Seq<MemberSummary>, msgs: Seq<Message>, p: Seq<Message>)
    requires
        ids_distinct(msgs),
        p.to_multiset() == msgs.to_multiset(),
        membership(r, msgs),
    ensures
        membership(r, p),
{
    lemma_permutation_members(msgs, p);
    assert forall|j: int| 0 <= j < r.len() implies #[trigger] summarizes(r[j], p) by {
        lemma_summarizes_permutation(r[j], msgs, p);
    }
    assert forall|k: int| 0 <= k < p.len() implies senders(r).contains(#[trigger] p[k].from@) by {
        assert(msgs.contains(p[k]));
        let a = choose|a: int| 0 <= a < msgs.len() && msgs[a] == p[k];
        assert(senders(r).contains(msgs[a].from@));
    }
}

proof fn lemma_same_sender_same_summary(s1: MemberSummary, s2: MemberSummary, msgs: Seq<Message>)
    requires
        ids_distinct(msgs),
        summarizes(s1, msgs),
        summarizes(s2, msgs),
        s1.from@ == s2.from@,
    ensures
        summary_view(s1) == summary_view(s2),
{
    let f = s1.from@;
    let n = msgs.len() as int;
    let k1 = choose|k: int|
        #![trigger msgs[k]]
        first_of(msgs, n, f, k) && s1.first_id == msgs[k].id && s1.first_ts == msgs[k].ts;
    let k2 = choose|k: int|
        #![trigger msgs[k]]
        first_of(msgs, n, f, k) && s2.first_id == msgs[k].id && s2.first_ts == msgs[k].ts;
    assert(msgs[k1].id <= msgs[k2].id && msgs[k2].id <= msgs[k1].id);
    assert(k1 == k2);
    let l1 = choose|k: int|
        #![trigger msgs[k]]
        last_of(msgs, n, f, k) && s1.last_id == msgs[k].id && s1.last_ts == msgs[k].ts;
    let l2 = choose|k: int|
        #![trigger msgs[k]]
        last_of(msgs, n, f, k) && s2.last_id == msgs[k].id && s2.last_ts == msgs[k].ts;
    assert(msgs[l1].id <= msgs[l2].id && msgs[l2].id <= msgs[l1].id);
    assert(l1 == l2);
}

/// The last ids of a sequence of summaries.
spec fn last_ids(r: Seq<MemberSummary>) -> Seq<u128> {
    r.map_values(|s: MemberSummary| s.last_id)
}

spec fn strictly_decreasing(a: Seq<u128>) -> bool {
    forall|i: int, j: int| 0 <= i < j < a.len() ==> #[trigger] a[i] > #[trigger] a[j]
}

proof fn lemma_decreasing_unique(a: Seq<u128>, b: Seq<u128>)
    requires
        strictly_decreasing(a),
        strictly_decreasing(b),
        forall|x: u128| a.contains(x) <==> b.contains(x),
    ensures
        a == b,
    decreases a.len(),
{
    if a.len() == 0 {
        if b.len() > 0 {
            assert(b.contains(b[0]));
        }
        assert(a =~= b);
    } else if b.len() == 0 {
        assert(a.contains(a[0]));
    } else {
        assert(a.contains(a[0]));
        assert(b.contains(b[0]));
        let j = choose|j: int| 0 <= j < b.len() && b[j] == a[0];
        let i = choose|i: int| 0 <= i < a.len() && a[i] == b[0];
        assert(a[0] <= b[0]) by {
            if j > 0 {
                assert(b[0] > b[j]);
            }
        }
        assert(b[0] <= a[0]) by {
            if i > 0 {
                assert(a[0] > a[i]);
            }
        }
        let a1 = a.drop_first();
        let b1 = b.drop_first();
        assert forall|x: u128| a1.contains(x) <==> b1.contains(x) by {
            if a1.contains(x) {
                let t = choose|t: int| 0 <= t < a1.len() && a1[t] == x;
                assert(a[t + 1] == x && a[0] > a[t + 1]);
                assert(b.contains(x));
                let u = choose|u: int| 0 <= u < b.len() && b[u] == x;
                assert(u != 0);
                assert(b1[u - 1] == x);
            }
            if b1.contains(x) {
                let t = choose|t: int| 0 <= t < b1.len() && b1[t] == x;
                assert(b[t + 1] == x && b[0] > b[t + 1]);
                assert(a.contains(x));
                let u = choose|u: int| 0 <= u < a.len() && a[u] == x;
                assert(u != 0);
                assert(a1[u - 1] == x);
            }
        }
        lemma_decreasing_unique(a1, b1);
        assert(a =~= seq![a[0]] + a1);
        assert(b =~= seq![b[0]] + b1);
    }
}

proof fn lemma_membership_decreasing(r: Seq<MemberSummary>, msgs: Seq<Message>)
    requires
        ids_distinct(msgs),
        membership(r, msgs),
    ensures
        strictly_decreasing(last_ids(r)),
{
    let n = msgs.len() as int;
    assert forall|i: int, j: int| 0 <= i < j < last_ids(r).len() implies #[trigger] last_ids(r)[i]
        > #[trigger] last_ids(r)[j] by {
        assert(summarizes(r[i], msgs) && summarizes(r[j], msgs));
        assert(r[i].last_id >= r[j].last_id);
        if r[i].last_id == r[j].last_id {
            let ki = choose|k: int|
                #![trigger msgs[k]]
                last_of(msgs, n, r[i].from@, k) && r[i].last_id == msgs[k].id && r[i].last_ts
                    == msgs[k].ts;
            let kj = choose|k: int|
                #![trigger msgs[k]]
                last_of(msgs, n, r[j].from@, k) && r[j].last_id == msgs[k].id && r[j].last_ts
                    == msgs[k].ts;
            assert(ki == kj);
            assert(senders(r)[i] == senders(r)[j]);
        }
    }
}

proof fn lemma_membership_unique(r1: Seq<MemberSummary>, r2: Seq<MemberSummary>, msgs: Seq<Message>)
    requires
        ids_distinct(msgs),
        membership(r1, msgs),
        membership(r2, msgs),
    ensures
        summary_views(r1) == summary_views(r2),
{
    let n = msgs.len() as int;
    lemma_membership_decreasing(r1, msgs);
    lemma_membership_decreasing(r2, msgs);
    // Each summary of one has a summary of the same sender, saying the same, in the other.
    assert forall|i: int| 0 <= i < r1.len() implies exists|j: int|
        0 <= j < r2.len() && #[trigger] summary_view(r1[i]) == summary_view(r2[j]) by {
        assert(summarizes(r1[i], msgs));
        let k = choose|k: int|
            #![trigger msgs[k]]
            last_of(msgs, n, r1[i].from@, k) && r1[i].last_id == msgs[k].id && r1[i].last_ts == msgs[k].ts;
        assert(senders(r2).contains(msgs[k].from@));
        let j = choose|j: int| 0 <= j < senders(r2).len() && senders(r2)[j] == msgs[k].from@;
        lemma_same_sender_same_summary(r1[i], r2[j], msgs);
    }
    assert forall|j: int| 0 <= j < r2.len() implies exists|i: int|
        0 <= i < r1.len() && #[trigger] summary_view(r2[j]) == summary_view(r1[i]) by {
        assert(summarizes(r2[j], msgs));
        let k = choose|k: int|
            #![trigger msgs[k]]
            last_of(msgs, n, r2[j].from@, k) && r2[j].last_id == msgs[k].id && r2[j].last_ts == msgs[k].ts;
        assert(senders(r1).contains(msgs[k].from@));
        let i = choose|i: int| 0 <= i < senders(r1).len() && senders(r1)[i] == msgs[k].from@;
        lemma_same_sender_same_summary(r2[j], r1[i], msgs);
    }
    assert forall|x: u128| last_ids(r1).contains(x) <==> last_ids(r2).contains(x) by {
        if last_ids(r1).contains(x) {
            let i = choose|i: int| 0 <= i < last_ids(r1).len() && last_ids(r1)[i] == x;
            assert(0 <= i < r1.len());
            let j = choose|j: int| 0 <= j < r2.len() && summary_view(r1[i]) == summary_view(r2[j]);
            assert(last_ids(r2)[j] == x);
        }
        if last_ids(r2).contains(x) {
            let j = choose|j: int| 0 <= j < last_ids(r2).len() && last_ids(r2)[j] == x;
            assert(0 <= j < r2.len());
            let i = choose|i: int| 0 <= i < r1.len() && summary_view(r2[j]) == summary_view(r1[i]);
            assert(last_ids(r1)[i] == x);
        }
    }
    lemma_decreasing_unique(last_ids(r1), last_ids(r2));
    assert(r1.len() == last_ids(r1).len() && r2.len() == last_ids(r2).len());
    assert forall|i: int| 0 <= i < r1.len() implies summary_views(r1)[i] == summary_views(r2)[i] by {
        let j = choose|j: int| 0 <= j < r2.len() && summary_view(r1[i]) == summary_view(r2[j]);
        assert(last_ids(r2)[j] == last_ids(r1)[i]);
        assert(last_ids(r2)[i] == last_ids(r1)[i]);
        if i != j {
            assert(last_ids(r2)[i] != last_ids(r2)[j]);
        }
    }
    assert(summary_views(r1) =~= summary_views(r2));
}

/// The membership depends only on which messages the log holds, not on
/// their order in the file: when no two messages share an id, the
/// membership of a reordering of a log says exactly what the membership of
/// the log says, summary by summary.
pub proof fn lemma_membership_order_independent(
    r: Seq<MemberSummary>,
    msgs: Seq<Message>,
    rp: Seq<MemberSummary>,
    p: Seq<Message>,
)
    requires
        ids_distinct(msgs),
        p.to_multiset() == msgs.to_multiset(),
        membership(r, msgs),
        membership(rp, p),
    ensures
        summary_views(r) == summary_views(rp),
{
    lemma_membership_permutation(r, msgs, p);
    lemma_permutation_members(msgs, p);
    lemma_membership_unique(r, rp, p);
}

} // verus!
