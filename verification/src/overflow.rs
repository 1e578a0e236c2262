//! What evicting from the fattest flows guarantees when the send buffer overflows.
use vstd::prelude::*;

use crate::flow::{payload_bytes, QueuedDatagram};
use crate::schedule::{evictions, lemma_evicted, Schedule};
use crate::service::{is_rest_of, queue_of};

verus! {

/// Evictions bring the buffer down to its limit, one datagram at a time and the
/// oldest of its flow first; a buffer within its limit loses nothing.
pub proof fn law_evictions_reach_the_limit(
    s: Schedule,
    kept: Schedule,
    limit: int,
    n: nat,
    b: u32,
)
    requires
        s.wf(),
        evictions(s, kept, limit, n),
    ensures
        kept.wf(),
        kept.backlog() <= limit,
        kept.queued() + n == s.queued(),
        is_rest_of(queue_of(kept, b), queue_of(s, b)),
        s.backlog() <= limit <==> n == 0,
        n == 0 ==> kept == s,
    decreases n,
{
    let queue = queue_of(s, b);
    if n == 0 {
        assert(queue.skip(0) =~= queue);
    } else {
        let f = choose|f: u32| #[trigger]
            s.is_fattest(f) && evictions(s.evicted(f), kept, limit, (n - 1) as nat);
        lemma_evicted(s, f);
        law_evictions_reach_the_limit(s.evicted(f), kept, limit, (n - 1) as nat, b);
        let next = queue_of(s.evicted(f), b);
        assert(next =~= if b == f {
            queue.drop_first()
        } else {
            queue
        });
        assert(queue_of(kept, b) =~= queue.skip(queue.len() - queue_of(kept, b).len()));
    }
}

proof fn lemma_rest_is_no_larger(rest: Seq<QueuedDatagram>, queue: Seq<QueuedDatagram>)
    requires
        is_rest_of(rest, queue),
    ensures
        payload_bytes(rest) <= payload_bytes(queue),
    decreases queue.len(),
{
    if rest.len() < queue.len() {
        assert(rest =~= queue.drop_first().skip(queue.drop_first().len() - rest.len()));
        lemma_rest_is_no_larger(rest, queue.drop_first());
    } else {
        assert(rest =~= queue);
    }
}

/// The flow that floods the buffer pays: a flow that held fewer bytes than
/// another flow still holds afterwards has lost nothing.
pub proof fn law_overflow_spares_smaller_flows(
    s: Schedule,
    kept: Schedule,
    limit: int,
    n: nat,
    small: u32,
    large: u32,
)
    requires
        s.wf(),
        evictions(s, kept, limit, n),
        payload_bytes(queue_of(s, small)) < payload_bytes(queue_of(kept, large)),
    ensures
        queue_of(kept, small) == queue_of(s, small),
    decreases n,
{
    if n > 0 {
        let f = choose|f: u32| #[trigger]
            s.is_fattest(f) && evictions(s.evicted(f), kept, limit, (n - 1) as nat);
        law_evictions_reach_the_limit(s, kept, limit, n, large);
        lemma_rest_is_no_larger(queue_of(kept, large), queue_of(s, large));
        lemma_evicted(s, f);
        if f == small {
            assert(s.flows.contains_key(large) && s.flows[large].queue.len() > 0);
        }
        assert(queue_of(s.evicted(f), small) =~= queue_of(s, small));
        law_overflow_spares_smaller_flows(s.evicted(f), kept, limit, (n - 1) as nat, small, large);
    }
}

/// With a single flow active, evictions take exactly the oldest datagrams.
pub proof fn law_single_flow_evicts_oldest_first(
    s: Schedule,
    kept: Schedule,
    limit: int,
    n: nat,
    b: u32,
)
    requires
        s.wf(),
        evictions(s, kept, limit, n),
        forall|c: u32| c != b ==> (#[trigger] queue_of(s, c)).len() == 0,
    ensures
        n <= queue_of(s, b).len(),
        queue_of(kept, b) == queue_of(s, b).skip(n as int),
        forall|c: u32| c != b ==> (#[trigger] queue_of(kept, c)).len() == 0,
    decreases n,
{
    let queue = queue_of(s, b);
    if n == 0 {
        assert(queue.skip(0) =~= queue);
    } else {
        let f = choose|f: u32| #[trigger]
            s.is_fattest(f) && evictions(s.evicted(f), kept, limit, (n - 1) as nat);
        assert(queue_of(s, f).len() > 0);
        assert(f == b);
        lemma_evicted(s, f);
        assert forall|c: u32| c != b implies (#[trigger] queue_of(s.evicted(f), c)).len() == 0 by {
            assert(queue_of(s, c).len() == 0);
        }
        law_single_flow_evicts_oldest_first(s.evicted(f), kept, limit, (n - 1) as nat, b);
        assert(queue_of(s.evicted(f), b) =~= queue.drop_first());
        assert(queue_of(kept, b) =~= queue.skip(n as int));
    }
}

/// A fattest flow holds at least as many bytes as any other, and at least one
/// datagram; evicting from it takes its oldest datagram and nothing else.
pub proof fn law_eviction_takes_the_oldest_of_a_fattest_flow(s: Schedule, f: u32, c: u32)
    requires
        s.is_fattest(f),
    ensures
        queue_of(s, f).len() > 0,
        payload_bytes(queue_of(s, c)) <= payload_bytes(queue_of(s, f)),
        queue_of(s.evicted(f), f) == queue_of(s, f).drop_first(),
        c != f ==> queue_of(s.evicted(f), c) == queue_of(s, c),
        s.evicted(f).new_flows == s.new_flows,
        s.evicted(f).old_flows == s.old_flows,
        s.evicted(f).flows.contains_key(c) <==> s.flows.contains_key(c),
        s.flows.contains_key(c) ==> {
            &&& s.evicted(f).flows[c].deficit == s.flows[c].deficit
            &&& s.evicted(f).flows[c].codel == s.flows[c].codel
        },
{
}

/// Where anything is queued, some flow is a fattest one.
pub proof fn law_some_flow_is_fattest(s: Schedule)
    requires
        s.wf(),
        !s.empty(),
    ensures
        exists|f: u32| #[trigger] s.is_fattest(f),
{
    let b = choose|b: u32| #[trigger] s.flows.contains_key(b) && s.flows[b].queue.len() > 0;
    lemma_fattest_among(s, b, s.order());
    let f = choose|f: u32|
        {
            &&& #[trigger] s.flows.contains_key(f)
            &&& s.flows[f].queue.len() > 0
            &&& forall|i: int|
                0 <= i < s.order().len() && s.flows[#[trigger] s.order()[i]].queue.len() > 0
                    ==> payload_bytes(s.flows[s.order()[i]].queue) <= payload_bytes(
                    s.flows[f].queue,
                )
        };
    assert forall|c: u32| #[trigger]
        s.flows.contains_key(c) && s.flows[c].queue.len() > 0 implies payload_bytes(
        s.flows[c].queue,
    ) <= payload_bytes(s.flows[f].queue) by {
        assert(s.order().contains(c));
    }
    assert(s.is_fattest(f));
}

proof fn lemma_fattest_among(s: Schedule, b: u32, list: Seq<u32>)
    requires
        s.flows.contains_key(b),
        s.flows[b].queue.len() > 0,
        forall|i: int| 0 <= i < list.len() ==> s.flows.contains_key(#[trigger] list[i]),
    ensures
        exists|f: u32|
            {
                &&& #[trigger] s.flows.contains_key(f)
                &&& s.flows[f].queue.len() > 0
                &&& forall|i: int|
                    0 <= i < list.len() && s.flows[#[trigger] list[i]].queue.len() > 0
                        ==> payload_bytes(s.flows[list[i]].queue) <= payload_bytes(s.flows[f].queue)
            },
    decreases list.len(),
{
    if list.len() > 0 {
        let rest = list.drop_last();
        lemma_fattest_among(s, b, rest);
        let f = choose|f: u32|
            {
                &&& #[trigger] s.flows.contains_key(f)
                &&& s.flows[f].queue.len() > 0
                &&& forall|i: int|
                    0 <= i < rest.len() && s.flows[#[trigger] rest[i]].queue.len() > 0
                        ==> payload_bytes(s.flows[rest[i]].queue) <= payload_bytes(s.flows[f].queue)
            };
        let last = list.last();
        let g = if s.flows[last].queue.len() > 0 && payload_bytes(s.flows[last].queue)
            > payload_bytes(s.flows[f].queue) {
            last
        } else {
            f
        };
        assert(s.flows.contains_key(last));
        assert forall|i: int|
            0 <= i < list.len() && s.flows[#[trigger] list[i]].queue.len()
                > 0 implies payload_bytes(s.flows[list[i]].queue) <= payload_bytes(
            s.flows[g].queue,
        ) by {
            if i < rest.len() {
                assert(rest[i] == list[i]);
            }
        }
        assert(s.flows.contains_key(g));
    }
}

/// The first of several evictions is from a flow that holds at least as many bytes
/// as any other, takes its oldest datagram and nothing else, and comes only while
/// more is queued than the limit allows; the others follow from there.
pub proof fn law_evictions_hit_the_fattest(s: Schedule, kept: Schedule, limit: int, n: nat)
    requires
        s.wf(),
        evictions(s, kept, limit, n),
        n > 0,
    ensures
        s.backlog() > limit,
        exists|f: u32|
            {
                &&& evictions(#[trigger] s.evicted(f), kept, limit, (n - 1) as nat)
                &&& queue_of(s, f).len() > 0
                &&& forall|c: u32|
                    payload_bytes(#[trigger] queue_of(s, c)) <= payload_bytes(queue_of(s, f))
            },
{
    let f = choose|f: u32| #[trigger]
        s.is_fattest(f) && evictions(s.evicted(f), kept, limit, (n - 1) as nat);
    assert forall|c: u32|
        payload_bytes(#[trigger] queue_of(s, c)) <= payload_bytes(queue_of(s, f)) by {
        law_eviction_takes_the_oldest_of_a_fattest_flow(s, f, c);
    }
    assert(evictions(s.evicted(f), kept, limit, (n - 1) as nat));
}

/// No more is evicted than needed: with one of the evicted datagrams, the last of
/// them all, the buffer was still over its limit.
pub proof fn law_evictions_stop_in_time(s: Schedule, kept: Schedule, limit: int, n: nat)
    requires
        s.wf(),
        evictions(s, kept, limit, n),
        n > 0,
    ensures
        exists|f: u32|
            {
                let gone = queue_of(s, f).len() - (#[trigger] queue_of(kept, f)).len();
                &&& gone > 0
                &&& kept.backlog() + queue_of(s, f)[gone - 1].len() > limit
            },
    decreases n,
{
    let f = choose|f: u32| #[trigger]
        s.is_fattest(f) && evictions(s.evicted(f), kept, limit, (n - 1) as nat);
    let t = s.evicted(f);
    lemma_evicted(s, f);
    if n == 1 {
        assert(kept == t);
        assert(queue_of(kept, f) == queue_of(s, f).drop_first());
    } else {
        law_evictions_stop_in_time(t, kept, limit, (n - 1) as nat);
        let g = choose|g: u32|
            {
                let gone = queue_of(t, g).len() - (#[trigger] queue_of(kept, g)).len();
                &&& gone > 0
                &&& kept.backlog() + queue_of(t, g)[gone - 1].len() > limit
            };
        law_eviction_takes_the_oldest_of_a_fattest_flow(s, f, g);
        let gone = queue_of(s, g).len() - queue_of(kept, g).len();
        let later = queue_of(t, g).len() - queue_of(kept, g).len();
        assert(queue_of(t, g)[later - 1] == queue_of(s, g)[gone - 1]);
        assert(kept.backlog() + queue_of(s, g)[gone - 1].len() > limit);
    }
}

} // verus!
