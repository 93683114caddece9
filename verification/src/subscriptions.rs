//! The subscriptions manager: owns one session's subscriptions, its inbound
//! publish-request queue and its outbound publish-response queue, and
//! orchestrates admission, expiry, priority-ordered ticking and
//! acknowledgement routing.

use vstd::prelude::*;

use std::collections::VecDeque;

use crate::messages::NotificationMessage;
use crate::messages::PublishRequest;
use crate::messages::PublishRequestEntry;
use crate::messages::PublishResponse;
use crate::messages::PublishResponseEntry;
use crate::messages::RequestHeader;
use crate::messages::ResponseHeader;
use crate::messages::ServiceFault;
use crate::messages::StatusCode;
use crate::messages::SubscriptionAcknowledgement;
use crate::messages::SupportedMessage;
use crate::subscription::holds_sequence;
use crate::subscription::sequence_index;
use crate::subscription::DataSource;
use crate::subscription::Subscription;
use crate::subscription::SubscriptionState;
use crate::subscription::SubscriptionView;
use crate::subscription::TickReason;

verus! {

/// The mathematical values of a sequence of subscriptions.
pub open spec fn views_of(subs: Seq<Subscription>) -> Seq<SubscriptionView> {
    subs.map_values(|s: Subscription| s@)
}

/// Replacing one subscription replaces exactly its view.
pub broadcast proof fn lemma_views_of_update(v: Seq<Subscription>, i: int, s: Subscription)
    requires
        0 <= i < v.len(),
    ensures
        #[trigger] views_of(v.update(i, s)) == views_of(v).update(i, s@),
{
    assert(views_of(v.update(i, s)) =~= views_of(v).update(i, s@));
}

/// Whether some subscription in `subs` carries the given id.
pub open spec fn has_subscription(subs: Seq<SubscriptionView>, subscription_id: u32) -> bool {
    exists|i: int| 0 <= i < subs.len() && subs[i].subscription_id == subscription_id
}

/// The index of the subscription with the given id; meaningful only when
/// `has_subscription` is true and ids are distinct.
pub open spec fn subscription_index(subs: Seq<SubscriptionView>, subscription_id: u32) -> int {
    choose|i: int| 0 <= i < subs.len() && subs[i].subscription_id == subscription_id
}

/// Pairwise-distinct subscription ids.
pub open spec fn distinct_ids(subs: Seq<SubscriptionView>) -> bool {
    forall|i: int, j: int|
        0 <= i < j < subs.len() ==> #[trigger] subs[i].subscription_id
            != #[trigger] subs[j].subscription_id
}

/// Each subscription well-formed.
pub open spec fn all_wf(subs: Seq<SubscriptionView>) -> bool {
    forall|i: int| 0 <= i < subs.len() ==> (#[trigger] subs[i]).wf()
}

/// The timeout that effectively applies to a request: its own hint when that
/// is present (positive) and strictly smaller than the default, otherwise the
/// default.
pub open spec fn effective_timeout(header: RequestHeader, default_timeout: i64) -> int {
    if header.timeout_hint > 0 && (header.timeout_hint as int) < default_timeout as int {
        header.timeout_hint as int
    } else {
        default_timeout as int
    }
}

/// Whether a queued request has expired at time `now`: its expiration time,
/// the header timestamp plus the effective timeout, is at or before `now`.
pub open spec fn is_expired(entry: PublishRequestEntry, now: i64, default_timeout: i64) -> bool {
    now as int >= entry.request.request_header.timestamp as int + effective_timeout(
        entry.request.request_header,
        default_timeout,
    )
}

/// The timeout fault generated for an expired request: a service fault,
/// timestamped to `now`, carrying the original request's handle and id.
pub open spec fn timeout_fault(entry: PublishRequestEntry, now: i64) -> PublishResponseEntry {
    PublishResponseEntry {
        request_id: entry.request_id,
        response: SupportedMessage::ServiceFault(
            ServiceFault {
                response_header: ResponseHeader {
                    timestamp: now,
                    request_handle: entry.request.request_header.request_handle,
                    service_result: StatusCode::BadTimeout,
                },
            },
        ),
    }
}

/// The queued requests that survive an expiry pass at time `now`, in order.
pub open spec fn surviving(
    q: Seq<PublishRequestEntry>,
    now: i64,
    default_timeout: i64,
) -> Seq<PublishRequestEntry> {
    q.filter(|entry: PublishRequestEntry| !is_expired(entry, now, default_timeout))
}

/// The timeout faults an expiry pass generates, in queue order.
pub open spec fn expired_faults(
    q: Seq<PublishRequestEntry>,
    now: i64,
    default_timeout: i64,
) -> Seq<PublishResponseEntry> {
    q.filter(|entry: PublishRequestEntry| is_expired(entry, now, default_timeout)).map_values(
        |entry: PublishRequestEntry| timeout_fault(entry, now),
    )
}

/// How one more queue entry extends the survivors and the faults of an
/// expiry pass.
proof fn lemma_expiry_step(
    q: Seq<PublishRequestEntry>,
    entry: PublishRequestEntry,
    now: i64,
    default_timeout: i64,
)
    ensures
        surviving(q.push(entry), now, default_timeout) == if is_expired(
            entry,
            now,
            default_timeout,
        ) {
            surviving(q, now, default_timeout)
        } else {
            surviving(q, now, default_timeout).push(entry)
        },
        expired_faults(q.push(entry), now, default_timeout) == if is_expired(
            entry,
            now,
            default_timeout,
        ) {
            expired_faults(q, now, default_timeout).push(timeout_fault(entry, now))
        } else {
            expired_faults(q, now, default_timeout)
        },
{
    reveal(Seq::filter);
    assert(q.push(entry).drop_last() =~= q);
    assert(q.push(entry).last() == entry);
    if is_expired(entry, now, default_timeout) {
        assert(surviving(q.push(entry), now, default_timeout) =~= surviving(
            q,
            now,
            default_timeout,
        ));
        assert(expired_faults(q.push(entry), now, default_timeout) =~= expired_faults(
            q,
            now,
            default_timeout,
        ).push(timeout_fault(entry, now)));
    } else {
        assert(surviving(q.push(entry), now, default_timeout) =~= surviving(
            q,
            now,
            default_timeout,
        ).push(entry));
        assert(expired_faults(q.push(entry), now, default_timeout) =~= expired_faults(
            q,
            now,
            default_timeout,
        ));
    }
}

/// Every entry of a sequence that wholly satisfies a predicate is kept by
/// `filter`.
proof fn lemma_filter_all(s: Seq<PublishRequestEntry>, pred: spec_fn(PublishRequestEntry) -> bool)
    requires
        forall|i: int| 0 <= i < s.len() ==> pred(#[trigger] s[i]),
    ensures
        s.filter(pred) == s,
    decreases s.len(),
{
    reveal(Seq::filter);
    if s.len() == 0 {
        assert(s.filter(pred) =~= s);
    } else {
        assert(forall|i: int| 0 <= i < s.drop_last().len() ==> pred(#[trigger] s.drop_last()[i]));
        lemma_filter_all(s.drop_last(), pred);
        assert(s.filter(pred) =~= s);
    }
}

/// `filter` drops every entry of a sequence that wholly fails a predicate.
proof fn lemma_filter_none(s: Seq<PublishRequestEntry>, pred: spec_fn(PublishRequestEntry) -> bool)
    requires
        forall|i: int| 0 <= i < s.len() ==> !pred(#[trigger] s[i]),
    ensures
        s.filter(pred) == Seq::<PublishRequestEntry>::empty(),
    decreases s.len(),
{
    reveal(Seq::filter);
    if s.len() == 0 {
        assert(s.filter(pred) =~= Seq::<PublishRequestEntry>::empty());
    } else {
        assert(forall|i: int| 0 <= i < s.drop_last().len() ==> !pred(#[trigger] s.drop_last()[i]));
        lemma_filter_none(s.drop_last(), pred);
        assert(s.filter(pred) =~= Seq::<PublishRequestEntry>::empty());
    }
}

/// Law: expiry is monotonic and idempotent. No survivor of an expiry pass is
/// expired, so a second pass at a non-advancing time keeps every survivor
/// and generates no new fault: no request expires twice, and no non-expired
/// request is ever removed.
pub proof fn lemma_expiry_idempotent(q: Seq<PublishRequestEntry>, now: i64, default_timeout: i64)
    ensures
        forall|i: int|
            0 <= i < surviving(q, now, default_timeout).len() ==> !is_expired(
                #[trigger] surviving(q, now, default_timeout)[i],
                now,
                default_timeout,
            ),
        surviving(surviving(q, now, default_timeout), now, default_timeout) == surviving(
            q,
            now,
            default_timeout,
        ),
        expired_faults(surviving(q, now, default_timeout), now, default_timeout) == Seq::<
            PublishResponseEntry,
        >::empty(),
{
    let keep = |entry: PublishRequestEntry| !is_expired(entry, now, default_timeout);
    let drop = |entry: PublishRequestEntry| is_expired(entry, now, default_timeout);
    q.filter_lemma(keep);
    let survivors = surviving(q, now, default_timeout);
    lemma_filter_all(survivors, keep);
    lemma_filter_none(survivors, drop);
    assert(expired_faults(survivors, now, default_timeout) =~= Seq::<
        PublishResponseEntry,
    >::empty());
}

/// How one acknowledgement is resolved against the subscriptions: an unknown
/// subscription id yields `BadSubscriptionIdInvalid`; otherwise the named
/// subscription retires the sequence number, reporting `Good` when it was
/// held and `BadSequenceNumberUnknown` when not.
pub open spec fn ack_one(subs: Seq<SubscriptionView>, ack: SubscriptionAcknowledgement) -> (
    Seq<SubscriptionView>,
    StatusCode,
) {
    if !has_subscription(subs, ack.subscription_id) {
        (subs, StatusCode::BadSubscriptionIdInvalid)
    } else {
        let i = subscription_index(subs, ack.subscription_id);
        if holds_sequence(subs[i].retransmission, ack.sequence_number) {
            let k = sequence_index(subs[i].retransmission, ack.sequence_number);
            (
                subs.update(
                    i,
                    SubscriptionView { retransmission: subs[i].retransmission.remove(k), ..subs[i] },
                ),
                StatusCode::Good,
            )
        } else {
            (subs, StatusCode::BadSequenceNumberUnknown)
        }
    }
}

/// Resolves a list of acknowledgements left to right, threading the
/// subscription states; the status list is positional.
pub open spec fn ack_list(subs: Seq<SubscriptionView>, acks: Seq<SubscriptionAcknowledgement>) -> (
    Seq<SubscriptionView>,
    Seq<StatusCode>,
)
    decreases acks.len(),
{
    if acks.len() == 0 {
        (subs, Seq::<StatusCode>::empty())
    } else {
        let first = ack_one(subs, acks[0]);
        let rest = ack_list(first.0, acks.drop_first());
        (rest.0, seq![first.1] + rest.1)
    }
}

/// Acknowledgement resolution only retires notifications: every subscription
/// keeps its position, id, priority, state and staged notifications.
pub proof fn lemma_ack_list_frame(
    subs: Seq<SubscriptionView>,
    acks: Seq<SubscriptionAcknowledgement>,
)
    ensures
        ack_list(subs, acks).0.len() == subs.len(),
        ack_list(subs, acks).1.len() == acks.len(),
        forall|i: int|
            0 <= i < subs.len() ==> {
                &&& (#[trigger] ack_list(subs, acks).0[i]).subscription_id
                    == subs[i].subscription_id
                &&& ack_list(subs, acks).0[i].priority == subs[i].priority
                &&& ack_list(subs, acks).0[i].state == subs[i].state
                &&& ack_list(subs, acks).0[i].pending == subs[i].pending
            },
    decreases acks.len(),
{
    if acks.len() > 0 {
        let first = ack_one(subs, acks[0]);
        lemma_ack_list_frame(first.0, acks.drop_first());
    }
}

/// The subscriptions that survive lazy garbage collection: every one whose
/// state is not `Closed`, in storage order.
pub open spec fn live(subs: Seq<SubscriptionView>) -> Seq<SubscriptionView> {
    subs.filter(|s: SubscriptionView| s.state != SubscriptionState::Closed)
}

/// The first index of minimal priority among the first `n` subscriptions.
pub open spec fn min_priority_upto(subs: Seq<SubscriptionView>, n: int) -> int
    decreases n,
{
    if n <= 1 {
        0
    } else {
        let m = min_priority_upto(subs, n - 1);
        if subs[n - 1].priority < subs[m].priority {
            n - 1
        } else {
            m
        }
    }
}

/// The scheduling order: subscriptions sorted by ascending priority value,
/// ties keeping their relative storage (insertion) order.
pub open spec fn priority_order(subs: Seq<SubscriptionView>) -> Seq<SubscriptionView>
    decreases subs.len(),
    via priority_order_decreases
{
    if subs.len() == 0 {
        subs
    } else {
        let m = min_priority_upto(subs, subs.len() as int);
        seq![subs[m]] + priority_order(subs.remove(m))
    }
}

#[via_fn]
proof fn priority_order_decreases(subs: Seq<SubscriptionView>) {
    if subs.len() > 0 {
        lemma_min_priority_upto_range(subs, subs.len() as int);
    }
}

/// The working state of one scheduling pass.
pub ghost struct RouteState {
    /// Subscriptions already visited, in processing order.
    pub done: Seq<SubscriptionView>,
    /// The working request queue, newest first.
    pub queue: Seq<PublishRequestEntry>,
    /// Requests consumed by a response, oldest first.
    pub handled: Seq<PublishRequestEntry>,
    /// Responses produced, in processing order.
    pub staged: Seq<PublishResponseEntry>,
}

/// One scheduling step: the subscription takes the oldest queued request and
/// publishes against it exactly when a request is available and it has a
/// staged notification; otherwise the request (if any) returns to the tail
/// for the next subscription in the same pass.
pub open spec fn route_step(st: RouteState, s: SubscriptionView, now: i64) -> RouteState {
    if st.queue.len() > 0 && s.ready_to_publish() {
        RouteState {
            done: st.done.push(s.after_publish(now)),
            queue: st.queue.drop_last(),
            handled: st.handled.push(st.queue.last()),
            staged: st.staged.push(s.publish_response_entry(st.queue.last(), now)),
        }
    } else {
        RouteState { done: st.done.push(s), ..st }
    }
}

/// The scheduling pass over the subscriptions in order.
pub open spec fn route_pass(st: RouteState, subs: Seq<SubscriptionView>, now: i64) -> RouteState
    decreases subs.len(),
{
    if subs.len() == 0 {
        st
    } else {
        route_pass(route_step(st, subs[0], now), subs.drop_first(), now)
    }
}

/// The second pass over the handled requests: each one's acknowledgements
/// are resolved, threading the subscription states, and yield the status
/// list (if any) to attach to the matching staged response.
pub open spec fn resolve_pass(subs: Seq<SubscriptionView>, handled: Seq<PublishRequestEntry>) -> (
    Seq<SubscriptionView>,
    Seq<Option<Seq<StatusCode>>>,
)
    decreases handled.len(),
{
    if handled.len() == 0 {
        (subs, Seq::<Option<Seq<StatusCode>>>::empty())
    } else {
        let step = match handled[0].request.subscription_acknowledgements {
            Option::<Vec<SubscriptionAcknowledgement>>::None => (
                subs,
                Option::<Seq<StatusCode>>::None,
            ),
            Option::<Vec<SubscriptionAcknowledgement>>::Some(acknowledgements) => {
                let a = ack_list(subs, acknowledgements@);
                (a.0, Option::<Seq<StatusCode>>::Some(a.1))
            },
        };
        let rest = resolve_pass(step.0, handled.drop_first());
        (rest.0, seq![step.1] + rest.1)
    }
}

/// How a resolved response relates to the staged one: identical but for the
/// acknowledgement results attached to a publish response.
pub open spec fn with_results(
    entry: PublishResponseEntry,
    results: Option<Seq<StatusCode>>,
    resolved: PublishResponseEntry,
) -> bool {
    &&& resolved.request_id == entry.request_id
    &&& match entry.response {
        SupportedMessage::PublishResponse(pre) => {
            &&& resolved.response matches SupportedMessage::PublishResponse(post)
            &&& (resolved.response matches SupportedMessage::PublishResponse(post) ==> {
                &&& post.response_header == pre.response_header
                &&& post.subscription_id == pre.subscription_id
                &&& post.notification_message == pre.notification_message
                &&& match results {
                    Option::<Seq<StatusCode>>::None => post.results is None,
                    Option::<Seq<StatusCode>>::Some(statuses) => post.results matches Some(v) && v@
                        == statuses,
                }
            })
        },
        SupportedMessage::ServiceFault(_) => resolved == entry,
    }
}

/// What `live` keeps: exactly the non-closed subscriptions, preserving ids,
/// well-formedness and id distinctness.
proof fn lemma_live_facts(subs: Seq<SubscriptionView>)
    ensures
        forall|id: u32|
            has_subscription(live(subs), id) <==> exists|j: int|
                0 <= j < subs.len() && subs[j].subscription_id == id && subs[j].state
                    != SubscriptionState::Closed,
        distinct_ids(subs) ==> distinct_ids(live(subs)),
        all_wf(subs) ==> all_wf(live(subs)),
    decreases subs.len(),
{
    reveal(Seq::filter);
    let pred = |s: SubscriptionView| s.state != SubscriptionState::Closed;
    if subs.len() == 0 {
    } else {
        let head = subs.drop_last();
        let tail = subs.last();
        assert(distinct_ids(subs) ==> distinct_ids(head));
        assert(all_wf(subs) ==> all_wf(head));
        lemma_live_facts(head);
        assert(live(subs) == if pred(tail) {
            live(head).push(tail)
        } else {
            live(head)
        });
        assert forall|id: u32| has_subscription(live(subs), id) implies exists|j: int|
            0 <= j < subs.len() && subs[j].subscription_id == id && subs[j].state
                != SubscriptionState::Closed by {
            let i = choose|i: int|
                0 <= i < live(subs).len() && live(subs)[i].subscription_id == id;
            if pred(tail) && i == live(subs).len() - 1 {
                assert(subs[subs.len() - 1].subscription_id == id && subs[subs.len() - 1].state
                    != SubscriptionState::Closed);
            } else {
                assert(has_subscription(live(head), id));
                let j = choose|j: int|
                    0 <= j < head.len() && head[j].subscription_id == id && head[j].state
                        != SubscriptionState::Closed;
                assert(subs[j].subscription_id == id && subs[j].state
                    != SubscriptionState::Closed);
            }
        }
        assert forall|id: u32|
            (exists|j: int|
                0 <= j < subs.len() && subs[j].subscription_id == id && subs[j].state
                    != SubscriptionState::Closed) implies has_subscription(live(subs), id) by {
            let j = choose|j: int|
                0 <= j < subs.len() && subs[j].subscription_id == id && subs[j].state
                    != SubscriptionState::Closed;
            if j == subs.len() - 1 {
                assert(live(subs)[live(subs).len() - 1].subscription_id == id);
            } else {
                assert(head[j].subscription_id == id && head[j].state
                    != SubscriptionState::Closed);
                assert(has_subscription(live(head), id));
                let i = choose|i: int|
                    0 <= i < live(head).len() && live(head)[i].subscription_id == id;
                assert(live(subs)[i].subscription_id == id);
            }
        }
        if distinct_ids(subs) {
            assert forall|a: int, b: int|
                0 <= a < b < live(subs).len() implies #[trigger] live(
                subs,
            )[a].subscription_id != #[trigger] live(subs)[b].subscription_id by {
                if pred(tail) && b == live(subs).len() - 1 {
                    assert(has_subscription(live(head), live(head)[a].subscription_id));
                    let j = choose|j: int|
                        0 <= j < head.len() && head[j].subscription_id == live(
                            head,
                        )[a].subscription_id && head[j].state != SubscriptionState::Closed;
                    assert(subs[j].subscription_id != subs[subs.len() - 1].subscription_id);
                }
            }
        }
        if all_wf(subs) {
            assert forall|i: int| 0 <= i < live(subs).len() implies (#[trigger] live(
                subs,
            )[i]).wf() by {
                if pred(tail) && i == live(subs).len() - 1 {
                    assert(subs[subs.len() - 1].wf());
                } else {
                    assert(live(head)[i].wf());
                }
            }
        }
    }
}

/// Removing one subscription: how id membership, distinctness and
/// well-formedness carry over.
proof fn lemma_remove_id_facts(subs: Seq<SubscriptionView>, m: int)
    requires
        0 <= m < subs.len(),
    ensures
        forall|id: u32|
            has_subscription(subs, id) <==> (subs[m].subscription_id == id || has_subscription(
                subs.remove(m),
                id,
            )),
        distinct_ids(subs) ==> distinct_ids(subs.remove(m)),
        all_wf(subs) ==> all_wf(subs.remove(m)),
        distinct_ids(subs) ==> !has_subscription(subs.remove(m), subs[m].subscription_id),
{
    let rest = subs.remove(m);
    assert forall|id: u32| has_subscription(rest, id) implies has_subscription(subs, id) by {
        let j = choose|j: int| 0 <= j < rest.len() && rest[j].subscription_id == id;
        if j < m {
            assert(subs[j].subscription_id == id);
        } else {
            assert(subs[j + 1].subscription_id == id);
        }
    }
    assert forall|id: u32|
        has_subscription(subs, id) && subs[m].subscription_id != id implies has_subscription(
        rest,
        id,
    ) by {
        let j = choose|j: int| 0 <= j < subs.len() && subs[j].subscription_id == id;
        if j < m {
            assert(rest[j].subscription_id == id);
        } else {
            assert(rest[j - 1].subscription_id == id);
        }
    }
    if distinct_ids(subs) {
        assert forall|a: int, b: int| 0 <= a < b < rest.len() implies #[trigger] rest[
            a
        ].subscription_id != #[trigger] rest[b].subscription_id by {
            let aa = if a < m { a } else { a + 1 };
            let bb = if b < m { b } else { b + 1 };
            assert(rest[a] == subs[aa] && rest[b] == subs[bb]);
            assert(subs[aa].subscription_id != subs[bb].subscription_id);
        }
        if has_subscription(rest, subs[m].subscription_id) {
            let j = choose|j: int|
                0 <= j < rest.len() && rest[j].subscription_id == subs[m].subscription_id;
            if j < m {
                assert(subs[j].subscription_id != subs[m].subscription_id);
            } else {
                assert(subs[m].subscription_id != subs[j + 1].subscription_id);
            }
        }
    }
    if all_wf(subs) {
        assert forall|i: int| 0 <= i < rest.len() implies (#[trigger] rest[i]).wf() by {
            if i < m {
                assert(subs[i].wf());
            } else {
                assert(subs[i + 1].wf());
            }
        }
    }
}

/// The minimal-priority index lies within range.
proof fn lemma_min_priority_upto_range(subs: Seq<SubscriptionView>, n: int)
    requires
        1 <= n,
    ensures
        0 <= min_priority_upto(subs, n) < n,
    decreases n,
{
    if n > 1 {
        lemma_min_priority_upto_range(subs, n - 1);
    }
}

/// The scheduling order is a rearrangement: same length, same id
/// membership, distinct ids and well-formedness carried over.
proof fn lemma_priority_order_facts(subs: Seq<SubscriptionView>)
    ensures
        priority_order(subs).len() == subs.len(),
        forall|id: u32|
            has_subscription(priority_order(subs), id) <==> has_subscription(subs, id),
        distinct_ids(subs) ==> distinct_ids(priority_order(subs)),
        all_wf(subs) ==> all_wf(priority_order(subs)),
    decreases subs.len(),
{
    if subs.len() > 0 {
        let m = min_priority_upto(subs, subs.len() as int);
        lemma_min_priority_upto_range(subs, subs.len() as int);
        let rest = subs.remove(m);
        lemma_remove_id_facts(subs, m);
        lemma_priority_order_facts(rest);
        let order = priority_order(subs);
        assert(order == seq![subs[m]] + priority_order(rest));
        assert forall|id: u32| has_subscription(order, id) implies has_subscription(subs, id) by {
            let i = choose|i: int| 0 <= i < order.len() && order[i].subscription_id == id;
            if i == 0 {
                assert(subs[m].subscription_id == id);
            } else {
                assert(priority_order(rest)[i - 1].subscription_id == id);
                assert(has_subscription(priority_order(rest), id));
                assert(has_subscription(rest, id));
            }
        }
        assert forall|id: u32| has_subscription(subs, id) implies has_subscription(order, id) by {
            if subs[m].subscription_id == id {
                assert(order[0].subscription_id == id);
            } else {
                assert(has_subscription(rest, id));
                assert(has_subscription(priority_order(rest), id));
                let i = choose|i: int|
                    0 <= i < priority_order(rest).len() && priority_order(
                        rest,
                    )[i].subscription_id == id;
                assert(order[i + 1].subscription_id == id);
            }
        }
        if distinct_ids(subs) {
            assert forall|a: int, b: int| 0 <= a < b < order.len() implies #[trigger] order[
                a
            ].subscription_id != #[trigger] order[b].subscription_id by {
                if a == 0 {
                    assert(order[b] == priority_order(rest)[b - 1]);
                    if order[b].subscription_id == subs[m].subscription_id {
                        assert(has_subscription(priority_order(rest), subs[m].subscription_id));
                        assert(has_subscription(rest, subs[m].subscription_id));
                    }
                } else {
                    assert(order[a] == priority_order(rest)[a - 1]);
                    assert(order[b] == priority_order(rest)[b - 1]);
                    assert(distinct_ids(priority_order(rest)));
                }
            }
        }
        if all_wf(subs) {
            assert forall|i: int| 0 <= i < order.len() implies (#[trigger] order[i]).wf() by {
                if i == 0 {
                    assert(subs[m].wf());
                } else {
                    assert(all_wf(priority_order(rest)));
                    assert(order[i] == priority_order(rest)[i - 1]);
                }
            }
        }
    }
}

/// Publishing preserves a subscription's well-formedness: the staged
/// notification that moves to the retransmission queue carries a sequence
/// number distinct from everything already there.
proof fn lemma_after_publish_wf(s: SubscriptionView, now: i64)
    requires
        s.wf(),
        s.pending.len() > 0,
    ensures
        s.after_publish(now).wf(),
{
    let t = s.after_publish(now);
    let message = s.published_message(now);
    assert forall|i: int, j: int|
        0 <= i < j < t.retransmission.len() implies #[trigger] t.retransmission[
        i
    ].sequence_number != #[trigger] t.retransmission[j].sequence_number by {
        if j == t.retransmission.len() - 1 {
            assert(t.retransmission[j] == message);
            assert(s.pending[0].sequence_number != s.retransmission[i].sequence_number);
        } else {
            assert(s.retransmission[i].sequence_number != s.retransmission[j].sequence_number);
        }
    }
    assert forall|i: int, j: int|
        0 <= i < t.pending.len() && 0 <= j < t.retransmission.len() implies #[trigger] t.pending[
        i
    ].sequence_number != #[trigger] t.retransmission[j].sequence_number by {
        assert(t.pending[i] == s.pending[i + 1]);
        if j == t.retransmission.len() - 1 {
            assert(s.pending[0].sequence_number != s.pending[i + 1].sequence_number);
        } else {
            assert(s.pending[i + 1].sequence_number != s.retransmission[j].sequence_number);
        }
    }
    assert forall|i: int, j: int|
        0 <= i < j < t.pending.len() implies #[trigger] t.pending[i].sequence_number
        != #[trigger] t.pending[j].sequence_number by {
        assert(s.pending[i + 1].sequence_number != s.pending[j + 1].sequence_number);
    }
    assert forall|i: int| 0 <= i < t.pending.len() implies #[trigger] t.pending[
        i
    ].sequence_number < t.next_sequence_number by {
        assert(t.pending[i] == s.pending[i + 1]);
    }
    assert forall|i: int| 0 <= i < t.retransmission.len() implies #[trigger] t.retransmission[
        i
    ].sequence_number < t.next_sequence_number by {
        if i == t.retransmission.len() - 1 {
            assert(s.pending[0].sequence_number < s.next_sequence_number);
        }
    }
}

/// The scheduling pass visits every subscription exactly once, in order:
/// its output list extends the input one with each subscription's successor
/// (published or untouched), keeping id, priority and state, and the
/// working queue never grows.
proof fn lemma_route_pass_frame(st: RouteState, subs: Seq<SubscriptionView>, now: i64)
    requires
        all_wf(subs),
    ensures
        route_pass(st, subs, now).done.len() == st.done.len() + subs.len(),
        forall|i: int|
            0 <= i < st.done.len() ==> #[trigger] route_pass(st, subs, now).done[i] == st.done[i],
        forall|i: int|
            0 <= i < subs.len() ==> {
                let d = #[trigger] route_pass(st, subs, now).done[st.done.len() + i];
                &&& d.subscription_id == subs[i].subscription_id
                &&& d.priority == subs[i].priority
                &&& d.state == subs[i].state
                &&& d.wf()
            },
        route_pass(st, subs, now).queue.len() <= st.queue.len(),
        route_pass(st, subs, now).handled.len() - st.handled.len() == route_pass(
            st,
            subs,
            now,
        ).staged.len() - st.staged.len(),
    decreases subs.len(),
{
    if subs.len() > 0 {
        let st1 = route_step(st, subs[0], now);
        if st.queue.len() > 0 && subs[0].ready_to_publish() {
            lemma_after_publish_wf(subs[0], now);
        }
        assert(all_wf(subs.drop_first()));
        lemma_route_pass_frame(st1, subs.drop_first(), now);
        assert forall|i: int|
            0 <= i < subs.len() implies {
            let d = #[trigger] route_pass(st, subs, now).done[st.done.len() + i];
            &&& d.subscription_id == subs[i].subscription_id
            &&& d.priority == subs[i].priority
            &&& d.state == subs[i].state
            &&& d.wf()
        } by {
            if i == 0 {
                assert(route_pass(st, subs, now).done[st.done.len() as int] == st1.done[st.done.len() as int]);
            } else {
                assert(subs.drop_first()[i - 1] == subs[i]);
                assert(route_pass(st1, subs.drop_first(), now).done[st1.done.len() + (i - 1)]
                    == route_pass(st, subs, now).done[st.done.len() + i]);
            }
        }
    }
}

/// Law: a scheduling pass consumes requests only from the oldest end of the
/// queue. The requests still unmatched afterwards are exactly the newest
/// ones, in their original order: FIFO order is preserved across ticks.
pub proof fn lemma_route_pass_queue_prefix(st: RouteState, subs: Seq<SubscriptionView>, now: i64)
    ensures
        route_pass(st, subs, now).queue.len() <= st.queue.len(),
        route_pass(st, subs, now).queue == st.queue.take(
            route_pass(st, subs, now).queue.len() as int,
        ),
    decreases subs.len(),
{
    if subs.len() == 0 {
        assert(st.queue.take(st.queue.len() as int) =~= st.queue);
    } else {
        let st1 = route_step(st, subs[0], now);
        lemma_route_pass_queue_prefix(st1, subs.drop_first(), now);
        let fin = route_pass(st, subs, now).queue;
        assert(fin == route_pass(st1, subs.drop_first(), now).queue);
        if st.queue.len() > 0 && subs[0].ready_to_publish() {
            assert(st1.queue =~= st.queue.take(st.queue.len() - 1));
        } else {
            assert(st1.queue =~= st.queue.take(st.queue.len() as int));
        }
        assert(fin =~= st.queue.take(fin.len() as int));
    }
}

/// The resolution pass only retires notifications: every subscription keeps
/// its position, id, priority and state, and one status-list option is
/// produced per handled request.
proof fn lemma_resolve_pass_frame(subs: Seq<SubscriptionView>, handled: Seq<PublishRequestEntry>)
    ensures
        resolve_pass(subs, handled).0.len() == subs.len(),
        resolve_pass(subs, handled).1.len() == handled.len(),
        forall|i: int|
            0 <= i < subs.len() ==> {
                let d = #[trigger] resolve_pass(subs, handled).0[i];
                &&& d.subscription_id == subs[i].subscription_id
                &&& d.priority == subs[i].priority
                &&& d.state == subs[i].state
            },
    decreases handled.len(),
{
    if handled.len() > 0 {
        let step_subs = match handled[0].request.subscription_acknowledgements {
            Option::<Vec<SubscriptionAcknowledgement>>::None => subs,
            Option::<Vec<SubscriptionAcknowledgement>>::Some(acknowledgements) => ack_list(
                subs,
                acknowledgements@,
            ).0,
        };
        match handled[0].request.subscription_acknowledgements {
            Option::<Vec<SubscriptionAcknowledgement>>::None => {},
            Option::<Vec<SubscriptionAcknowledgement>>::Some(acknowledgements) => {
                lemma_ack_list_frame(subs, acknowledgements@);
            },
        }
        lemma_resolve_pass_frame(step_subs, handled.drop_first());
    }
}

/// The subscription manager for one session.
pub struct Subscriptions {
    /// Timeout period for queued requests, in milliseconds, applied when a
    /// request's own hint is absent, zero, or no smaller.
    pub publish_request_timeout: i64,
    /// Subscriptions associated with the session, in insertion order; ids are
    /// pairwise distinct.
    pub subscriptions: Vec<Subscription>,
    /// Maximum number of queued publish requests.
    pub max_publish_requests: usize,
    /// The publish request queue: newest entries at the front, the oldest at
    /// the back, where dequeuing and eviction happen.
    pub publish_request_queue: VecDeque<PublishRequestEntry>,
    /// The publish response queue; this manager only appends, the transport
    /// layer drains it.
    pub publish_response_queue: Vec<PublishResponseEntry>,
}

impl Subscriptions {
    /// The mathematical values of the owned subscriptions, in storage order.
    pub open spec fn subs(self) -> Seq<SubscriptionView> {
        views_of(self.subscriptions@)
    }

    /// Invariant: the request queue respects the capacity bound, the default
    /// timeout is a duration, subscription ids are distinct and every
    /// subscription is well-formed.
    pub open spec fn wf(self) -> bool {
        &&& self.publish_request_queue@.len() <= self.max_publish_requests
        &&& self.publish_request_timeout >= 0
        &&& distinct_ids(self.subs())
        &&& all_wf(self.subs())
    }

    /// A fresh manager with fixed capacity and default timeout and no
    /// subscriptions or queued entries.
    pub fn new(max_publish_requests: usize, publish_request_timeout: i64) -> (r: Subscriptions)
        requires
            publish_request_timeout >= 0,
        ensures
            r.wf(),
            r.max_publish_requests == max_publish_requests,
            r.publish_request_timeout == publish_request_timeout,
            r.subs() == Seq::<SubscriptionView>::empty(),
            r.publish_request_queue@ == Seq::<PublishRequestEntry>::empty(),
            r.publish_response_queue@ == Seq::<PublishResponseEntry>::empty(),
    {
        let r = Subscriptions {
            publish_request_timeout,
            subscriptions: Vec::new(),
            max_publish_requests,
            publish_request_queue: VecDeque::with_capacity(max_publish_requests),
            publish_response_queue: Vec::new(),
        };
        proof {
            assert(r.subs() =~= Seq::<SubscriptionView>::empty());
        }
        r
    }

    /// Places a new publish request at the head of the queue. If the queue is
    /// already at capacity, the oldest entry is evicted to make room and the
    /// call reports the overflow to the caller; the evicted entry is
    /// discarded, not delivered anywhere.
    pub fn enqueue_publish_request(&mut self, request_id: u32, request: PublishRequest) -> (r:
        Result<(), StatusCode>)
        requires
            old(self).wf(),
        ensures
            final(self).wf(),
            final(self).subscriptions@ == old(self).subscriptions@,
            final(self).publish_response_queue@ == old(self).publish_response_queue@,
            final(self).max_publish_requests == old(self).max_publish_requests,
            final(self).publish_request_timeout == old(self).publish_request_timeout,
            ({
                let entry = PublishRequestEntry { request_id, request };
                let grown = seq![entry] + old(self).publish_request_queue@;
                if old(self).publish_request_queue@.len() < old(self).max_publish_requests {
                    r == Ok::<(), StatusCode>(()) && final(self).publish_request_queue@ == grown
                } else {
                    r == Err::<(), StatusCode>(StatusCode::BadTooManyPublishRequests)
                        && final(self).publish_request_queue@ == grown.take(
                        old(self).max_publish_requests as int,
                    )
                }
            }),
    {
        let ghost entry_spec = PublishRequestEntry { request_id, request };
        self.publish_request_queue.push_front(PublishRequestEntry { request_id, request });
        proof {
            assert(self.publish_request_queue@ =~= seq![entry_spec]
                + old(self).publish_request_queue@);
        }
        if self.publish_request_queue.len() > self.max_publish_requests {
            let _ = self.publish_request_queue.pop_back();
            proof {
                assert(self.publish_request_queue@ =~= (seq![entry_spec]
                    + old(self).publish_request_queue@).take(
                    old(self).max_publish_requests as int,
                ));
            }
            Err(StatusCode::BadTooManyPublishRequests)
        } else {
            Ok(())
        }
    }

    /// Removes and returns the oldest queued publish request.
    pub fn dequeue_publish_request(&mut self) -> (r: Option<PublishRequestEntry>)
        requires
            old(self).wf(),
        ensures
            final(self).wf(),
            final(self).subscriptions@ == old(self).subscriptions@,
            final(self).publish_response_queue@ == old(self).publish_response_queue@,
            final(self).max_publish_requests == old(self).max_publish_requests,
            final(self).publish_request_timeout == old(self).publish_request_timeout,
            old(self).publish_request_queue@.len() > 0 ==> r == Some(
                old(self).publish_request_queue@.last(),
            ) && final(self).publish_request_queue@ == old(self).publish_request_queue@.drop_last(),
            old(self).publish_request_queue@.len() == 0 ==> r is None && final(self).publish_request_queue@ == old(self).publish_request_queue@,
    {
        self.publish_request_queue.pop_back()
    }

    /// Whether the session currently owns no subscriptions.
    pub fn is_empty(&self) -> (r: bool)
        ensures
            r == (self.subs().len() == 0),
    {
        self.subscriptions.is_empty()
    }

    /// The number of subscriptions owned by the session.
    pub fn len(&self) -> (r: usize)
        ensures
            r == self.subs().len(),
    {
        self.subscriptions.len()
    }

    /// The storage index of the subscription with the given id, if present.
    fn find_subscription_index(&self, subscription_id: u32) -> (r: Option<usize>)
        requires
            self.wf(),
        ensures
            r is Some ==> {
                &&& has_subscription(self.subs(), subscription_id)
                &&& r->Some_0 < self.subs().len()
                &&& r->Some_0 as int == subscription_index(self.subs(), subscription_id)
            },
            r is None ==> !has_subscription(self.subs(), subscription_id),
    {
        let n = self.subscriptions.len();
        let mut i: usize = 0;
        while i < n
            invariant
                self.wf(),
                n == self.subs().len(),
                0 <= i <= n,
                forall|j: int| 0 <= j < i ==> self.subs()[j].subscription_id != subscription_id,
            decreases n - i,
        {
            if self.subscriptions[i].subscription_id == subscription_id {
                proof {
                    assert(self.subs()[i as int].subscription_id == subscription_id);
                    assert(has_subscription(self.subs(), subscription_id));
                    let k = subscription_index(self.subs(), subscription_id);
                    assert(0 <= k < self.subs().len() && self.subs()[k].subscription_id
                        == subscription_id);
                    if k < i as int {
                        assert(self.subs()[k].subscription_id != subscription_id);
                    } else if k > i as int {
                        assert(self.subs()[i as int].subscription_id
                            != self.subs()[k].subscription_id);
                    }
                    assert(k == i as int);
                }
                return Some(i);
            }
            i = i + 1;
        }
        None
    }

    /// Whether a subscription with the given id exists.
    pub fn contains(&self, subscription_id: u32) -> (r: bool)
        requires
            self.wf(),
        ensures
            r == has_subscription(self.subs(), subscription_id),
    {
        self.find_subscription_index(subscription_id).is_some()
    }

    /// Adds a subscription, or replaces (and drops) the one already
    /// carrying its id.
    pub fn insert(&mut self, subscription_id: u32, subscription: Subscription)
        requires
            old(self).wf(),
            subscription.wf(),
            subscription.subscription_id == subscription_id,
        ensures
            final(self).wf(),
            final(self).publish_request_queue@ == old(self).publish_request_queue@,
            final(self).publish_response_queue@ == old(self).publish_response_queue@,
            final(self).max_publish_requests == old(self).max_publish_requests,
            final(self).publish_request_timeout == old(self).publish_request_timeout,
            has_subscription(old(self).subs(), subscription_id) ==> final(self).subs() == old(
                self,
            ).subs().update(
                subscription_index(old(self).subs(), subscription_id),
                subscription@,
            ),
            !has_subscription(old(self).subs(), subscription_id) ==> final(self).subs() == old(
                self,
            ).subs().push(subscription@),
    {
        match self.find_subscription_index(subscription_id) {
            Some(i) => {
                let _ = self.subscriptions.remove(i);
                self.subscriptions.insert(i, subscription);
                proof {
                    assert(self.subs() =~= old(self).subs().update(i as int, subscription@));
                }
            },
            None => {
                self.subscriptions.push(subscription);
                proof {
                    assert(self.subs() =~= old(self).subs().push(subscription@));
                    assert forall|id: u32|
                        has_subscription(old(self).subs(), id) implies has_subscription(
                        self.subs(),
                        id,
                    ) by {
                        let w = subscription_index(old(self).subs(), id);
                        assert(self.subs()[w].subscription_id == id);
                    }
                }
            },
        }
    }

    /// Removes and returns the subscription with the given id, if present.
    pub fn remove(&mut self, subscription_id: u32) -> (r: Option<Subscription>)
        requires
            old(self).wf(),
        ensures
            final(self).wf(),
            final(self).publish_request_queue@ == old(self).publish_request_queue@,
            final(self).publish_response_queue@ == old(self).publish_response_queue@,
            final(self).max_publish_requests == old(self).max_publish_requests,
            final(self).publish_request_timeout == old(self).publish_request_timeout,
            has_subscription(old(self).subs(), subscription_id) ==> {
                &&& r is Some
                &&& r->Some_0@ == old(self).subs()[subscription_index(
                    old(self).subs(),
                    subscription_id,
                )]
                &&& final(self).subs() == old(self).subs().remove(
                    subscription_index(old(self).subs(), subscription_id),
                )
            },
            !has_subscription(old(self).subs(), subscription_id) ==> r is None && final(self).subs() == old(self).subs(),
    {
        match self.find_subscription_index(subscription_id) {
            Some(i) => {
                let removed = self.subscriptions.remove(i);
                proof {
                    assert(self.subs() =~= old(self).subs().remove(i as int));
                }
                Some(removed)
            },
            None => None,
        }
    }

    /// A shared borrow of the subscription with the given id, if present.
    pub fn get(&self, subscription_id: u32) -> (r: Option<&Subscription>)
        requires
            self.wf(),
        ensures
            has_subscription(self.subs(), subscription_id) ==> r is Some && r->Some_0@
                == self.subs()[subscription_index(self.subs(), subscription_id)],
            !has_subscription(self.subs(), subscription_id) ==> r is None,
    {
        match self.find_subscription_index(subscription_id) {
            Some(i) => Some(&self.subscriptions[i]),
            None => None,
        }
    }

    /// Iterates through the queued publish requests, removes every expired
    /// one and appends a timeout fault response for it to the response
    /// queue. Requests not yet expired remain, preserving relative order.
    pub fn expire_stale_publish_requests(&mut self, now: i64)
        requires
            old(self).wf(),
        ensures
            final(self).wf(),
            final(self).subscriptions@ == old(self).subscriptions@,
            final(self).max_publish_requests == old(self).max_publish_requests,
            final(self).publish_request_timeout == old(self).publish_request_timeout,
            final(self).publish_request_queue@ == surviving(
                old(self).publish_request_queue@,
                now,
                old(self).publish_request_timeout,
            ),
            final(self).publish_response_queue@ == old(self).publish_response_queue@
                + expired_faults(
                old(self).publish_request_queue@,
                now,
                old(self).publish_request_timeout,
            ),
    {
        let ghost q0 = self.publish_request_queue@;
        let ghost default_timeout = self.publish_request_timeout;
        let mut kept: VecDeque<PublishRequestEntry> = VecDeque::new();
        let mut faults: Vec<PublishResponseEntry> = Vec::new();
        let ghost mut processed: int = 0;
        while self.publish_request_queue.len() > 0
            invariant
                old(self).wf(),
                self.subscriptions@ == old(self).subscriptions@,
                self.publish_response_queue@ == old(self).publish_response_queue@,
                self.max_publish_requests == old(self).max_publish_requests,
                self.publish_request_timeout == old(self).publish_request_timeout,
                0 <= processed <= q0.len(),
                self.publish_request_queue@ == q0.subrange(processed, q0.len() as int),
                kept@ == surviving(q0.take(processed), now, default_timeout),
                faults@ == expired_faults(q0.take(processed), now, default_timeout),
                default_timeout == old(self).publish_request_timeout,
            decreases self.publish_request_queue@.len(),
        {
            let popped = self.publish_request_queue.pop_front();
            if let Some(entry) = popped {
                proof {
                    assert(q0.subrange(processed, q0.len() as int).first() == q0[processed]);
                    assert(self.publish_request_queue@ =~= q0.subrange(
                        processed + 1,
                        q0.len() as int,
                    ));
                }
                let header = entry.request.request_header;
                let timeout: i64 = if header.timeout_hint > 0 && (header.timeout_hint as i64)
                    < self.publish_request_timeout {
                    header.timeout_hint as i64
                } else {
                    self.publish_request_timeout
                };
                let expired = match header.timestamp.checked_add(timeout) {
                    Some(expiration_time) => now >= expiration_time,
                    None => false,
                };
                proof {
                    assert(timeout as int == effective_timeout(
                        entry.request.request_header,
                        default_timeout,
                    ));
                    assert(expired == is_expired(entry, now, default_timeout));
                    assert(q0.take(processed + 1) =~= q0.take(processed).push(entry));
                    lemma_expiry_step(q0.take(processed), entry, now, default_timeout);
                }
                if expired {
                    faults.push(
                        PublishResponseEntry {
                            request_id: entry.request_id,
                            response: SupportedMessage::ServiceFault(
                                ServiceFault {
                                    response_header: ResponseHeader {
                                        timestamp: now,
                                        request_handle: header.request_handle,
                                        service_result: StatusCode::BadTimeout,
                                    },
                                },
                            ),
                        },
                    );
                } else {
                    kept.push_back(entry);
                }
                proof {
                    processed = processed + 1;
                }
            }
        }
        proof {
            assert(q0.take(q0.len() as int) =~= q0);
        }
        self.publish_request_queue = kept;
        self.publish_response_queue.append(&mut faults);
    }

    /// The first index of minimal priority value in a non-empty list.
    fn index_of_min_priority(subs: &Vec<Subscription>) -> (r: usize)
        requires
            subs@.len() > 0,
        ensures
            r < subs@.len(),
            r as int == min_priority_upto(views_of(subs@), subs@.len() as int),
    {
        let n = subs.len();
        let mut best: usize = 0;
        let mut i: usize = 1;
        while i < n
            invariant
                n == subs@.len(),
                n > 0,
                1 <= i <= n,
                best < i,
                best as int == min_priority_upto(views_of(subs@), i as int),
            decreases n - i,
        {
            if subs[i].priority < subs[best].priority {
                best = i;
            }
            i = i + 1;
        }
        best
    }

    /// One scheduling pass. Closed subscriptions are removed; the rest are
    /// visited in ascending priority order, each taking the oldest available
    /// request and publishing against it when it has a staged notification,
    /// or returning the request to the queue for the next subscription.
    /// Afterwards, each consumed request's acknowledgements are resolved and
    /// the status list is attached to its response; the responses are
    /// appended to the outbound queue in processing order.
    #[verifier::rlimit(100)]
    pub fn tick(&mut self, data_source: &DataSource, reason: TickReason, now: i64) -> (r: Result<
        (),
        StatusCode,
    >)
        requires
            old(self).wf(),
        ensures
            r == Ok::<(), StatusCode>(()),
            final(self).wf(),
            final(self).max_publish_requests == old(self).max_publish_requests,
            final(self).publish_request_timeout == old(self).publish_request_timeout,
            ({
                let routed = route_pass(
                    RouteState {
                        done: Seq::<SubscriptionView>::empty(),
                        queue: old(self).publish_request_queue@,
                        handled: Seq::<PublishRequestEntry>::empty(),
                        staged: Seq::<PublishResponseEntry>::empty(),
                    },
                    priority_order(live(old(self).subs())),
                    now,
                );
                let resolved = resolve_pass(routed.done, routed.handled);
                &&& final(self).subs() == resolved.0
                &&& final(self).publish_request_queue@ == routed.queue
                &&& final(self).publish_response_queue@.len() == old(self).publish_response_queue@.len() + routed.staged.len()
                &&& (forall|j: int|
                    0 <= j < old(self).publish_response_queue@.len() ==> final(self).publish_response_queue@[j] == old(self).publish_response_queue@[j])
                &&& (forall|j: int|
                    0 <= j < routed.staged.len() ==> with_results(
                        routed.staged[j],
                        resolved.1[j],
                        final(self).publish_response_queue@[old(self).publish_response_queue@.len() + j],
                    ))
            }),
            forall|id: u32|
                #[trigger] has_subscription(final(self).subs(), id) <==> (has_subscription(
                    old(self).subs(),
                    id,
                ) && old(self).subs()[subscription_index(old(self).subs(), id)].state
                    != SubscriptionState::Closed),
            final(self).publish_request_queue@ == old(self).publish_request_queue@.take(
                final(self).publish_request_queue@.len() as int,
            ),
    {
        let ghost subs0 = self.subs();
        let ghost q0 = self.publish_request_queue@;
        let ghost resp0 = self.publish_response_queue@;

        // Remove closed subscriptions: lazy garbage collection.
        let mut live_subs: Vec<Subscription> = Vec::new();
        let ghost mut scanned: int = 0;
        proof {
            assert(views_of(self.subscriptions@) =~= subs0.subrange(0, subs0.len() as int));
            assert(views_of(live_subs@) =~= live(subs0.take(0)));
            reveal(Seq::filter);
            assert(subs0.take(0) =~= Seq::<SubscriptionView>::empty());
        }
        while self.subscriptions.len() > 0
            invariant
                old(self).wf(),
                self.publish_request_queue@ == q0,
                self.publish_response_queue@ == resp0,
                self.max_publish_requests == old(self).max_publish_requests,
                self.publish_request_timeout == old(self).publish_request_timeout,
                0 <= scanned <= subs0.len(),
                self.subscriptions@.len() + scanned == subs0.len(),
                views_of(self.subscriptions@) == subs0.subrange(scanned, subs0.len() as int),
                views_of(live_subs@) == live(subs0.take(scanned)),
            decreases self.subscriptions@.len(),
        {
            let ghost pre_vec = self.subscriptions@;
            let s = self.subscriptions.remove(0);
            proof {
                reveal(Seq::filter);
                assert(scanned < subs0.len());
                assert(views_of(pre_vec) == subs0.subrange(scanned, subs0.len() as int));
                assert(views_of(pre_vec)[0] == pre_vec[0]@);
                assert(subs0.subrange(scanned, subs0.len() as int)[0] == s@);
                assert forall|i: int|
                    0 <= i < self.subscriptions@.len() implies #[trigger] views_of(
                    self.subscriptions@,
                )[i] == subs0.subrange(scanned + 1, subs0.len() as int)[i] by {
                    assert(self.subscriptions@[i] == pre_vec[i + 1]);
                    assert(views_of(pre_vec)[i + 1] == pre_vec[i + 1]@);
                    assert(views_of(pre_vec)[i + 1] == subs0.subrange(
                        scanned,
                        subs0.len() as int,
                    )[i + 1]);
                }
                assert(views_of(self.subscriptions@) =~= subs0.subrange(
                    scanned + 1,
                    subs0.len() as int,
                ));
                assert(subs0.take(scanned + 1).drop_last() =~= subs0.take(scanned));
                assert(subs0.take(scanned + 1).last() == s@);
            }
            if s.state != SubscriptionState::Closed {
                live_subs.push(s);
                proof {
                    assert(views_of(live_subs@) =~= live(subs0.take(scanned)).push(s@));
                    assert(views_of(live_subs@) =~= live(subs0.take(scanned + 1)));
                }
            } else {
                proof {
                    assert(views_of(live_subs@) =~= live(subs0.take(scanned + 1)));
                }
            }
            proof {
                scanned = scanned + 1;
            }
        }
        proof {
            assert(subs0.take(subs0.len() as int) =~= subs0);
        }
        let ghost live_all = live(subs0);

        // Sort the remaining subscriptions by ascending priority, ties
        // keeping insertion order.
        let mut sorted_subs: Vec<Subscription> = Vec::new();
        proof {
            assert(views_of(sorted_subs@) =~= Seq::<SubscriptionView>::empty());
            assert(views_of(sorted_subs@) + priority_order(views_of(live_subs@)) =~= priority_order(
                live_all,
            ));
        }
        while live_subs.len() > 0
            invariant
                old(self).wf(),
                self.publish_request_queue@ == q0,
                self.publish_response_queue@ == resp0,
                self.max_publish_requests == old(self).max_publish_requests,
                self.publish_request_timeout == old(self).publish_request_timeout,
                self.subscriptions@.len() == 0,
                views_of(sorted_subs@) + priority_order(views_of(live_subs@)) == priority_order(
                    live_all,
                ),
            decreases live_subs@.len(),
        {
            let ghost views_pre = views_of(live_subs@);
            let ghost sorted_pre = views_of(sorted_subs@);
            let m = Self::index_of_min_priority(&live_subs);
            let s = live_subs.remove(m);
            sorted_subs.push(s);
            proof {
                assert(s@ == views_pre[m as int]);
                assert(views_of(live_subs@) =~= views_pre.remove(m as int));
                assert(views_of(sorted_subs@) =~= sorted_pre.push(views_pre[m as int]));
                assert(priority_order(views_pre) == seq![views_pre[m as int]] + priority_order(
                    views_pre.remove(m as int),
                ));
                assert(sorted_pre.push(views_pre[m as int]) + priority_order(
                    views_pre.remove(m as int),
                ) =~= sorted_pre + priority_order(views_pre));
            }
        }
        let ghost order_all = priority_order(live_all);
        proof {
            assert(priority_order(views_of(live_subs@)) == Seq::<SubscriptionView>::empty());
            assert(views_of(sorted_subs@) + Seq::<SubscriptionView>::empty() =~= views_of(
                sorted_subs@,
            ));
            assert(views_of(sorted_subs@) == order_all);
            lemma_live_facts(subs0);
            lemma_priority_order_facts(live_all);
        }
        let ghost st0 = RouteState {
            done: Seq::<SubscriptionView>::empty(),
            queue: q0,
            handled: Seq::<PublishRequestEntry>::empty(),
            staged: Seq::<PublishResponseEntry>::empty(),
        };
        let ghost target = route_pass(st0, order_all, now);

        // Visit the subscriptions in order, matching requests to
        // publications.
        let mut done_subs: Vec<Subscription> = Vec::new();
        let mut handled: Vec<PublishRequestEntry> = Vec::new();
        let mut staged: Vec<PublishResponseEntry> = Vec::new();
        proof {
            assert(views_of(done_subs@) =~= Seq::<SubscriptionView>::empty());
            assert(handled@ =~= Seq::<PublishRequestEntry>::empty());
            assert(staged@ =~= Seq::<PublishResponseEntry>::empty());
            assert(RouteState {
                done: views_of(done_subs@),
                queue: self.publish_request_queue@,
                handled: handled@,
                staged: staged@,
            } == st0);
        }
        while sorted_subs.len() > 0
            invariant
                old(self).wf(),
                self.publish_response_queue@ == resp0,
                self.max_publish_requests == old(self).max_publish_requests,
                self.publish_request_timeout == old(self).publish_request_timeout,
                self.subscriptions@.len() == 0,
                self.publish_request_queue@.len() <= q0.len(),
                all_wf(views_of(sorted_subs@)),
                target == route_pass(st0, order_all, now),
                route_pass(
                    RouteState {
                        done: views_of(done_subs@),
                        queue: self.publish_request_queue@,
                        handled: handled@,
                        staged: staged@,
                    },
                    views_of(sorted_subs@),
                    now,
                ) == target,
            decreases sorted_subs@.len(),
        {
            let ghost st_pre = RouteState {
                done: views_of(done_subs@),
                queue: self.publish_request_queue@,
                handled: handled@,
                staged: staged@,
            };
            let ghost views_pre = views_of(sorted_subs@);
            let mut s = sorted_subs.remove(0);
            proof {
                assert(s@ == views_pre[0]);
                assert(views_of(sorted_subs@) =~= views_pre.drop_first());
                assert(all_wf(views_of(sorted_subs@)));
                assert(s@.wf());
            }
            let publish_request = self.publish_request_queue.pop_back();
            let more_requests_queued = self.publish_request_queue.len() > 0;
            let response = s.tick(data_source, reason, &publish_request, more_requests_queued, now);
            match response {
                Some(resp) => {
                    match publish_request {
                        Some(req) => {
                            staged.push(resp);
                            handled.push(req);
                        },
                        None => {},
                    }
                },
                None => {
                    match publish_request {
                        Some(req) => {
                            self.publish_request_queue.push_back(req);
                            proof {
                                assert(self.publish_request_queue@ =~= st_pre.queue);
                            }
                        },
                        None => {},
                    }
                },
            }
            done_subs.push(s);
            proof {
                let st_now = RouteState {
                    done: views_of(done_subs@),
                    queue: self.publish_request_queue@,
                    handled: handled@,
                    staged: staged@,
                };
                if st_pre.queue.len() > 0 && views_pre[0].ready_to_publish() {
                    assert(views_of(done_subs@) =~= st_pre.done.push(
                        views_pre[0].after_publish(now),
                    ));
                    assert(handled@ =~= st_pre.handled.push(st_pre.queue.last()));
                    assert(staged@ =~= st_pre.staged.push(
                        views_pre[0].publish_response_entry(st_pre.queue.last(), now),
                    ));
                    assert(st_now == route_step(st_pre, views_pre[0], now));
                } else {
                    assert(views_of(done_subs@) =~= st_pre.done.push(views_pre[0]));
                    assert(st_now == route_step(st_pre, views_pre[0], now));
                }
                assert(route_pass(st_pre, views_pre, now) == route_pass(
                    st_now,
                    views_pre.drop_first(),
                    now,
                ));
            }
        }
        proof {
            assert(views_of(sorted_subs@) =~= Seq::<SubscriptionView>::empty());
            assert(route_pass(
                RouteState {
                    done: views_of(done_subs@),
                    queue: self.publish_request_queue@,
                    handled: handled@,
                    staged: staged@,
                },
                views_of(sorted_subs@),
                now,
            ) == RouteState {
                done: views_of(done_subs@),
                queue: self.publish_request_queue@,
                handled: handled@,
                staged: staged@,
            });
            assert(views_of(done_subs@) == target.done);
            assert(handled@ == target.handled);
            assert(staged@ == target.staged);
        }
        self.subscriptions = done_subs;

        // Resolve each consumed request's acknowledgements and attach the
        // status list to its response.
        let ghost resolved_target = resolve_pass(target.done, target.handled);
        proof {
            lemma_route_pass_frame(st0, order_all, now);
            lemma_resolve_pass_frame(target.done, target.handled);
            assert forall|i: int|
                0 <= i < order_all.len() implies target.done[i].subscription_id == order_all[
                i
            ].subscription_id && (#[trigger] target.done[i]).wf() by {
                assert(route_pass(st0, order_all, now).done[st0.done.len() + i] == target.done[
                    i
                ]);
            }
            assert(distinct_ids(target.done)) by {
                assert forall|a: int, b: int|
                    0 <= a < b < target.done.len() implies #[trigger] target.done[
                    a
                ].subscription_id != #[trigger] target.done[b].subscription_id by {
                    assert(order_all[a].subscription_id != order_all[b].subscription_id);
                }
            }
            assert(all_wf(target.done));
            assert(self.wf());
        }
        let n_handled = handled.len();
        let mut out: Vec<PublishResponseEntry> = Vec::new();
        let mut k: usize = 0;
        let ghost mut opts: Seq<Option<Seq<StatusCode>>> = Seq::empty();
        proof {
            assert(staged@ =~= target.staged.subrange(0, n_handled as int));
            assert(handled@.subrange(0, n_handled as int) =~= handled@);
            assert(opts + resolve_pass(self.subs(), handled@.subrange(0, n_handled as int)).1
                =~= resolve_pass(self.subs(), handled@).1);
        }
        while k < n_handled
            invariant
                self.wf(),
                n_handled == handled@.len(),
                n_handled == target.staged.len(),
                handled@ == target.handled,
                0 <= k <= n_handled,
                out@.len() == k,
                opts.len() == k,
                self.publish_request_queue@ == target.queue,
                self.publish_response_queue@ == resp0,
                self.max_publish_requests == old(self).max_publish_requests,
                self.publish_request_timeout == old(self).publish_request_timeout,
                staged@ == target.staged.subrange(k as int, n_handled as int),
                resolved_target == resolve_pass(target.done, target.handled),
                resolve_pass(self.subs(), handled@.subrange(k as int, n_handled as int)).0
                    == resolved_target.0,
                opts + resolve_pass(self.subs(), handled@.subrange(k as int, n_handled as int)).1
                    == resolved_target.1,
                forall|j: int|
                    0 <= j < k ==> with_results(target.staged[j], opts[j], #[trigger] out@[j]),
            decreases n_handled - k,
        {
            let ghost pre_subs = self.subs();
            let ghost opts_pre = opts;
            let ghost rest_handled = handled@.subrange(k as int, n_handled as int);
            proof {
                assert(rest_handled[0] == handled@[k as int]);
                assert(rest_handled.drop_first() =~= handled@.subrange(
                    k + 1,
                    n_handled as int,
                ));
            }
            let results = self.process_subscription_acknowledgements(&handled[k].request);
            let ghost results_view = if results is Some {
                Option::<Seq<StatusCode>>::Some(results->Some_0@)
            } else {
                Option::<Seq<StatusCode>>::None
            };
            proof {
                assert(resolve_pass(pre_subs, rest_handled).0 == resolve_pass(
                    self.subs(),
                    rest_handled.drop_first(),
                ).0);
                assert(resolve_pass(pre_subs, rest_handled).1 == seq![results_view]
                    + resolve_pass(self.subs(), rest_handled.drop_first()).1);
                opts = opts.push(results_view);
                assert(opts + resolve_pass(self.subs(), rest_handled.drop_first()).1
                    =~= opts_pre + resolve_pass(pre_subs, rest_handled).1);
            }
            let entry = staged.remove(0);
            proof {
                assert(entry == target.staged[k as int]);
                assert(staged@ =~= target.staged.subrange(k + 1, n_handled as int));
            }
            let request_id = entry.request_id;
            let resolved_entry = match entry.response {
                SupportedMessage::PublishResponse(publish_response) => PublishResponseEntry {
                    request_id,
                    response: SupportedMessage::PublishResponse(
                        PublishResponse { results, ..publish_response },
                    ),
                },
                SupportedMessage::ServiceFault(fault) => PublishResponseEntry {
                    request_id,
                    response: SupportedMessage::ServiceFault(fault),
                },
            };
            proof {
                assert(with_results(target.staged[k as int], results_view, resolved_entry));
            }
            out.push(resolved_entry);
            k = k + 1;
        }
        proof {
            assert(handled@.subrange(n_handled as int, n_handled as int) =~= Seq::<
                PublishRequestEntry,
            >::empty());
            assert(self.subs() == resolved_target.0);
            assert(opts + Seq::<Option<Seq<StatusCode>>>::empty() =~= opts);
            assert(opts == resolved_target.1);
        }
        self.publish_response_queue.append(&mut out);
        proof {
            lemma_route_pass_queue_prefix(st0, order_all, now);
            lemma_live_facts(subs0);
            lemma_priority_order_facts(live_all);
            lemma_route_pass_frame(st0, order_all, now);
            lemma_resolve_pass_frame(target.done, target.handled);
            assert forall|i: int|
                0 <= i < order_all.len() implies (#[trigger] target.done[i]).subscription_id
                == order_all[i].subscription_id by {
                assert(route_pass(st0, order_all, now).done[st0.done.len() + i] == target.done[
                    i
                ]);
            }
            assert forall|id: u32|
                #[trigger] has_subscription(self.subs(), id) <==> (has_subscription(subs0, id)
                    && subs0[subscription_index(subs0, id)].state != SubscriptionState::Closed) by {
                assert(has_subscription(self.subs(), id) <==> has_subscription(
                    target.done,
                    id,
                )) by {
                    if has_subscription(self.subs(), id) {
                        let i = choose|i: int|
                            0 <= i < self.subs().len() && self.subs()[i].subscription_id == id;
                        assert(target.done[i].subscription_id == id);
                    }
                    if has_subscription(target.done, id) {
                        let i = choose|i: int|
                            0 <= i < target.done.len() && target.done[i].subscription_id == id;
                        assert(self.subs()[i].subscription_id == id);
                    }
                }
                assert(has_subscription(target.done, id) <==> has_subscription(
                    order_all,
                    id,
                )) by {
                    if has_subscription(target.done, id) {
                        let i = choose|i: int|
                            0 <= i < target.done.len() && target.done[i].subscription_id == id;
                        assert(order_all[i].subscription_id == id);
                    }
                    if has_subscription(order_all, id) {
                        let i = choose|i: int|
                            0 <= i < order_all.len() && order_all[i].subscription_id == id;
                        assert(target.done[i].subscription_id == id);
                    }
                }
                assert(has_subscription(order_all, id) <==> has_subscription(live_all, id));
                if has_subscription(live_all, id) {
                    assert(exists|j: int|
                        0 <= j < subs0.len() && subs0[j].subscription_id == id && subs0[j].state
                            != SubscriptionState::Closed);
                    let j = choose|j: int|
                        0 <= j < subs0.len() && subs0[j].subscription_id == id && subs0[j].state
                            != SubscriptionState::Closed;
                    assert(has_subscription(subs0, id));
                    let w = subscription_index(subs0, id);
                    assert(0 <= w < subs0.len() && subs0[w].subscription_id == id);
                    if w != j {
                        assert(subs0[if w < j {
                            w
                        } else {
                            j
                        }].subscription_id != subs0[if w < j {
                            j
                        } else {
                            w
                        }].subscription_id);
                    }
                    assert(subs0[w].state != SubscriptionState::Closed);
                }
                if has_subscription(subs0, id) && subs0[subscription_index(subs0, id)].state
                    != SubscriptionState::Closed {
                    let w = subscription_index(subs0, id);
                    assert(0 <= w < subs0.len() && subs0[w].subscription_id == id);
                    assert(has_subscription(live_all, id));
                }
            }
        }
        Ok(())
    }

    /// Resolves the acknowledgements embedded in a request against each
    /// named subscription's retransmission queue. Absent acknowledgements
    /// yield no status list; otherwise one status per acknowledgement, in
    /// the same order: `Good` for a retired notification,
    /// `BadSubscriptionIdInvalid` for an unknown subscription and
    /// `BadSequenceNumberUnknown` for a sequence number not held.
    pub fn process_subscription_acknowledgements(&mut self, request: &PublishRequest) -> (r: Option<
        Vec<StatusCode>,
    >)
        requires
            old(self).wf(),
        ensures
            final(self).wf(),
            final(self).publish_request_queue@ == old(self).publish_request_queue@,
            final(self).publish_response_queue@ == old(self).publish_response_queue@,
            final(self).max_publish_requests == old(self).max_publish_requests,
            final(self).publish_request_timeout == old(self).publish_request_timeout,
            request.subscription_acknowledgements is None ==> r is None && final(self).subs()
                == old(self).subs(),
            request.subscription_acknowledgements is Some ==> {
                let acks = request.subscription_acknowledgements->Some_0@;
                &&& r is Some
                &&& r->Some_0@ == ack_list(old(self).subs(), acks).1
                &&& final(self).subs() == ack_list(old(self).subs(), acks).0
            },
    {
        match &request.subscription_acknowledgements {
            None => None,
            Some(acknowledgements) => {
                let ghost subs0 = self.subs();
                let ghost acks_all = acknowledgements@;
                let ghost target = ack_list(subs0, acks_all);
                let mut results: Vec<StatusCode> = Vec::new();
                let n = acknowledgements.len();
                let mut idx: usize = 0;
                proof {
                    assert(acks_all.subrange(0, n as int) =~= acks_all);
                }
                while idx < n
                    invariant
                        self.wf(),
                        acknowledgements@ == acks_all,
                        n == acks_all.len(),
                        0 <= idx <= n,
                        results@.len() == idx,
                        self.publish_request_queue@ == old(self).publish_request_queue@,
                        self.publish_response_queue@ == old(self).publish_response_queue@,
                        self.max_publish_requests == old(self).max_publish_requests,
                        self.publish_request_timeout == old(self).publish_request_timeout,
                        target == ack_list(subs0, acks_all),
                        ack_list(self.subs(), acks_all.subrange(idx as int, n as int)).0
                            == target.0,
                        results@ + ack_list(
                            self.subs(),
                            acks_all.subrange(idx as int, n as int),
                        ).1 == target.1,
                    decreases n - idx,
                {
                    let ack = acknowledgements[idx];
                    let ghost pre_subs = self.subs();
                    let ghost rest = acks_all.subrange(idx as int, n as int);
                    proof {
                        assert(rest[0] == ack);
                        assert(rest.drop_first() =~= acks_all.subrange(idx + 1, n as int));
                    }
                    let code = match self.find_subscription_index(ack.subscription_id) {
                        None => StatusCode::BadSubscriptionIdInvalid,
                        Some(i) => {
                            let mut s = self.subscriptions.remove(i);
                            let code = s.acknowledge_notification(&ack);
                            self.subscriptions.insert(i, s);
                            proof {
                                assert(self.subs() =~= pre_subs.update(i as int, s@));
                                if !holds_sequence(pre_subs[i as int].retransmission,
                                    ack.sequence_number) {
                                    assert(self.subs() =~= pre_subs);
                                }
                            }
                            code
                        },
                    };
                    proof {
                        assert((self.subs(), code) == ack_one(pre_subs, ack));
                        assert(ack_list(pre_subs, rest).0 == ack_list(
                            self.subs(),
                            rest.drop_first(),
                        ).0);
                        assert(ack_list(pre_subs, rest).1 == seq![code] + ack_list(
                            self.subs(),
                            rest.drop_first(),
                        ).1);
                        assert(results@.push(code) + ack_list(self.subs(), rest.drop_first()).1
                            =~= results@ + ack_list(pre_subs, rest).1);
                    }
                    results.push(code);
                    idx = idx + 1;
                }
                proof {
                    assert(acks_all.subrange(n as int, n as int) =~= Seq::<
                        SubscriptionAcknowledgement,
                    >::empty());
                    assert(results@ + ack_list(self.subs(), acks_all.subrange(n as int, n as int)).1
                        =~= results@);
                }
                Some(results)
            },
        }
    }

    /// An exclusive borrow of the subscription with the given id, if
    /// present. The lookup itself changes nothing: the final state is the
    /// old one with only the borrowed subscription replaced by whatever the
    /// caller writes back through the reference.
    pub fn get_mut(&mut self, subscription_id: u32) -> (r: Option<&mut Subscription>)
        requires
            old(self).wf(),
        ensures
            !has_subscription(old(self).subs(), subscription_id) ==> r is None && *final(self)
                == *old(self),
            has_subscription(old(self).subs(), subscription_id) ==> {
                let i = subscription_index(old(self).subs(), subscription_id);
                &&& r is Some
                &&& *r.unwrap() == old(self).subscriptions@[i]
                &&& final(self).subscriptions@ == old(self).subscriptions@.update(
                    i,
                    *final(r.unwrap()),
                )
                &&& final(self).subs() == old(self).subs().update(i, (*final(r.unwrap()))@)
                &&& final(self).publish_request_queue@ == old(self).publish_request_queue@
                &&& final(self).publish_response_queue@ == old(self).publish_response_queue@
                &&& final(self).max_publish_requests == old(self).max_publish_requests
                &&& final(self).publish_request_timeout == old(self).publish_request_timeout
            },
    {
        broadcast use lemma_views_of_update;

        match self.find_subscription_index(subscription_id) {
            Some(i) => Some(&mut self.subscriptions[i]),
            None => None,
        }
    }

    /// Finds a notification message in the retransmission queue of the named
    /// subscription. Fails with `BadNoSubscription` for an unknown id and
    /// with `BadMessageNotAvailable` when the subscription exists but does
    /// not hold the sequence number.
    pub fn find_notification_message(&self, subscription_id: u32, sequence_number: u32) -> (r:
        Result<NotificationMessage, StatusCode>)
        requires
            self.wf(),
        ensures
            !has_subscription(self.subs(), subscription_id) ==> r == Err::<
                NotificationMessage,
                StatusCode,
            >(StatusCode::BadNoSubscription),
            has_subscription(self.subs(), subscription_id) ==> {
                let sub = self.subs()[subscription_index(self.subs(), subscription_id)];
                if holds_sequence(sub.retransmission, sequence_number) {
                    r == Ok::<NotificationMessage, StatusCode>(
                        sub.retransmission[sequence_index(sub.retransmission, sequence_number)],
                    )
                } else {
                    r == Err::<NotificationMessage, StatusCode>(StatusCode::BadMessageNotAvailable)
                }
            },
    {
        match self.find_subscription_index(subscription_id) {
            Some(i) => {
                match self.subscriptions[i].find_notification_message(sequence_number) {
                    Some(message) => Ok(message),
                    None => Err(StatusCode::BadMessageNotAvailable),
                }
            },
            None => Err(StatusCode::BadNoSubscription),
        }
    }
}

} // verus!
