//! A single subscription: a state machine owning a queue of notifications its
//! monitored items have produced and a retransmission queue of notifications
//! already sent but not yet acknowledged.
//!
//! How notifications arise from the underlying data model is outside this
//! component: callers stage them with [`Subscription::queue_notification`].
//! The tick either publishes the oldest staged notification into a response
//! (when a candidate request is available) or does nothing.

use vstd::prelude::*;

use crate::messages::NotificationMessage;
use crate::messages::PublishRequestEntry;
use crate::messages::PublishResponse;
use crate::messages::PublishResponseEntry;
use crate::messages::ResponseHeader;
use crate::messages::StatusCode;
use crate::messages::SubscriptionAcknowledgement;
use crate::messages::SupportedMessage;

verus! {

/// Read-only handle to the server's data model, passed through to each
/// subscription's tick unmodified. This engine never inspects its contents;
/// monitored-item evaluation against it belongs to another component.
pub struct DataSource {}

/// The signal that caused the current scheduling pass.
#[derive(Clone, Copy, PartialEq, Eq, Structural, Debug)]
pub enum TickReason {
    ReceivedPublishRequest,
    TickTimerFired,
}

/// Lifecycle state of a subscription. `Closed` is terminal: the manager
/// removes a closed subscription on its next pass.
#[derive(Clone, Copy, PartialEq, Eq, Structural, Debug)]
pub enum SubscriptionState {
    Creating,
    Normal,
    Late,
    KeepAlive,
    Closed,
}

/// Server-side object representing a client's standing interest in monitored
/// data, producing notifications over time.
pub struct Subscription {
    pub subscription_id: u32,
    pub priority: u8,
    pub state: SubscriptionState,
    /// Notifications produced but not yet published, oldest first.
    pub pending_notifications: Vec<NotificationMessage>,
    /// Notifications published but not yet acknowledged, oldest first.
    pub retransmission_queue: Vec<NotificationMessage>,
    /// Sequence number the next staged notification will carry.
    pub next_sequence_number: u32,
}

/// Mathematical value of a [`Subscription`].
pub ghost struct SubscriptionView {
    pub subscription_id: u32,
    pub priority: u8,
    pub state: SubscriptionState,
    pub pending: Seq<NotificationMessage>,
    pub retransmission: Seq<NotificationMessage>,
    pub next_sequence_number: u32,
}

impl View for Subscription {
    type V = SubscriptionView;

    open spec fn view(&self) -> SubscriptionView {
        SubscriptionView {
            subscription_id: self.subscription_id,
            priority: self.priority,
            state: self.state,
            pending: self.pending_notifications@,
            retransmission: self.retransmission_queue@,
            next_sequence_number: self.next_sequence_number,
        }
    }
}

/// Whether `messages` holds an entry with the given sequence number.
pub open spec fn holds_sequence(messages: Seq<NotificationMessage>, sequence_number: u32) -> bool {
    exists|i: int|
        0 <= i < messages.len() && messages[i].sequence_number == sequence_number
}

/// The index of the entry with the given sequence number; meaningful only
/// when `holds_sequence` is true and the sequence numbers are distinct.
pub open spec fn sequence_index(messages: Seq<NotificationMessage>, sequence_number: u32) -> int {
    choose|i: int|
        0 <= i < messages.len() && messages[i].sequence_number == sequence_number
}

impl SubscriptionView {
    /// Well-formedness: sequence numbers are pairwise distinct across the
    /// pending and retransmission queues, and all below the next one.
    pub open spec fn wf(self) -> bool {
        &&& (forall|i: int, j: int|
            0 <= i < j < self.pending.len() ==> #[trigger] self.pending[i].sequence_number
                != #[trigger] self.pending[j].sequence_number)
        &&& (forall|i: int, j: int|
            0 <= i < j < self.retransmission.len()
                ==> #[trigger] self.retransmission[i].sequence_number
                != #[trigger] self.retransmission[j].sequence_number)
        &&& (forall|i: int, j: int|
            0 <= i < self.pending.len() && 0 <= j < self.retransmission.len()
                ==> #[trigger] self.pending[i].sequence_number
                != #[trigger] self.retransmission[j].sequence_number)
        &&& (forall|i: int|
            0 <= i < self.pending.len() ==> #[trigger] self.pending[i].sequence_number
                < self.next_sequence_number)
        &&& (forall|i: int|
            0 <= i < self.retransmission.len()
                ==> #[trigger] self.retransmission[i].sequence_number
                < self.next_sequence_number)
    }

    /// A subscription will take a request during a tick exactly when it has a
    /// staged notification to publish.
    pub open spec fn ready_to_publish(self) -> bool {
        self.pending.len() > 0
    }

    /// The notification a publishing tick emits: the oldest staged one,
    /// stamped with the publication time.
    pub open spec fn published_message(self, now: i64) -> NotificationMessage {
        NotificationMessage {
            sequence_number: self.pending[0].sequence_number,
            publish_time: now,
        }
    }

    /// The subscription after a publishing tick: the oldest staged
    /// notification moves to the retransmission queue.
    pub open spec fn after_publish(self, now: i64) -> SubscriptionView {
        SubscriptionView {
            pending: self.pending.drop_first(),
            retransmission: self.retransmission.push(self.published_message(now)),
            ..self
        }
    }

    /// The response a publishing tick produces for the matched request.
    pub open spec fn publish_response_entry(
        self,
        request: PublishRequestEntry,
        now: i64,
    ) -> PublishResponseEntry {
        PublishResponseEntry {
            request_id: request.request_id,
            response: SupportedMessage::PublishResponse(
                PublishResponse {
                    response_header: ResponseHeader {
                        timestamp: now,
                        request_handle: request.request.request_header.request_handle,
                        service_result: StatusCode::Good,
                    },
                    subscription_id: self.subscription_id,
                    notification_message: self.published_message(now),
                    results: None,
                },
            ),
        }
    }
}

impl Subscription {
    pub open spec fn wf(self) -> bool {
        self@.wf()
    }

    /// A fresh subscription: no notifications anywhere, sequence numbers
    /// starting at 1.
    pub fn new(subscription_id: u32, priority: u8) -> (s: Subscription)
        ensures
            s.wf(),
            s@ == (SubscriptionView {
                subscription_id,
                priority,
                state: SubscriptionState::Creating,
                pending: Seq::<NotificationMessage>::empty(),
                retransmission: Seq::<NotificationMessage>::empty(),
                next_sequence_number: 1u32,
            }),
    {
        Subscription {
            subscription_id,
            priority,
            state: SubscriptionState::Creating,
            pending_notifications: Vec::new(),
            retransmission_queue: Vec::new(),
            next_sequence_number: 1,
        }
    }

    /// Stages one notification for publication, carrying the next sequence
    /// number. Its publication time is stamped later, by the tick that
    /// publishes it.
    pub fn queue_notification(&mut self) -> (sequence_number: u32)
        requires
            old(self).wf(),
            old(self).next_sequence_number < u32::MAX,
        ensures
            final(self).wf(),
            sequence_number == old(self).next_sequence_number,
            final(self)@ == (SubscriptionView {
                pending: old(self)@.pending.push(
                    NotificationMessage {
                        sequence_number: old(self).next_sequence_number,
                        publish_time: 0,
                    },
                ),
                next_sequence_number: (old(self).next_sequence_number + 1) as u32,
                ..old(self)@
            }),
    {
        let sequence_number = self.next_sequence_number;
        self.pending_notifications.push(
            NotificationMessage { sequence_number, publish_time: 0 },
        );
        self.next_sequence_number = self.next_sequence_number + 1;
        sequence_number
    }

    /// One scheduling step. When a candidate request is on offer and a staged
    /// notification exists, the oldest staged notification is published: it
    /// moves to the retransmission queue and a response for the request is
    /// returned. Otherwise nothing changes and no response is produced.
    ///
    /// `data_source`, `reason` and `more_requests_queued` are part of the
    /// collaborator interface the manager drives; this implementation's
    /// publish decision does not depend on them.
    pub fn tick(
        &mut self,
        data_source: &DataSource,
        reason: TickReason,
        publish_request: &Option<PublishRequestEntry>,
        more_requests_queued: bool,
        now: i64,
    ) -> (r: Option<PublishResponseEntry>)
        requires
            old(self).wf(),
        ensures
            final(self).wf(),
            (*publish_request) is Some && old(self)@.ready_to_publish() ==> {
                &&& r == Some(
                    old(self)@.publish_response_entry((*publish_request)->Some_0, now),
                )
                &&& final(self)@ == old(self)@.after_publish(now)
            },
            !((*publish_request) is Some && old(self)@.ready_to_publish()) ==> {
                &&& r is None
                &&& final(self)@ == old(self)@
            },
    {
        if publish_request.is_some() && self.pending_notifications.len() > 0 {
            let sequence_number = self.pending_notifications[0].sequence_number;
            let message = NotificationMessage { sequence_number, publish_time: now };
            let _ = self.pending_notifications.remove(0);
            self.retransmission_queue.push(message);
            match publish_request {
                Some(request) => Some(
                    PublishResponseEntry {
                        request_id: request.request_id,
                        response: SupportedMessage::PublishResponse(
                            PublishResponse {
                                response_header: ResponseHeader {
                                    timestamp: now,
                                    request_handle: request.request.request_header.request_handle,
                                    service_result: StatusCode::Good,
                                },
                                subscription_id: self.subscription_id,
                                notification_message: message,
                                results: None,
                            },
                        ),
                    },
                ),
                None => None,
            }
        } else {
            None
        }
    }

    /// Retires the named notification from the retransmission queue. Reports
    /// `Good` exactly when the sequence number was held; relative order of
    /// the remaining entries is preserved.
    pub fn acknowledge_notification(
        &mut self,
        acknowledgement: &SubscriptionAcknowledgement,
    ) -> (r: StatusCode)
        requires
            old(self).wf(),
        ensures
            final(self).wf(),
            holds_sequence(old(self)@.retransmission, acknowledgement.sequence_number) ==> {
                &&& r == StatusCode::Good
                &&& final(self)@ == (SubscriptionView {
                    retransmission: old(self)@.retransmission.remove(
                        sequence_index(
                            old(self)@.retransmission,
                            acknowledgement.sequence_number,
                        ),
                    ),
                    ..old(self)@
                })
            },
            !holds_sequence(old(self)@.retransmission, acknowledgement.sequence_number) ==> {
                &&& r == StatusCode::BadSequenceNumberUnknown
                &&& final(self)@ == old(self)@
            },
    {
        let n = self.retransmission_queue.len();
        let mut i: usize = 0;
        while i < n
            invariant
                old(self).wf(),
                n == self.retransmission_queue@.len(),
                0 <= i <= n,
                *self == *old(self),
                forall|j: int|
                    0 <= j < i ==> self.retransmission_queue@[j].sequence_number
                        != acknowledgement.sequence_number,
            decreases n - i,
        {
            if self.retransmission_queue[i].sequence_number == acknowledgement.sequence_number {
                proof {
                    assert(old(self)@.retransmission[i as int].sequence_number
                        == acknowledgement.sequence_number);
                    assert(holds_sequence(old(self)@.retransmission, acknowledgement.sequence_number));
                    let k = sequence_index(old(self)@.retransmission, acknowledgement.sequence_number);
                    assert(0 <= k < old(self)@.retransmission.len()
                        && old(self)@.retransmission[k].sequence_number
                        == acknowledgement.sequence_number);
                    if k < i as int {
                        assert(old(self)@.retransmission[k].sequence_number
                            != acknowledgement.sequence_number);
                    } else if k > i as int {
                        assert(old(self)@.retransmission[i as int].sequence_number
                            != old(self)@.retransmission[k].sequence_number);
                    }
                    assert(k == i as int);
                }
                let _ = self.retransmission_queue.remove(i);
                return StatusCode::Good;
            }
            i = i + 1;
        }
        StatusCode::BadSequenceNumberUnknown
    }

    /// Looks the named notification up in the retransmission queue, returning
    /// a copy of the stored message when it is held.
    pub fn find_notification_message(
        &self,
        sequence_number: u32,
    ) -> (r: Option<NotificationMessage>)
        requires
            self.wf(),
        ensures
            holds_sequence(self@.retransmission, sequence_number) ==> r == Some(
                self@.retransmission[sequence_index(self@.retransmission, sequence_number)],
            ),
            !holds_sequence(self@.retransmission, sequence_number) ==> r is None,
    {
        let n = self.retransmission_queue.len();
        let mut i: usize = 0;
        while i < n
            invariant
                self.wf(),
                n == self.retransmission_queue@.len(),
                0 <= i <= n,
                forall|j: int|
                    0 <= j < i ==> self.retransmission_queue@[j].sequence_number
                        != sequence_number,
            decreases n - i,
        {
            if self.retransmission_queue[i].sequence_number == sequence_number {
                proof {
                    assert(self@.retransmission[i as int].sequence_number == sequence_number);
                    assert(holds_sequence(self@.retransmission, sequence_number));
                    let k = sequence_index(self@.retransmission, sequence_number);
                    assert(0 <= k < self@.retransmission.len()
                        && self@.retransmission[k].sequence_number == sequence_number);
                    if k < i as int {
                        assert(self@.retransmission[k].sequence_number != sequence_number);
                    } else if k > i as int {
                        assert(self@.retransmission[i as int].sequence_number
                            != self@.retransmission[k].sequence_number);
                    }
                    assert(k == i as int);
                }
                return Some(self.retransmission_queue[i]);
            }
            i = i + 1;
        }
        None
    }
}

} // verus!
