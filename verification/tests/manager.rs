use opcua_subscriptions::messages::PublishRequest;
use opcua_subscriptions::messages::RequestHeader;
use opcua_subscriptions::messages::StatusCode;
use opcua_subscriptions::messages::SubscriptionAcknowledgement;
use opcua_subscriptions::messages::SupportedMessage;
use opcua_subscriptions::subscription::DataSource;
use opcua_subscriptions::subscription::Subscription;
use opcua_subscriptions::subscription::SubscriptionState;
use opcua_subscriptions::subscription::TickReason;
use opcua_subscriptions::subscriptions::Subscriptions;

fn request(timestamp: i64, timeout_hint: u32, request_handle: u32) -> PublishRequest {
    PublishRequest {
        request_header: RequestHeader { timestamp, timeout_hint, request_handle },
        subscription_acknowledgements: None,
    }
}

fn request_with_acks(acks: Vec<SubscriptionAcknowledgement>) -> PublishRequest {
    PublishRequest {
        request_header: RequestHeader { timestamp: 0, timeout_hint: 0, request_handle: 1 },
        subscription_acknowledgements: Some(acks),
    }
}

#[test]
fn enqueue_overflow_evicts_oldest_and_reports() {
    let mut m = Subscriptions::new(2, 1000);
    assert!(m.enqueue_publish_request(1, request(0, 0, 1)).is_ok());
    assert!(m.enqueue_publish_request(2, request(0, 0, 2)).is_ok());
    let r = m.enqueue_publish_request(3, request(0, 0, 3));
    assert_eq!(r, Err(StatusCode::BadTooManyPublishRequests));
    // The queue now holds the newest two entries, R3 at the head and R2
    // behind it; R1 was evicted.
    assert_eq!(m.publish_request_queue.len(), 2);
    assert_eq!(m.publish_request_queue[0].request_id, 3);
    assert_eq!(m.publish_request_queue[1].request_id, 2);
    // Dequeuing takes the oldest first.
    assert_eq!(m.dequeue_publish_request().unwrap().request_id, 2);
    assert_eq!(m.dequeue_publish_request().unwrap().request_id, 3);
    assert!(m.dequeue_publish_request().is_none());
}

#[test]
fn queue_length_never_exceeds_capacity() {
    let mut m = Subscriptions::new(3, 1000);
    for i in 0..10u32 {
        let _ = m.enqueue_publish_request(i, request(0, 0, i));
        assert!(m.publish_request_queue.len() <= 3);
    }
    // The survivors are the three newest requests, in arrival order.
    assert_eq!(m.publish_request_queue[0].request_id, 9);
    assert_eq!(m.publish_request_queue[1].request_id, 8);
    assert_eq!(m.publish_request_queue[2].request_id, 7);
}

#[test]
fn expiry_uses_hint_only_when_smaller_than_default() {
    let mut m = Subscriptions::new(10, 1000);
    // Effective timeout 1000 (no hint): expires at 1000.
    m.enqueue_publish_request(1, request(0, 0, 1)).unwrap();
    // Effective timeout 500 (hint smaller than default): expires at 500.
    m.enqueue_publish_request(2, request(0, 500, 2)).unwrap();
    // Effective timeout 1000 (hint larger than default): expires at 1000.
    m.enqueue_publish_request(3, request(0, 2000, 3)).unwrap();
    m.expire_stale_publish_requests(499);
    assert_eq!(m.publish_request_queue.len(), 3);
    assert!(m.publish_response_queue.is_empty());
    m.expire_stale_publish_requests(500);
    assert_eq!(m.publish_request_queue.len(), 2);
    assert_eq!(m.publish_response_queue.len(), 1);
    m.expire_stale_publish_requests(1000);
    assert!(m.publish_request_queue.is_empty());
    assert_eq!(m.publish_response_queue.len(), 3);
}

#[test]
fn expiry_generates_timeout_faults() {
    let mut m = Subscriptions::new(10, 100);
    m.enqueue_publish_request(5, request(7, 0, 44)).unwrap();
    m.expire_stale_publish_requests(107);
    assert!(m.publish_request_queue.is_empty());
    assert_eq!(m.publish_response_queue.len(), 1);
    let entry = &m.publish_response_queue[0];
    assert_eq!(entry.request_id, 5);
    match &entry.response {
        SupportedMessage::ServiceFault(fault) => {
            assert_eq!(fault.response_header.service_result, StatusCode::BadTimeout);
            assert_eq!(fault.response_header.request_handle, 44);
            assert_eq!(fault.response_header.timestamp, 107);
        },
        _ => panic!("expected a service fault"),
    }
}

#[test]
fn expiry_is_idempotent_at_non_advancing_time() {
    let mut m = Subscriptions::new(10, 100);
    m.enqueue_publish_request(1, request(0, 0, 1)).unwrap();
    m.enqueue_publish_request(2, request(150, 0, 2)).unwrap();
    m.expire_stale_publish_requests(120);
    assert_eq!(m.publish_request_queue.len(), 1);
    assert_eq!(m.publish_response_queue.len(), 1);
    // A second pass at the same time expires nothing more.
    m.expire_stale_publish_requests(120);
    assert_eq!(m.publish_request_queue.len(), 1);
    assert_eq!(m.publish_response_queue.len(), 1);
    assert_eq!(m.publish_request_queue[0].request_id, 2);
}

#[test]
fn membership_operations() {
    let mut m = Subscriptions::new(4, 1000);
    assert!(m.is_empty());
    assert_eq!(m.len(), 0);
    m.insert(10, Subscription::new(10, 1));
    assert!(!m.is_empty());
    assert_eq!(m.len(), 1);
    assert!(m.contains(10));
    assert!(!m.contains(11));
    assert!(m.get(10).is_some());
    assert!(m.get(11).is_none());
    assert!(m.get_mut(10).is_some());
    // Inserting the same id replaces the stored subscription.
    m.insert(10, Subscription::new(10, 9));
    assert_eq!(m.len(), 1);
    assert_eq!(m.get(10).unwrap().priority, 9);
    let removed = m.remove(10);
    assert_eq!(removed.unwrap().subscription_id, 10);
    assert!(m.remove(10).is_none());
    assert!(m.is_empty());
}

#[test]
fn get_mut_writes_through_to_the_stored_subscription() {
    let mut m = Subscriptions::new(4, 1000);
    m.insert(10, Subscription::new(10, 1));
    assert!(m.get_mut(11).is_none());
    let s = m.get_mut(10).expect("subscription 10 should be present");
    assert_eq!(s.state, SubscriptionState::Creating);
    s.state = SubscriptionState::Normal;
    assert_eq!(m.get(10).unwrap().state, SubscriptionState::Normal);
    assert_eq!(m.len(), 1);
}

#[test]
fn tick_routes_request_by_priority() {
    // Subscriptions with priorities [5, 1, 3], all ready to publish, and
    // exactly one available request: the priority-1 subscription takes it.
    let mut m = Subscriptions::new(4, 1000);
    for (id, priority) in [(1u32, 5u8), (2, 1), (3, 3)] {
        let mut s = Subscription::new(id, priority);
        s.queue_notification();
        m.insert(id, s);
    }
    m.enqueue_publish_request(77, request(0, 0, 7)).unwrap();
    m.tick(&DataSource {}, TickReason::ReceivedPublishRequest, 10).unwrap();
    assert!(m.publish_request_queue.is_empty());
    assert_eq!(m.publish_response_queue.len(), 1);
    match &m.publish_response_queue[0].response {
        SupportedMessage::PublishResponse(response) => {
            assert_eq!(response.subscription_id, 2);
        },
        _ => panic!("expected a publish response"),
    }
}

#[test]
fn tick_gives_declined_request_to_next_priority() {
    // The priority-1 subscription has nothing to publish, so the request it
    // popped is requeued and the priority-2 subscription must see it.
    let mut m = Subscriptions::new(4, 1000);
    let a = Subscription::new(1, 1);
    let mut b = Subscription::new(2, 2);
    b.queue_notification();
    m.insert(1, a);
    m.insert(2, b);
    m.enqueue_publish_request(50, request(0, 0, 5)).unwrap();
    m.tick(&DataSource {}, TickReason::ReceivedPublishRequest, 10).unwrap();
    assert!(m.publish_request_queue.is_empty());
    assert_eq!(m.publish_response_queue.len(), 1);
    assert_eq!(m.publish_response_queue[0].request_id, 50);
    match &m.publish_response_queue[0].response {
        SupportedMessage::PublishResponse(response) => {
            assert_eq!(response.subscription_id, 2);
        },
        _ => panic!("expected a publish response"),
    }
}

#[test]
fn tick_leaves_unwanted_request_queued() {
    let mut m = Subscriptions::new(4, 1000);
    m.insert(1, Subscription::new(1, 1));
    m.enqueue_publish_request(8, request(0, 0, 8)).unwrap();
    m.tick(&DataSource {}, TickReason::TickTimerFired, 10).unwrap();
    assert_eq!(m.publish_request_queue.len(), 1);
    assert_eq!(m.publish_request_queue[0].request_id, 8);
    assert!(m.publish_response_queue.is_empty());
}

#[test]
fn tick_removes_closed_subscriptions() {
    let mut m = Subscriptions::new(4, 1000);
    let mut closed = Subscription::new(7, 1);
    closed.state = SubscriptionState::Closed;
    let mut open = Subscription::new(8, 2);
    open.state = SubscriptionState::Normal;
    m.insert(7, closed);
    m.insert(8, open);
    m.tick(&DataSource {}, TickReason::TickTimerFired, 10).unwrap();
    assert!(!m.contains(7));
    assert!(m.contains(8));
    assert_eq!(m.len(), 1);
}

#[test]
fn acknowledgement_results_are_positional() {
    // Subscription 10 exists and holds sequence number 1; subscription 99
    // does not exist: the result list is exactly [Good,
    // BadSubscriptionIdInvalid] in that order.
    let mut m = Subscriptions::new(4, 1000);
    let mut s = Subscription::new(10, 1);
    s.queue_notification();
    m.insert(10, s);
    m.enqueue_publish_request(1, request(0, 0, 1)).unwrap();
    m.tick(&DataSource {}, TickReason::ReceivedPublishRequest, 10).unwrap();
    let acks = request_with_acks(vec![
        SubscriptionAcknowledgement { subscription_id: 10, sequence_number: 1 },
        SubscriptionAcknowledgement { subscription_id: 99, sequence_number: 1 },
    ]);
    let results = m.process_subscription_acknowledgements(&acks).unwrap();
    assert_eq!(results, vec![StatusCode::Good, StatusCode::BadSubscriptionIdInvalid]);
}

#[test]
fn acknowledging_unknown_sequence_number() {
    let mut m = Subscriptions::new(4, 1000);
    m.insert(10, Subscription::new(10, 1));
    let acks = request_with_acks(vec![SubscriptionAcknowledgement {
        subscription_id: 10,
        sequence_number: 5,
    }]);
    let results = m.process_subscription_acknowledgements(&acks).unwrap();
    assert_eq!(results, vec![StatusCode::BadSequenceNumberUnknown]);
}

#[test]
fn acknowledgements_absent_yield_no_results() {
    let mut m = Subscriptions::new(4, 1000);
    let r = m.process_subscription_acknowledgements(&request(0, 0, 1));
    assert!(r.is_none());
}

#[test]
fn tick_attaches_acknowledgement_results_to_response() {
    let mut m = Subscriptions::new(4, 1000);
    let mut s = Subscription::new(10, 1);
    s.queue_notification();
    s.queue_notification();
    m.insert(10, s);
    // First round publishes sequence number 1 into the retransmission queue.
    m.enqueue_publish_request(1, request(0, 0, 1)).unwrap();
    m.tick(&DataSource {}, TickReason::ReceivedPublishRequest, 10).unwrap();
    // The second request acknowledges it; the response to that request must
    // carry [Good].
    let mut ack_request = request_with_acks(vec![SubscriptionAcknowledgement {
        subscription_id: 10,
        sequence_number: 1,
    }]);
    ack_request.request_header.request_handle = 2;
    m.enqueue_publish_request(2, ack_request).unwrap();
    m.tick(&DataSource {}, TickReason::ReceivedPublishRequest, 20).unwrap();
    assert_eq!(m.publish_response_queue.len(), 2);
    let entry = &m.publish_response_queue[1];
    assert_eq!(entry.request_id, 2);
    match &entry.response {
        SupportedMessage::PublishResponse(response) => {
            assert_eq!(response.results, Some(vec![StatusCode::Good]));
            assert_eq!(response.notification_message.sequence_number, 2);
        },
        _ => panic!("expected a publish response"),
    }
    // The acknowledged notification is gone from the retransmission queue.
    assert_eq!(
        m.find_notification_message(10, 1),
        Err(StatusCode::BadMessageNotAvailable)
    );
}

#[test]
fn find_notification_message_round_trip() {
    let mut m = Subscriptions::new(4, 1000);
    let mut s = Subscription::new(3, 1);
    s.queue_notification();
    m.insert(3, s);
    m.enqueue_publish_request(1, request(0, 0, 1)).unwrap();
    m.tick(&DataSource {}, TickReason::ReceivedPublishRequest, 42).unwrap();
    assert_eq!(m.find_notification_message(99, 1), Err(StatusCode::BadNoSubscription));
    assert_eq!(m.find_notification_message(3, 9), Err(StatusCode::BadMessageNotAvailable));
    let message = m.find_notification_message(3, 1).unwrap();
    assert_eq!(message.sequence_number, 1);
    assert_eq!(message.publish_time, 42);
}

#[test]
fn zero_capacity_queue_accepts_nothing() {
    let mut m = Subscriptions::new(0, 1000);
    let r = m.enqueue_publish_request(1, request(0, 0, 1));
    assert_eq!(r, Err(StatusCode::BadTooManyPublishRequests));
    assert!(m.publish_request_queue.is_empty());
}

#[test]
fn tick_with_no_subscriptions_keeps_queue() {
    let mut m = Subscriptions::new(4, 1000);
    m.enqueue_publish_request(1, request(0, 0, 1)).unwrap();
    m.tick(&DataSource {}, TickReason::TickTimerFired, 10).unwrap();
    assert_eq!(m.publish_request_queue.len(), 1);
    assert!(m.publish_response_queue.is_empty());
}

#[test]
fn equal_priorities_keep_insertion_order() {
    let mut m = Subscriptions::new(4, 1000);
    for id in [1u32, 2, 3] {
        let mut s = Subscription::new(id, 5);
        s.queue_notification();
        m.insert(id, s);
    }
    m.enqueue_publish_request(40, request(0, 0, 4)).unwrap();
    m.tick(&DataSource {}, TickReason::ReceivedPublishRequest, 10).unwrap();
    assert_eq!(m.publish_response_queue.len(), 1);
    match &m.publish_response_queue[0].response {
        SupportedMessage::PublishResponse(response) => {
            assert_eq!(response.subscription_id, 1);
        },
        _ => panic!("expected a publish response"),
    }
}

#[test]
fn tick_serves_multiple_subscriptions_from_the_queue() {
    let mut m = Subscriptions::new(4, 1000);
    for (id, priority) in [(1u32, 2u8), (2, 1)] {
        let mut s = Subscription::new(id, priority);
        s.queue_notification();
        m.insert(id, s);
    }
    m.enqueue_publish_request(11, request(0, 0, 1)).unwrap();
    m.enqueue_publish_request(12, request(0, 0, 2)).unwrap();
    m.tick(&DataSource {}, TickReason::ReceivedPublishRequest, 10).unwrap();
    assert!(m.publish_request_queue.is_empty());
    assert_eq!(m.publish_response_queue.len(), 2);
    // The priority-1 subscription (id 2) takes the oldest request (id 11).
    assert_eq!(m.publish_response_queue[0].request_id, 11);
    match &m.publish_response_queue[0].response {
        SupportedMessage::PublishResponse(response) => assert_eq!(response.subscription_id, 2),
        _ => panic!("expected a publish response"),
    }
    assert_eq!(m.publish_response_queue[1].request_id, 12);
    match &m.publish_response_queue[1].response {
        SupportedMessage::PublishResponse(response) => assert_eq!(response.subscription_id, 1),
        _ => panic!("expected a publish response"),
    }
}
