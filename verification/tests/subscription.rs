use opcua_subscriptions::messages::StatusCode;
use opcua_subscriptions::messages::SubscriptionAcknowledgement;
use opcua_subscriptions::subscription::DataSource;
use opcua_subscriptions::subscription::Subscription;
use opcua_subscriptions::subscription::SubscriptionState;
use opcua_subscriptions::subscription::TickReason;

#[test]
fn new_subscription_is_empty() {
    let s = Subscription::new(7, 3);
    assert_eq!(s.subscription_id, 7);
    assert_eq!(s.priority, 3);
    assert_eq!(s.state, SubscriptionState::Creating);
    assert!(s.pending_notifications.is_empty());
    assert!(s.retransmission_queue.is_empty());
    assert_eq!(s.next_sequence_number, 1);
}

#[test]
fn queued_notifications_number_from_one() {
    let mut s = Subscription::new(1, 0);
    assert_eq!(s.queue_notification(), 1);
    assert_eq!(s.queue_notification(), 2);
    assert_eq!(s.queue_notification(), 3);
    assert_eq!(s.pending_notifications.len(), 3);
    assert_eq!(s.next_sequence_number, 4);
}

#[test]
fn tick_without_request_produces_nothing() {
    let mut s = Subscription::new(1, 0);
    s.queue_notification();
    let r = s.tick(&DataSource {}, TickReason::TickTimerFired, &None, false, 50);
    assert!(r.is_none());
    assert_eq!(s.pending_notifications.len(), 1);
    assert!(s.retransmission_queue.is_empty());
}

#[test]
fn tick_without_notification_produces_nothing() {
    let mut s = Subscription::new(1, 0);
    let request = opcua_subscriptions::messages::PublishRequestEntry {
        request_id: 9,
        request: opcua_subscriptions::messages::PublishRequest {
            request_header: opcua_subscriptions::messages::RequestHeader {
                timestamp: 0,
                timeout_hint: 0,
                request_handle: 1,
            },
            subscription_acknowledgements: None,
        },
    };
    let r = s.tick(&DataSource {}, TickReason::ReceivedPublishRequest, &Some(request), false, 50);
    assert!(r.is_none());
}

#[test]
fn tick_publishes_oldest_notification() {
    let mut s = Subscription::new(4, 0);
    s.queue_notification();
    s.queue_notification();
    let request = opcua_subscriptions::messages::PublishRequestEntry {
        request_id: 21,
        request: opcua_subscriptions::messages::PublishRequest {
            request_header: opcua_subscriptions::messages::RequestHeader {
                timestamp: 0,
                timeout_hint: 0,
                request_handle: 8,
            },
            subscription_acknowledgements: None,
        },
    };
    let r = s.tick(&DataSource {}, TickReason::ReceivedPublishRequest, &Some(request), true, 99);
    let entry = r.expect("a response should be produced");
    assert_eq!(entry.request_id, 21);
    match entry.response {
        opcua_subscriptions::messages::SupportedMessage::PublishResponse(response) => {
            assert_eq!(response.subscription_id, 4);
            assert_eq!(response.notification_message.sequence_number, 1);
            assert_eq!(response.notification_message.publish_time, 99);
            assert_eq!(response.response_header.request_handle, 8);
            assert_eq!(response.response_header.timestamp, 99);
            assert_eq!(response.response_header.service_result, StatusCode::Good);
            assert!(response.results.is_none());
        },
        _ => panic!("expected a publish response"),
    }
    assert_eq!(s.pending_notifications.len(), 1);
    assert_eq!(s.pending_notifications[0].sequence_number, 2);
    assert_eq!(s.retransmission_queue.len(), 1);
    assert_eq!(s.retransmission_queue[0].sequence_number, 1);
}

#[test]
fn acknowledge_retires_held_sequence_number() {
    let mut s = Subscription::new(1, 0);
    s.queue_notification();
    let request = opcua_subscriptions::messages::PublishRequestEntry {
        request_id: 1,
        request: opcua_subscriptions::messages::PublishRequest {
            request_header: opcua_subscriptions::messages::RequestHeader {
                timestamp: 0,
                timeout_hint: 0,
                request_handle: 1,
            },
            subscription_acknowledgements: None,
        },
    };
    s.tick(&DataSource {}, TickReason::ReceivedPublishRequest, &Some(request), false, 5);
    let ack = SubscriptionAcknowledgement { subscription_id: 1, sequence_number: 1 };
    assert_eq!(s.acknowledge_notification(&ack), StatusCode::Good);
    assert!(s.retransmission_queue.is_empty());
    assert_eq!(s.acknowledge_notification(&ack), StatusCode::BadSequenceNumberUnknown);
}

#[test]
fn find_notification_message_in_subscription() {
    let mut s = Subscription::new(1, 0);
    s.queue_notification();
    let request = opcua_subscriptions::messages::PublishRequestEntry {
        request_id: 1,
        request: opcua_subscriptions::messages::PublishRequest {
            request_header: opcua_subscriptions::messages::RequestHeader {
                timestamp: 0,
                timeout_hint: 0,
                request_handle: 1,
            },
            subscription_acknowledgements: None,
        },
    };
    s.tick(&DataSource {}, TickReason::ReceivedPublishRequest, &Some(request), false, 5);
    let found = s.find_notification_message(1).expect("sequence number 1 should be held");
    assert_eq!(found.sequence_number, 1);
    assert_eq!(found.publish_time, 5);
    assert!(s.find_notification_message(2).is_none());
}
