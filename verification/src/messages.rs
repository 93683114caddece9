//! Boundary types reused from the wider protocol: requests, responses,
//! headers, notification messages and the closed set of status codes.

use vstd::prelude::*;

verus! {

/// The protocol's status-code enumeration, restricted to the codes this
/// engine produces or returns.
#[derive(Clone, Copy, PartialEq, Eq, Structural, Debug)]
pub enum StatusCode {
    Good,
    BadTooManyPublishRequests,
    BadTimeout,
    BadSubscriptionIdInvalid,
    BadSequenceNumberUnknown,
    BadNoSubscription,
    BadMessageNotAvailable,
}

/// Header carried by every client request. The timestamp is in milliseconds;
/// `timeout_hint` is an optional per-request timeout hint in milliseconds
/// (zero means absent).
#[derive(Clone, Copy, PartialEq, Eq, Structural, Debug)]
pub struct RequestHeader {
    pub timestamp: i64,
    pub timeout_hint: u32,
    pub request_handle: u32,
}

/// One per-subscription acknowledgement carried inside a publish request.
#[derive(Clone, Copy, PartialEq, Eq, Structural, Debug)]
pub struct SubscriptionAcknowledgement {
    pub subscription_id: u32,
    pub sequence_number: u32,
}

/// A client publish request: it polls for pending notifications and carries
/// acknowledgements of previously delivered ones.
#[derive(Clone, PartialEq, Debug)]
pub struct PublishRequest {
    pub request_header: RequestHeader,
    pub subscription_acknowledgements: Option<Vec<SubscriptionAcknowledgement>>,
}

/// Header carried by every server response.
#[derive(Clone, Copy, PartialEq, Eq, Structural, Debug)]
pub struct ResponseHeader {
    pub timestamp: i64,
    pub request_handle: u32,
    pub service_result: StatusCode,
}

/// A batch of change reports delivered to a client, identified by a
/// monotonically increasing sequence number per subscription.
#[derive(Clone, Copy, PartialEq, Eq, Structural, Debug)]
pub struct NotificationMessage {
    pub sequence_number: u32,
    pub publish_time: i64,
}

/// A successful publish response: one notification message, plus the status
/// of each acknowledgement the matched request carried (positional).
#[derive(Clone, PartialEq, Debug)]
pub struct PublishResponse {
    pub response_header: ResponseHeader,
    pub subscription_id: u32,
    pub notification_message: NotificationMessage,
    pub results: Option<Vec<StatusCode>>,
}

/// A service-level failure response (here: request timeout).
#[derive(Clone, Copy, PartialEq, Eq, Structural, Debug)]
pub struct ServiceFault {
    pub response_header: ResponseHeader,
}

/// The two response messages this engine emits.
#[derive(Clone, PartialEq, Debug)]
pub enum SupportedMessage {
    PublishResponse(PublishResponse),
    ServiceFault(ServiceFault),
}

/// A queued publish request paired with its correlation id.
#[derive(Clone, PartialEq, Debug)]
pub struct PublishRequestEntry {
    pub request_id: u32,
    pub request: PublishRequest,
}

/// An outbound response paired with the correlation id of the request it
/// answers.
#[derive(Clone, PartialEq, Debug)]
pub struct PublishResponseEntry {
    pub request_id: u32,
    pub response: SupportedMessage,
}

} // verus!
