//! Subscription/publish engine of an industrial telemetry protocol server.
//!
//! A `Subscriptions` manager owns, for one session, the set of subscriptions,
//! the inbound publish-request queue and the outbound publish-response queue.
//! It admits and expires client publish requests, schedules subscriptions in
//! priority order against the available requests, and routes acknowledgement
//! bookkeeping. Times are plain milliseconds; the caller supplies the clock.

pub mod messages;
pub mod subscription;
pub mod subscriptions;
