//! Core of a newsletter dispatch path: a per-key sliding-window rate limiter
//! and the pure decisions behind sending a confirmation email (credential
//! checks, confirmation-URL construction, and interpretation of the
//! provider's response).

pub mod limiter;
pub mod notify;
