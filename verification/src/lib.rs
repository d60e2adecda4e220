//! The verified core of a resident CPU-hog monitor: a per-pid hysteresis
//! detector that turns noisy CPU samples into debounced hog reports, a
//! durable ignore ledger keyed by executable path with a promotion rule, a
//! notification-response handler whose timeout track escalates into a
//! permanent ignore, and the cache file codec with a proven save/load round
//! trip. Process sampling, signal sending, notification display, and file
//! I/O live outside the library and only carry plain values across.

pub mod codec;
pub mod counters;
pub mod detector;
pub mod ledger;
pub mod response;
