//! A spaced-repetition scheduling engine: daily quota planning before a
//! deadline, load smoothing, missed-day reconciliation, Leitner-box card
//! selection and an SM-2 interval rule.

pub mod config;
pub mod quota_file;
pub mod quotas;
pub mod session;
pub mod sm2;
