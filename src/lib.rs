//! A small persistent store of elder-care reports.
//!
//! Reports live in a page-backed ordered map keyed by a numeric identifier;
//! identifiers are minted from a durable counter. Reports are kept in the
//! map in a compact binary form whose layout and round-trip behaviour are
//! proved in [`codec`].

pub mod codec;
pub mod record;
pub mod service;
pub mod storage;

pub use codec::{decode, encode, EncodeError, MAX_ENCODED_SIZE};
pub use record::{CareReport, CareReportPayload};
pub use service::{ReportError, ReportStore};
