//! Apple Silicon hardware performance counter access via kpc/kpep.
//!
//! This crate decides how hardware performance counters are used, and proves what it decides:
//! - **kpep**, **property_list**, **load**: find and read Apple's PMC event database, to know all
//!   hardware events of the current CPU.
//! - **xml**, **markup**, **scalars**: tell the documents that cannot be read for a date in them.
//! - **kpc**, **slots**, **order**: assign events to counter slots, program the counters, and
//!   make sense of what they hold.
//! - **inject**: the message by which a measured command hands over its counters.
//! - **list**, **stat**, **numerals**, **text**: options, selections and reports.
//!
//! Calls into the system are left to the program around the crate: where a decision needs one,
//! a function says what to ask, and another takes the answer.
//!
//! # Requirements
//! - macOS on Apple Silicon (M1/M2/M3/M4)
//! - Root privileges (`sudo`) for counter access
//! - SIP disabled for full configurable counter access

pub mod inject;
pub mod kpc;
pub mod kpep;
pub mod list;
pub mod load;
pub mod markup;
pub mod numerals;
pub mod order;
pub mod property_list;
pub mod scalars;
pub mod slots;
pub mod stat;
pub mod text;
pub mod xml;

pub use kpc::KpcManager;
pub use kpep::KpepDatabase;
