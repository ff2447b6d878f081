//! Group selection.
//!
//! Given named items, named groups of items and a few limits, this crate
//! finds selections of items in which every active group has exactly four
//! selected members, and lists several distinct ones.
//!
//! The work is done in this order:
//!
//! * [`config`] reads the raw configuration from a tree of values;
//! * [`model`] builds the canonical model from it: names in ascending
//!   order, every reference an index;
//! * [`encode`] writes down the formulas that a selection has to satisfy,
//!   over one boolean variable per item and one per group ([`formula`]);
//! * [`solve`] hands the formulas to a satisfiability solver ([`oracle`]),
//!   checks every answer, and returns distinct valid selections;
//! * [`project`] turns a selection back into group names and item names.
//!
//! [`selection`] states what the formulas mean and proves what holds of
//! every selection that is returned. [`sorted`] and [`order`] hold the
//! ascending index lists and the order of names that everything else uses.

pub mod config;
pub mod encode;
pub mod formula;
pub mod model;
pub mod oracle;
pub mod order;
pub mod project;
pub mod selection;
pub mod solve;
pub mod sorted;
