//! Course-schedule planning: requirement trees, a catalog, a schedule
//! validator, a schedule builder, and explanations of why each course is
//! part of a plan. Every executable function carries a contract that Verus
//! proves.

pub mod builder;
pub mod catalog;
pub mod code;
pub mod error;
pub mod listing;
pub mod multi;
pub mod other;
pub mod place;
pub mod reasons;
pub mod requirement;
pub mod schedule;
pub mod select;
pub mod text_api;
pub mod validate;
