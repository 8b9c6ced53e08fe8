//! Verified core of a modal terminal script picker: a confined directory
//! navigation model, an ordered selection list and the decisions of the
//! action-dispatch loop.
pub mod action;
pub mod app;
pub mod entry;
pub mod repository;
pub mod scroll_list;
