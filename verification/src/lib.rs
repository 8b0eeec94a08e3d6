//! Breadcrumbs: the logic of a local dev diary that turns coding sessions and
//! git history into timelines and markdown reports.
use vstd::prelude::*;

pub mod text;
pub mod models;
pub mod order;
pub mod report;
pub mod git;
pub mod report_rows;
pub mod db;
pub mod json;
pub mod ai;
pub mod opencode;
pub mod timeline;
pub mod commands;

verus! {

} // verus!
