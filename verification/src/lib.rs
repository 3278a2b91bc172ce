//! The logic of a site that shows which domains and subnets are blocked: the blocklist and its
//! refresh, the API that lists and searches it, the checking of single targets, the reports of
//! visitors, and what the pages show. Input and output are left to the server around it.

pub mod api;
pub mod blocklist;
pub mod check;
pub mod config;
pub mod entries;
pub mod feedback;
pub mod number;
pub mod pages;
pub mod sorting;
pub mod status;
pub mod text;
