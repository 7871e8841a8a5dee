//! Verified core of the videre photo library: naming, parsing, sampling and
//! state rules, with the database and file-system edges kept outside.

pub mod text;
pub mod error_kind;
pub mod db;
pub mod embeddings;
pub mod classify;
pub mod embeddings_db;
pub mod face_db;
pub mod order;
pub mod person;
pub mod face_learning;
pub mod strings;
pub mod error_log;
pub mod disk;
pub mod basemap;
pub mod fix_dates_target;
pub mod face_match;
pub mod face_cluster;
