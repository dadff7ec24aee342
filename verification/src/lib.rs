//! Programmable attention for notes: a store of notes with change tracking,
//! feeds that order them for review, the weighted link graph between them,
//! the reading of org-roam's database rows, and the reading and writing of
//! the property drawer at the top of an org file.
pub mod config;
pub mod graph;
pub mod org_file;
pub mod org_roam_db;
pub mod props;
pub mod round_trip;
pub mod score;
pub mod text;
pub mod types;
