//! Verified core of a disk cleaner: scanning, reporting, cleaning rules,
//! deletion safety, duplicate detection and the system toolbox.
pub mod analysis;
pub mod appscan;
pub mod appscan_laws;
pub mod catalog;
pub mod catalog_laws;
pub mod civil;
pub mod codec;
pub mod console;
pub mod console_laws;
pub mod deletion;
pub mod deletion_laws;
pub mod devscan;
pub mod devscan_laws;
pub mod devscan_runs;
pub mod digest;
pub mod dupes;
pub mod dupes_laws;
pub mod env;
pub mod env_laws;
pub mod error;
pub mod globs;
pub mod holders;
pub mod index;
pub mod lists;
pub mod memory;
pub mod merge;
pub mod merge_laws;
pub mod merge_runs;
pub mod merge_verbatim;
pub mod order;
pub mod paths;
pub mod registry;
pub mod removal;
pub mod report;
pub mod report_laws;
pub mod rules;
pub mod rules_laws;
pub mod runner;
pub mod safety;
pub mod safety_laws;
pub mod scan_cache;
pub mod scan_cache_laws;
pub mod scanner;
pub mod scanner_laws;
pub mod session;
pub mod shortcut;
pub mod shortcut_laws;
pub mod startup;
pub mod startup_changes;
pub mod startup_cli;
pub mod startup_laws;
pub mod tally;
pub mod targets;
pub mod targets_laws;
pub mod text;
pub mod text_laws;
pub mod toolbox;
pub mod toolbox_laws;
pub mod toolrun;
pub mod types;
pub mod usn;
pub mod usn_laws;
pub mod utf16;
