//! Looper: the verified core of a workspace daemon that watches folders of
//! documents, keeps a knowledge bundle in step with them and syncs the bundle.

pub mod activity;
pub mod activity_laws;
pub mod applying;
pub mod applying_laws;
pub mod autosync;
pub mod autosync_laws;
pub mod bundle;
pub mod calendar;
pub mod calendar_laws;
pub mod cli;
pub mod cli_laws;
pub mod config;
pub mod demo;
pub mod demo_laws;
pub mod div_laws;
pub mod engine;
pub mod engine_laws;
pub mod enriching;
pub mod enriching_laws;
pub mod enrichment;
pub mod error_laws;
pub mod events;
pub mod fence;
pub mod fence_laws;
pub mod fileshare;
pub mod fileshare_laws;
pub mod frontmatter;
pub mod frontmatter_laws;
pub mod git;
pub mod git_laws;
pub mod gitignore;
pub mod ingest;
pub mod ingest_laws;
pub mod ipc;
pub mod json;
pub mod kb;
pub mod kb_laws;
pub mod lifecycle;
pub mod link;
pub mod link_laws;
pub mod linking;
pub mod natural;
pub mod natural_laws;
pub mod okf;
pub mod okf_laws;
pub mod path;
pub mod path_laws;
pub mod probe;
pub mod probe_laws;
pub mod scan;
pub mod scan_laws;
pub mod sorted;
pub mod state;
pub mod sync;
pub mod syncer;
pub mod text;
pub mod text_laws;
pub mod view_laws;
pub mod viz;
pub mod viz_laws;
pub mod watcher;
pub mod watcher_laws;
pub mod workspace;
pub mod workspace_laws;
pub mod yaml;
