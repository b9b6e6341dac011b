//! Incremental merge and rebase for Git.
pub mod block;
pub mod borders;
pub mod cli;
pub mod commands;
pub mod diagram;
pub mod drawing;
pub mod error;
pub mod expand;
pub mod fill;
pub mod finishing;
pub mod frontier;
pub mod git;
pub mod harmless;
pub mod history;
pub mod imerge;
pub mod kept;
pub mod known;
pub mod lineage;
pub mod manual;
pub mod merging;
pub mod outcome;
pub mod outlining;
pub mod pattern;
pub mod progress;
pub mod relations;
pub mod reparenting;
pub mod replay;
pub mod resume;
pub mod rewriting;
pub mod rowwise;
pub mod search;
pub mod simplify;
pub mod starting;
pub mod state;
pub mod store;
pub mod strategy;
pub mod talk;
pub mod text;
pub mod trace;
pub mod undoing;
pub mod work;
