//! A stack rebase and mutation engine.
//!
//! Several independent, ordered sequences of commits ("stacks") share one
//! working directory and one commit graph. This crate holds the logic that
//! moves, rewords and re-bases commits across stacks, keeps every stack's
//! head and tree in step with its commits, records conflicted rewrites as
//! data, and builds the one workspace commit that merges all stack heads.
//!
//! The engine works on values: an object database that is content-addressed
//! ([`odb`]), trees as maps from paths to contents ([`tree`], [`merge`]),
//! commits with their header fields ([`commit`]), and the history that the
//! parents of the commits span ([`history`]). On these stand the replay of
//! commits ([`rebase`]), the store of stacks ([`stack`], [`branch_trees`]),
//! the workspace commit ([`integration`]), and the operations that a caller
//! asks for: moving a commit ([`move_commits`]), rewording one ([`reword`]),
//! and listing the stacks with their classified commits ([`classifier`]).
//!
//! Every operation states in its contract what it returns and what it
//! changes, and when it fails; the laws that relate the operations are proof
//! functions beside them.

pub mod branch_trees;
pub mod bytes;
pub mod classifier;
pub mod commit;
pub mod config;
pub mod conflicts;
pub mod error;
pub mod history;
pub mod integration;
pub mod merge;
pub mod move_commits;
pub mod odb;
pub mod oid;
pub mod position;
pub mod rebase;
pub mod refs;
pub mod repository;
pub mod reword;
pub mod stack;
pub mod tree;
