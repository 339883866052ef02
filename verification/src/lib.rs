//! A mirrored directory of links. Source files and directories are walked,
//! each accepted file's destination under a root is computed by a small
//! layout policy, candidates are filtered through scoped glob patterns,
//! and link creation is planned idempotently: a one-shot lazy purge,
//! lazily ensured destination directories, and one link per accepted file.

pub mod builder;
pub mod glob;
pub mod path;
