//! Verified core of a launcher that lets a dynamically linked executable run
//! on a host whose shared-library versions differ from the ones the
//! executable was built against.
//!
//! The pipeline has three verified stages: extracting unresolved library
//! names from a textual dependency report (`report`), choosing the best
//! available substitute for each name under a prefix/longest-name heuristic
//! (`resolver`), and planning an idempotent symlink sandbox plus the final
//! launch command (`sandbox`, `launch`, `pipeline`). All names and paths are
//! handled as byte strings, so the logic is independent of any platform
//! string type; the unverified shell around this crate performs the actual
//! process, directory and symlink operations and feeds the outcomes back in.

pub mod launch;
pub mod pipeline;
pub mod report;
pub mod resolver;
pub mod sandbox;
