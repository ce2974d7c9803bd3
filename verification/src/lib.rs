//! A JVM-free mod loader front end and the tools around it: version
//! semantics, version-constraint matching, `quilt.mod.json` /
//! `fabric.mod.json` parsing, jar discovery and multi-version dependency
//! resolution; an index of the type declarations of decompiled Java sources;
//! and the decisions of the runtime plugin and of the ptrace supervisor.

pub mod constraint;
pub mod discovery;
pub mod java;
pub mod json;
pub mod metadata;
pub mod plan;
pub mod resolve;
pub mod runtime;
pub mod solve;
pub mod text;
pub mod trace;
pub mod version;

pub use metadata::{ModCandidate, ModFormat};
pub use plan::{plan_mods, LoadPlan, MalformedMod};
pub use resolve::{default_builtins, BuiltinMod, Resolution, ResolutionError};
pub use version::Version;
