//! Task templates and their resolution into spawn-ready terminal commands.
//!
//! A [`TaskTemplate`] is a shell command whose text may refer to editor state through
//! variable tokens such as `$ZED_FILE`. Resolving it against a [`TaskContext`] yields a
//! [`ResolvedTask`] with every known token replaced and a [`TaskId`] that tells resolutions apart.

pub mod context;
pub mod env_map;
pub mod identity;
pub mod resolve;
pub mod source;
pub mod substitute;
pub mod template;
pub mod text;
pub mod variable;

pub use context::{TaskContext, TaskVariables};
pub use env_map::EnvMap;
pub use identity::TaskId;
pub use resolve::{resolve, ResolvedTask, SpawnInTerminal};
pub use source::TaskSource;
pub use substitute::substitute;
pub use template::{RevealStrategy, TaskTemplate, TaskTemplates};
pub use variable::{VariableName, ZED_VARIABLE_NAME_PREFIX};
