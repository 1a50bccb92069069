//! Where task templates come from.

use crate::template::TaskTemplates;
use vstd::prelude::*;

verus! {

/// A source produces tasks that can be scheduled.
///
/// Implementations of this trait could be e.g. a source that parses tasks from `.json` files
/// and provides process templates to be spawned; another one could be a language server
/// providing lenses with tests or a build server listing all targets for a given project.
/// `Session` is the state of the editor that a source may look at, and change, while it
/// collects its tasks.
pub trait TaskSource<Session> {
    /// Collects all tasks available for scheduling.
    fn tasks_to_schedule(&mut self, cx: &mut Session) -> TaskTemplates;
}

} // verus!
