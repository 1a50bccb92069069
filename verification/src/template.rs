//! Task templates: what a provider of tasks writes down, before any variable is resolved.

use crate::env_map::{is_listable, EnvMap};
use crate::substitute::is_free_of;
use crate::text::{clone_text_option, clone_texts};
use vstd::prelude::*;

verus! {

/// What to do with the terminal pane and tab, after the command was started.
#[derive(Clone, Copy, Debug, PartialEq, Eq, Structural)]
pub enum RevealStrategy {
    /// Always show the terminal pane, add and focus the corresponding task's tab in it.
    Always,
    /// Do not change terminal pane focus, but still add/reuse the task's tab there.
    Never,
}

impl Default for RevealStrategy {
    fn default() -> (reveal: RevealStrategy)
        ensures
            reveal == RevealStrategy::Always,
    {
        RevealStrategy::Always
    }
}

/// A template definition of a Zed task to run.
/// May use the variables of a task context in its label, command, arguments, environment
/// values and working directory.
///
/// Template itself is not ready to spawn a task, it needs to be resolved with a task context
/// first, that contains all relevant Zed state in task variables.
#[derive(Debug, PartialEq, Eq)]
pub struct TaskTemplate {
    /// Human readable name of the task to display in the UI.
    pub label: String,
    /// Executable command to spawn.
    pub command: String,
    /// Arguments to the command.
    pub args: Vec<String>,
    /// Env overrides for the command, will be appended to the terminal's environment from the
    /// settings.
    pub env: EnvMap,
    /// Current working directory to spawn the command into, defaults to current project root.
    pub cwd: Option<String>,
    /// Whether to use a new terminal tab or reuse the existing one to spawn the process.
    pub use_new_terminal: bool,
    /// Whether to allow multiple instances of the same task to be run, or rather wait for the
    /// existing ones to finish.
    pub allow_concurrent_runs: bool,
    /// What to do with the terminal pane and tab, after the command was started.
    pub reveal: RevealStrategy,
}

/// What a [`TaskTemplate`] holds.
pub struct TemplateView {
    pub label: Seq<char>,
    pub command: Seq<char>,
    pub args: Seq<Seq<char>>,
    pub env: Map<Seq<char>, Seq<char>>,
    pub cwd: Option<Seq<char>>,
    pub use_new_terminal: bool,
    pub allow_concurrent_runs: bool,
    pub reveal: RevealStrategy,
}

impl TemplateView {
    /// The environment can be written down as a sorted list of pairs, as that of every
    /// [`TaskTemplate`] can.
    pub open spec fn is_valid(self) -> bool {
        is_listable(self.env)
    }

    /// No text of the template holds a `$`, so none holds a variable token.
    pub open spec fn is_plain(self) -> bool {
        &&& is_free_of(self.label, '$')
        &&& is_free_of(self.command, '$')
        &&& forall|i: int| 0 <= i < self.args.len() ==> is_free_of(#[trigger] self.args[i], '$')
        &&& forall|name: Seq<char>| #[trigger]
            self.env.contains_key(name) ==> is_free_of(self.env[name], '$')
        &&& self.cwd matches Some(dir) ==> is_free_of(dir, '$')
    }
}

impl View for TaskTemplate {
    type V = TemplateView;

    open spec fn view(&self) -> TemplateView {
        TemplateView {
            label: self.label@,
            command: self.command@,
            args: self.args.deep_view(),
            env: self.env@,
            cwd: self.cwd.deep_view(),
            use_new_terminal: self.use_new_terminal,
            allow_concurrent_runs: self.allow_concurrent_runs,
            reveal: self.reveal,
        }
    }
}

impl Clone for TaskTemplate {
    fn clone(&self) -> (copy: TaskTemplate)
        ensures
            copy@ == self@,
    {
        TaskTemplate {
            label: self.label.clone(),
            command: self.command.clone(),
            args: clone_texts(&self.args),
            env: self.env.clone(),
            cwd: clone_text_option(&self.cwd),
            use_new_terminal: self.use_new_terminal,
            allow_concurrent_runs: self.allow_concurrent_runs,
            reveal: self.reveal,
        }
    }
}

impl Default for TaskTemplate {
    fn default() -> (template: TaskTemplate)
        ensures
            template@ == (TemplateView {
                label: Seq::empty(),
                command: Seq::empty(),
                args: Seq::empty(),
                env: Map::empty(),
                cwd: None,
                use_new_terminal: false,
                allow_concurrent_runs: false,
                reveal: RevealStrategy::Always,
            }),
    {
        let template = TaskTemplate {
            label: String::new(),
            command: String::new(),
            args: Vec::new(),
            env: EnvMap::new(),
            cwd: None,
            use_new_terminal: false,
            allow_concurrent_runs: false,
            reveal: RevealStrategy::Always,
        };
        assert(template.args.deep_view() =~= Seq::<Seq<char>>::empty());
        template
    }
}

/// A group of task templates, in the order in which their provider gave them.
#[derive(Debug, PartialEq, Eq)]
pub struct TaskTemplates(pub Vec<TaskTemplate>);

impl Clone for TaskTemplates {
    fn clone(&self) -> (copy: TaskTemplates)
        ensures
            copy.0@.len() == self.0@.len(),
            forall|i: int| 0 <= i < self.0@.len() ==> (#[trigger] copy.0@[i])@ == self.0@[i]@,
    {
        let mut templates: Vec<TaskTemplate> = Vec::new();
        let mut i: usize = 0;
        while i < self.0.len()
            invariant
                i <= self.0@.len(),
                templates@.len() == i,
                forall|j: int| 0 <= j < i ==> (#[trigger] templates@[j])@ == self.0@[j]@,
            decreases self.0@.len() - i,
        {
            templates.push(self.0[i].clone());
            i += 1;
        }
        TaskTemplates(templates)
    }
}

} // verus!
