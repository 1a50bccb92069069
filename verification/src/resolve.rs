//! Resolution: a template and a context make a task that is ready to be spawned.

use crate::context::{env_of, ContextView, TaskContext};
use crate::env_map::{lemma_take, to_map, EnvMap, Pairs};
use crate::identity::{identify, lemma_task_id_injective, task_id, TaskId};
use crate::substitute::{
    is_bare_name, is_free_of, is_name_char, lemma_bare_token, lemma_braced_token,
    lemma_no_variables, lemma_plain_text, substitute, substituted,
};
use crate::variable::{lemma_env_name_chars, lemma_env_variable_of_name, VariableKey};
use crate::template::{RevealStrategy, TaskTemplate, TemplateView};
use crate::text::{clone_text_option, clone_texts, text_between, to_chars};
use vstd::prelude::*;

verus! {

/// The number of characters that the value of a variable may take up in the short label of a
/// task before it is cut.
pub const MAX_DISPLAY_VARIABLE_LENGTH: usize = 15;

/// The character that stands in front of a value that was cut.
pub const ELLIPSIS: char = '\u{2026}';

/// A value as the short label shows it: as it is where it has at most
/// [`MAX_DISPLAY_VARIABLE_LENGTH`] characters, else its last [`MAX_DISPLAY_VARIABLE_LENGTH`]
/// characters behind an ellipsis.
pub open spec fn shortened(value: Seq<char>) -> Seq<char> {
    if value.len() <= MAX_DISPLAY_VARIABLE_LENGTH {
        value
    } else {
        seq![ELLIPSIS] + value.skip(value.len() - MAX_DISPLAY_VARIABLE_LENGTH)
    }
}

/// The variables with every value as the short label shows it.
pub open spec fn shortened_values(variables: Map<Seq<char>, Seq<char>>) -> Map<
    Seq<char>,
    Seq<char>,
> {
    variables.map_values(|value: Seq<char>| shortened(value))
}

/// The values of `env` with the tokens of known variables replaced.
pub open spec fn substituted_values(
    env: Map<Seq<char>, Seq<char>>,
    variables: Map<Seq<char>, Seq<char>>,
) -> Map<Seq<char>, Seq<char>> {
    env.map_values(|value: Seq<char>| substituted(value, variables))
}

/// The texts of `list` with the tokens of known variables replaced.
pub open spec fn substituted_list(
    list: Seq<Seq<char>>,
    variables: Map<Seq<char>, Seq<char>>,
) -> Seq<Seq<char>> {
    list.map_values(|text: Seq<char>| substituted(text, variables))
}

/// Cuts a value for the short label.
pub fn shorten(value: &str) -> (short: String)
    ensures
        short@ == shortened(value@),
{
    let chars = to_chars(value);
    if chars.len() <= MAX_DISPLAY_VARIABLE_LENGTH {
        let short = text_between(&chars, 0, chars.len());
        assert(short@ =~= value@);
        short
    } else {
        let tail = text_between(&chars, chars.len() - MAX_DISPLAY_VARIABLE_LENGTH, chars.len());
        let mut short = String::new();
        short.push(ELLIPSIS);
        short.append(tail.as_str());
        assert(short@ =~= shortened(value@));
        short
    }
}

/// Cuts every value of `variables` for the short label.
pub fn shorten_values(variables: &EnvMap) -> (short: EnvMap)
    ensures
        short@ == shortened_values(variables@),
{
    let ghost pairs = variables.entries();
    let mut short = EnvMap::new();
    let mut i: usize = 0;
    proof {
        assert(pairs.take(0) =~= Pairs::empty());
        assert(short@ =~= shortened_values(to_map(pairs.take(0))));
    }
    while i < variables.len()
        invariant
            i <= pairs.len(),
            pairs == variables.entries(),
            short@ == shortened_values(to_map(pairs.take(i as int))),
        decreases pairs.len() - i,
    {
        let (name, value) = variables.entry(i);
        let ghost before = short@;
        short.insert(name.clone(), shorten(value.as_str()));
        proof {
            lemma_take(pairs, i + 1);
            assert(short@ =~= shortened_values(to_map(pairs.take(i + 1))));
        }
        i += 1;
    }
    proof {
        assert(pairs.take(i as int) =~= pairs);
    }
    short
}

/// Replaces the tokens of known variables in every value of `env`.
pub fn substitute_values(env: &EnvMap, variables: &EnvMap) -> (resolved: EnvMap)
    ensures
        resolved@ == substituted_values(env@, variables@),
{
    let ghost pairs = env.entries();
    let mut resolved = EnvMap::new();
    let mut i: usize = 0;
    proof {
        assert(pairs.take(0) =~= Pairs::empty());
        assert(resolved@ =~= substituted_values(to_map(pairs.take(0)), variables@));
    }
    while i < env.len()
        invariant
            i <= pairs.len(),
            pairs == env.entries(),
            resolved@ == substituted_values(to_map(pairs.take(i as int)), variables@),
        decreases pairs.len() - i,
    {
        let (name, value) = env.entry(i);
        resolved.insert(name.clone(), substitute(value.as_str(), variables));
        proof {
            lemma_take(pairs, i + 1);
            assert(resolved@ =~= substituted_values(to_map(pairs.take(i + 1)), variables@));
        }
        i += 1;
    }
    proof {
        assert(pairs.take(i as int) =~= pairs);
    }
    resolved
}

/// Replaces the tokens of known variables in every text of `list`.
pub fn substitute_list(list: &Vec<String>, variables: &EnvMap) -> (resolved: Vec<String>)
    ensures
        resolved.deep_view() == substituted_list(list.deep_view(), variables@),
{
    let ghost texts = list.deep_view();
    let mut resolved: Vec<String> = Vec::new();
    let mut i: usize = 0;
    while i < list.len()
        invariant
            i <= list.len(),
            texts == list.deep_view(),
            resolved.deep_view() == substituted_list(texts.take(i as int), variables@),
        decreases list.len() - i,
    {
        let ghost before = resolved.deep_view();
        resolved.push(substitute(list[i].as_str(), variables));
        proof {
            assert(texts[i as int] == list@[i as int]@);
            assert(resolved.deep_view() =~= before.push(substituted(texts[i as int], variables@)));
            assert(substituted_list(texts.take(i + 1), variables@) =~= before.push(
                substituted(texts[i as int], variables@),
            ));
        }
        i += 1;
    }
    proof {
        assert(texts.take(i as int) =~= texts);
    }
    resolved
}

/// Contains all information needed by Zed to spawn a new terminal tab for the given task.
#[derive(Debug, PartialEq, Eq)]
pub struct SpawnInTerminal {
    /// Id of the task to use when determining task tab affinity.
    pub id: TaskId,
    /// Full unshortened form of `label` field.
    pub full_label: String,
    /// Human readable name of the terminal tab.
    pub label: String,
    /// Executable command to spawn.
    pub command: String,
    /// Arguments to the command.
    pub args: Vec<String>,
    /// Current working directory to spawn the command into.
    pub cwd: Option<String>,
    /// Env overrides for the command, will be appended to the terminal's environment from the
    /// settings.
    pub env: EnvMap,
    /// Whether to use a new terminal tab or reuse the existing one to spawn the process.
    pub use_new_terminal: bool,
    /// Whether to allow multiple instances of the same task to be run, or rather wait for the
    /// existing ones to finish.
    pub allow_concurrent_runs: bool,
    /// What to do with the terminal pane and tab, after the command was started.
    pub reveal: RevealStrategy,
}

/// What a [`SpawnInTerminal`] holds.
pub struct SpawnView {
    pub id: Seq<char>,
    pub full_label: Seq<char>,
    pub label: Seq<char>,
    pub command: Seq<char>,
    pub args: Seq<Seq<char>>,
    pub cwd: Option<Seq<char>>,
    pub env: Map<Seq<char>, Seq<char>>,
    pub use_new_terminal: bool,
    pub allow_concurrent_runs: bool,
    pub reveal: RevealStrategy,
}

impl View for SpawnInTerminal {
    type V = SpawnView;

    open spec fn view(&self) -> SpawnView {
        SpawnView {
            id: self.id@,
            full_label: self.full_label@,
            label: self.label@,
            command: self.command@,
            args: self.args.deep_view(),
            cwd: self.cwd.deep_view(),
            env: self.env@,
            use_new_terminal: self.use_new_terminal,
            allow_concurrent_runs: self.allow_concurrent_runs,
            reveal: self.reveal,
        }
    }
}

impl Clone for SpawnInTerminal {
    fn clone(&self) -> (copy: SpawnInTerminal)
        ensures
            copy@ == self@,
    {
        SpawnInTerminal {
            id: self.id.clone(),
            full_label: self.full_label.clone(),
            label: self.label.clone(),
            command: self.command.clone(),
            args: clone_texts(&self.args),
            cwd: clone_text_option(&self.cwd),
            env: self.env.clone(),
            use_new_terminal: self.use_new_terminal,
            allow_concurrent_runs: self.allow_concurrent_runs,
            reveal: self.reveal,
        }
    }
}

/// A final form of the [`TaskTemplate`], that got resolved with a particular [`TaskContext`]
/// and now is ready to spawn the actual task.
#[derive(Debug, PartialEq, Eq)]
pub struct ResolvedTask {
    /// A way to distinguish tasks produced by the same template, but different contexts.
    pub id: TaskId,
    /// A template the task got resolved from.
    pub original_task: TaskTemplate,
    /// Full, unshortened label of the task after all resolutions are made.
    pub resolved_label: String,
    /// Further actions that need to take place after the resolved task is spawned,
    /// with all task variables resolved. Missing where the template cannot be spawned.
    pub resolved: Option<SpawnInTerminal>,
}

/// What a [`ResolvedTask`] holds.
pub struct ResolvedView {
    pub id: Seq<char>,
    pub original_task: TemplateView,
    pub resolved_label: Seq<char>,
    pub resolved: Option<SpawnView>,
}

impl View for ResolvedTask {
    type V = ResolvedView;

    open spec fn view(&self) -> ResolvedView {
        ResolvedView {
            id: self.id@,
            original_task: self.original_task@,
            resolved_label: self.resolved_label@,
            resolved: match self.resolved {
                Some(spawn) => Some(spawn@),
                None => None,
            },
        }
    }
}

impl Clone for ResolvedTask {
    fn clone(&self) -> (copy: ResolvedTask)
        ensures
            copy@ == self@,
    {
        ResolvedTask {
            id: self.id.clone(),
            original_task: self.original_task.clone(),
            resolved_label: self.resolved_label.clone(),
            resolved: match &self.resolved {
                Some(spawn) => Some(spawn.clone()),
                None => None,
            },
        }
    }
}

/// Whether a template can be spawned at all: it names a command.
pub open spec fn is_spawnable(template: TemplateView) -> bool {
    template.command.len() > 0
}

/// The directory in which the task runs: that of the template where it names one, with its
/// tokens replaced, else that of the context, if it has one.
pub open spec fn resolved_cwd(
    template: TemplateView,
    context: ContextView,
) -> Option<Seq<char>> {
    match template.cwd {
        Some(dir) => Some(substituted(dir, env_of(context.variables))),
        None => context.cwd,
    }
}

/// The environment of the task: that of the template with the tokens in its values
/// replaced, and on top of it every variable of the context under its environment name.
pub open spec fn resolved_env(template: TemplateView, context: ContextView) -> Map<
    Seq<char>,
    Seq<char>,
> {
    substituted_values(template.env, env_of(context.variables)).union_prefer_right(
        env_of(context.variables),
    )
}

/// What is handed to the terminal for the task that `template` makes in `context`.
pub open spec fn spawn_of(template: TemplateView, context: ContextView) -> SpawnView {
    let variables = env_of(context.variables);
    SpawnView {
        id: task_id(template, context),
        full_label: substituted(template.label, variables),
        label: substituted(template.label, shortened_values(variables)),
        command: substituted(template.command, variables),
        args: substituted_list(template.args, variables),
        cwd: resolved_cwd(template, context),
        env: resolved_env(template, context),
        use_new_terminal: template.use_new_terminal,
        allow_concurrent_runs: template.allow_concurrent_runs,
        reveal: template.reveal,
    }
}

/// The task that `template` makes in `context`.
pub open spec fn resolved_task(template: TemplateView, context: ContextView) -> ResolvedView {
    ResolvedView {
        id: task_id(template, context),
        original_task: template,
        resolved_label: substituted(template.label, env_of(context.variables)),
        resolved: if is_spawnable(template) {
            Some(spawn_of(template, context))
        } else {
            None
        },
    }
}

/// A task resolved without any variable is spawned just as its template says: the labels,
/// the command, the arguments and the environment are those of the template, and the
/// working directory is that of the template or else that of the context.
pub proof fn lemma_resolve_without_variables(template: TemplateView, context: ContextView)
    requires
        context.variables == Map::<VariableKey, Seq<char>>::empty(),
    ensures
        resolved_task(template, context).resolved_label == template.label,
        spawn_of(template, context).full_label == template.label,
        spawn_of(template, context).label == template.label,
        spawn_of(template, context).command == template.command,
        spawn_of(template, context).args == template.args,
        spawn_of(template, context).env == template.env,
        spawn_of(template, context).cwd == if template.cwd is Some {
            template.cwd
        } else {
            context.cwd
        },
        spawn_of(template, context).use_new_terminal == template.use_new_terminal,
        spawn_of(template, context).allow_concurrent_runs == template.allow_concurrent_runs,
        spawn_of(template, context).reveal == template.reveal,
{
    let none = Map::<Seq<char>, Seq<char>>::empty();
    assert(env_of(context.variables) =~= none);
    assert(shortened_values(none) =~= none);
    lemma_no_variables(template.label);
    lemma_no_variables(template.command);
    assert forall|i: int| 0 <= i < template.args.len() implies #[trigger] substituted_list(
        template.args,
        none,
    )[i] == template.args[i] by {
        lemma_no_variables(template.args[i]);
    }
    assert(substituted_list(template.args, none) =~= template.args);
    assert forall|name: Seq<char>| template.env.contains_key(name) implies #[trigger]
        substituted_values(template.env, none)[name] == template.env[name] by {
        lemma_no_variables(template.env[name]);
    }
    assert(substituted_values(template.env, none) =~= template.env);
    assert(template.env.union_prefer_right(none) =~= template.env);
    if template.cwd is Some {
        lemma_no_variables(template.cwd->0);
    }
}

/// A task resolved from a template without `$` is spawned just as its template says, in
/// whatever context: the labels, the command and the arguments are those of the template,
/// the working directory is that of the template or else that of the context, and the
/// environment is that of the template with the variables of the context on top.
pub proof fn lemma_resolve_plain_template(template: TemplateView, context: ContextView)
    requires
        template.is_plain(),
    ensures
        resolved_task(template, context).resolved_label == template.label,
        spawn_of(template, context).full_label == template.label,
        spawn_of(template, context).label == template.label,
        spawn_of(template, context).command == template.command,
        spawn_of(template, context).args == template.args,
        spawn_of(template, context).env == template.env.union_prefer_right(
            env_of(context.variables),
        ),
        spawn_of(template, context).cwd == if template.cwd is Some {
            template.cwd
        } else {
            context.cwd
        },
        spawn_of(template, context).use_new_terminal == template.use_new_terminal,
        spawn_of(template, context).allow_concurrent_runs == template.allow_concurrent_runs,
        spawn_of(template, context).reveal == template.reveal,
{
    let variables = env_of(context.variables);
    lemma_plain_text(template.label, variables);
    lemma_plain_text(template.label, shortened_values(variables));
    lemma_plain_text(template.command, variables);
    assert forall|i: int| 0 <= i < template.args.len() implies #[trigger] substituted_list(
        template.args,
        variables,
    )[i] == template.args[i] by {
        lemma_plain_text(template.args[i], variables);
    }
    assert(substituted_list(template.args, variables) =~= template.args);
    assert forall|name: Seq<char>| template.env.contains_key(name) implies #[trigger]
        substituted_values(template.env, variables)[name] == template.env[name] by {
        lemma_plain_text(template.env[name], variables);
    }
    assert(substituted_values(template.env, variables) =~= template.env);
    if template.cwd is Some {
        lemma_plain_text(template.cwd->0, variables);
    }
}

/// The same template in the same context makes the same task, with the same identity and
/// the same things handed to the terminal.
pub proof fn lemma_resolve_deterministic(
    template_a: TemplateView,
    context_a: ContextView,
    template_b: TemplateView,
    context_b: ContextView,
)
    requires
        template_a == template_b,
        context_a == context_b,
    ensures
        resolved_task(template_a, context_a).id == resolved_task(template_b, context_b).id,
        resolved_task(template_a, context_a).resolved == resolved_task(
            template_b,
            context_b,
        ).resolved,
        resolved_task(template_a, context_a) == resolved_task(template_b, context_b),
{
}

/// Tasks with the same identity were made from the same template in the same context, and
/// so are the same task.
pub proof fn lemma_same_id_same_task(
    template_a: TemplateView,
    context_a: ContextView,
    template_b: TemplateView,
    context_b: ContextView,
)
    requires
        template_a.is_valid(),
        template_b.is_valid(),
        context_a.is_valid(),
        context_b.is_valid(),
        resolved_task(template_a, context_a).id == resolved_task(template_b, context_b).id,
    ensures
        template_a == template_b,
        context_a == context_b,
        resolved_task(template_a, context_a) == resolved_task(template_b, context_b),
{
    lemma_task_id_injective(template_a, context_a, template_b, context_b);
}

/// One template resolved in two contexts with different working directories makes two
/// tasks with different identities.
pub proof fn lemma_resolve_distinct_cwd(
    template: TemplateView,
    context_a: ContextView,
    context_b: ContextView,
)
    requires
        template.is_valid(),
        context_a.is_valid(),
        context_b.is_valid(),
        context_a.cwd != context_b.cwd,
    ensures
        resolved_task(template, context_a).id != resolved_task(template, context_b).id,
{
    if resolved_task(template, context_a).id == resolved_task(template, context_b).id {
        lemma_task_id_injective(template, context_a, template, context_b);
    }
}

/// The token of a variable in front of `rest` resolves to the value of the variable where
/// the context knows it, and stays as it is where it does not. The token of a custom
/// variable is braced, so this holds whatever `rest` is, unless the name of the variable
/// holds a `}`. The token of a built-in variable is bare, so this holds where `rest` does
/// not go on with a character that can stand in a name.
pub proof fn lemma_variable_token(
    key: VariableKey,
    rest: Seq<char>,
    variables: Map<VariableKey, Seq<char>>,
)
    requires
        key matches VariableKey::Custom(name) ==> is_free_of(name, '}'),
        !(key is Custom) && rest.len() > 0 ==> !is_name_char(rest[0]),
    ensures
        substituted(key.template_value() + rest, env_of(variables)) == (if variables.contains_key(
            key,
        ) {
            variables[key]
        } else {
            key.template_value()
        }) + substituted(rest, env_of(variables)),
{
    let name = key.env_name();
    lemma_env_name_chars(key);
    lemma_env_variable_of_name(key);
    assert(env_of(variables).contains_key(name) == variables.contains_key(key));
    match key {
        VariableKey::Custom(custom) => {
            assert(is_free_of(name, '}'));
            lemma_braced_token(name, rest, env_of(variables));
        },
        _ => {
            assert(is_bare_name(name));
            lemma_bare_token(name, rest, env_of(variables));
        },
    }
}

/// Resolves `template` in `context`: replaces the tokens of the variables that the context
/// knows in the label, the command, the arguments, the environment values and the working
/// directory of the template, and gives the task its identity. Tokens of other names stay as
/// they are. A template without a command gives a task that cannot be spawned.
pub fn resolve(template: TaskTemplate, context: TaskContext) -> (task: ResolvedTask)
    ensures
        task@ == resolved_task(template@, context@),
        task@.original_task.is_valid(),
        context@.is_valid(),
{
    proof {
        use_type_invariant(&template.env);
        template.env.lemma_ordered();
        use_type_invariant(&context.task_variables);
        context.task_variables.lemma_listable();
    }
    let TaskContext { cwd: context_cwd, task_variables } = context;
    let variables = task_variables.into_env_variables();
    let id = identify(&template, &context_cwd, &variables);
    let full_label = substitute(template.label.as_str(), &variables);
    if template.command.as_str().unicode_len() == 0 {
        return ResolvedTask {
            id,
            original_task: template,
            resolved_label: full_label,
            resolved: None,
        };
    }
    let short_variables = shorten_values(&variables);
    let label = substitute(template.label.as_str(), &short_variables);
    let command = substitute(template.command.as_str(), &variables);
    let args = substitute_list(&template.args, &variables);
    let cwd = match &template.cwd {
        Some(dir) => Some(substitute(dir.as_str(), &variables)),
        None => context_cwd,
    };
    let mut env = substitute_values(&template.env, &variables);
    env.extend(variables);
    let spawn = SpawnInTerminal {
        id: id.clone(),
        full_label: full_label.clone(),
        label,
        command,
        args,
        cwd,
        env,
        use_new_terminal: template.use_new_terminal,
        allow_concurrent_runs: template.allow_concurrent_runs,
        reveal: template.reveal,
    };
    ResolvedTask { id, original_task: template, resolved_label: full_label, resolved: Some(spawn) }
}

} // verus!
