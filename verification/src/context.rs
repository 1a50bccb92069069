//! The state of the editor at the moment a task is resolved.

use crate::env_map::{
    is_listable, lemma_sorted_distinct, lemma_take, lemma_to_map_holds, pairs_view, sorted, to_map,
    EnvMap, Pairs,
};
use crate::text::clone_text_option;
use crate::variable::{
    env_variable, lemma_env_name_injective, lemma_env_variable_of_name, VariableKey, VariableName,
};
use vstd::prelude::*;

verus! {

/// The environment that a set of variables makes: each value under the environment name of
/// its variable.
pub open spec fn env_of(variables: Map<VariableKey, Seq<char>>) -> Map<Seq<char>, Seq<char>> {
    Map::new(
        |name: Seq<char>|
            env_variable(name) is Some && variables.contains_key(env_variable(name)->0),
        |name: Seq<char>| variables[env_variable(name)->0],
    )
}

/// The variables that an environment holds: each value of the environment that stands
/// under the environment name of a variable.
pub open spec fn variables_of(env: Map<Seq<char>, Seq<char>>) -> Map<VariableKey, Seq<char>> {
    Map::new(
        |key: VariableKey| env.contains_key(key.env_name()),
        |key: VariableKey| env[key.env_name()],
    )
}

/// One more value under the environment name of a variable is one more variable.
pub proof fn lemma_variables_of_insert(
    env: Map<Seq<char>, Seq<char>>,
    key: VariableKey,
    value: Seq<char>,
)
    ensures
        variables_of(env.insert(key.env_name(), value)) == variables_of(env).insert(key, value),
{
    let grown = variables_of(env.insert(key.env_name(), value));
    assert forall|other: VariableKey| #[trigger]
        grown.dom().contains(other) == variables_of(env).insert(key, value).dom().contains(
            other,
        ) by {
        if other.env_name() == key.env_name() {
            lemma_env_name_injective(other, key);
        }
    }
    assert forall|other: VariableKey| grown.dom().contains(other) implies #[trigger] grown[other]
        == variables_of(env).insert(key, value)[other] by {
        if other.env_name() == key.env_name() {
            lemma_env_name_injective(other, key);
        }
    }
    assert(grown =~= variables_of(env).insert(key, value));
}

/// What a list of variables with their values holds.
pub open spec fn variable_pairs_view(pairs: Seq<(VariableName, String)>) -> Seq<
    (VariableKey, Seq<char>),
> {
    pairs.map_values(|pair: (VariableName, String)| (pair.0@, pair.1@))
}

/// The map that comes of putting `pairs` into an empty map one after the other: of two
/// values for one variable the later one stays.
pub open spec fn collected(pairs: Seq<(VariableKey, Seq<char>)>) -> Map<VariableKey, Seq<char>>
    decreases pairs.len(),
{
    if pairs.len() == 0 {
        Map::empty()
    } else {
        collected(pairs.drop_last()).insert(pairs.last().0, pairs.last().1)
    }
}

/// Container for predefined environment variables that describe state of Zed at the time the
/// task was spawned.
#[derive(Debug, PartialEq, Eq)]
pub struct TaskVariables {
    env: EnvMap,
}

impl View for TaskVariables {
    type V = Map<VariableKey, Seq<char>>;

    closed spec fn view(&self) -> Map<VariableKey, Seq<char>> {
        variables_of(self.env@)
    }
}

impl Clone for TaskVariables {
    fn clone(&self) -> (copy: TaskVariables)
        ensures
            copy@ == self@,
    {
        let env = self.env.clone();
        proof {
            use_type_invariant(self);
            use_type_invariant(&env);
        }
        TaskVariables { env }
    }
}

impl Default for TaskVariables {
    fn default() -> (variables: TaskVariables)
        ensures
            variables@ == Map::<VariableKey, Seq<char>>::empty(),
    {
        TaskVariables::new()
    }
}

impl TaskVariables {
    /// Every name in the container is the environment name of a variable.
    #[verifier::type_invariant]
    pub closed spec fn named_by_variables(&self) -> bool {
        &&& self.env.ordered()
        &&& forall|name: Seq<char>| #[trigger]
            self.env@.contains_key(name) ==> env_variable(name) is Some
    }

    /// The variables of a container in use can be written down as a sorted environment.
    pub proof fn lemma_listable(&self)
        requires
            self.named_by_variables(),
        ensures
            is_listable(env_of(self@)),
    {
        self.env.lemma_ordered();
        assert forall|name: Seq<char>| #[trigger]
            self.env@.contains_key(name) == env_of(self@).contains_key(name) by {
            if env_variable(name) is Some {
                let key = env_variable(name)->0;
                assert(key.env_name() == name);
            }
        }
        assert(self.env@ =~= env_of(self@));
    }

    /// A container without variables.
    pub fn new() -> (variables: TaskVariables)
        ensures
            variables@ == Map::<VariableKey, Seq<char>>::empty(),
    {
        let env = EnvMap::new();
        proof {
            use_type_invariant(&env);
        }
        let variables = TaskVariables { env };
        assert(variables@ =~= Map::<VariableKey, Seq<char>>::empty());
        variables
    }

    /// Collects the variables of `pairs`. Of two values for one variable the later one stays.
    pub fn from_iter(pairs: Vec<(VariableName, String)>) -> (variables: TaskVariables)
        ensures
            variables@ == collected(variable_pairs_view(pairs@)),
    {
        let mut variables = TaskVariables::new();
        let ghost all = variable_pairs_view(pairs@);
        proof {
            assert(all.take(0) =~= Seq::empty());
        }
        for pair in it: pairs
            invariant
                all == variable_pairs_view(it.seq()),
                variables@ == collected(all.take(it.index@)),
        {
            proof {
                let n = it.index@;
                assert(all.take(n + 1).drop_last() =~= all.take(n));
                assert(all.take(n + 1).last() == (pair.0@, pair.1@));
            }
            variables.insert(pair.0, pair.1);
        }
        proof {
            assert(all.take(all.len() as int) =~= all);
        }
        variables
    }

    /// The variables with their values, in the order of their environment names. Each
    /// variable of the container comes once.
    pub fn into_pairs(self) -> (pairs: Vec<(VariableName, String)>)
        ensures
            collected(variable_pairs_view(pairs@)) == self@,
            forall|i: int, j: int|
                0 <= i < j < pairs@.len() ==> (#[trigger] pairs@[i]).0@ != (
                #[trigger] pairs@[j]).0@,
    {
        proof {
            use_type_invariant(&self);
            self.env.lemma_ordered();
        }
        let ghost named = self.env.entries();
        let entries = self.env.into_pairs();
        let mut pairs: Vec<(VariableName, String)> = Vec::new();
        proof {
            assert(named.take(0) =~= Pairs::empty());
            assert(variable_pairs_view(pairs@) =~= Seq::empty());
            assert(variables_of(to_map(named.take(0))) =~= Map::<VariableKey, Seq<char>>::empty());
        }
        for entry in it: entries
            invariant
                sorted(named),
                named == pairs_view(it.seq()),
                forall|name: Seq<char>| #[trigger]
                    to_map(named).contains_key(name) ==> env_variable(name) is Some,
                pairs@.len() == it.index@,
                forall|i: int|
                    0 <= i < pairs@.len() ==> (#[trigger] pairs@[i]).0@.env_name() == named[i].0,
                collected(variable_pairs_view(pairs@)) == variables_of(
                    to_map(named.take(it.index@)),
                ),
        {
            let ghost n = it.index@;
            let ghost before = variable_pairs_view(pairs@);
            proof {
                lemma_to_map_holds(named, n);
                lemma_take(named, n + 1);
            }
            if let Some(variable) = VariableName::from_env_name(entry.0.as_str()) {
                proof {
                    lemma_variables_of_insert(to_map(named.take(n)), variable@, entry.1@);
                }
                pairs.push((variable, entry.1));
                proof {
                    let now = variable_pairs_view(pairs@);
                    assert(now.drop_last() =~= before);
                    assert(now.last() == (variable@, entry.1@));
                }
            }
        }
        proof {
            assert(named.take(named.len() as int) =~= named);
            assert forall|i: int, j: int| 0 <= i < j < pairs@.len() implies (
            #[trigger] pairs@[i]).0@ != (#[trigger] pairs@[j]).0@ by {
                if pairs@[i].0@ == pairs@[j].0@ {
                    lemma_sorted_distinct(named, i, j);
                }
            }
        }
        pairs
    }

    /// Converts the container into a map of environment variables and their values.
    pub fn into_env_variables(self) -> (env: EnvMap)
        ensures
            env@ == env_of(self@),
    {
        proof {
            use_type_invariant(&self);
            assert forall|name: Seq<char>| #[trigger]
                self.env@.contains_key(name) == env_of(self@).contains_key(name) by {
                if env_variable(name) is Some {
                    let key = env_variable(name)->0;
                    assert(key.env_name() == name);
                }
            }
            assert(self.env@ =~= env_of(self@));
        }
        self.env
    }

    /// Inserts another variable into the container, overwriting the existing one if it already
    /// exists — in this case, the old value is returned.
    pub fn insert(&mut self, variable: VariableName, value: String) -> (previous: Option<String>)
        ensures
            final(self)@ == old(self)@.insert(variable@, value@),
            match previous {
                Some(text) => old(self)@.contains_key(variable@) && old(self)@[variable@] == text@,
                None => !old(self)@.contains_key(variable@),
            },
    {
        proof {
            use_type_invariant(&*self);
        }
        let ghost before = self@;
        let mut env = EnvMap::new();
        proof {
            use_type_invariant(&env);
        }
        core::mem::swap(&mut self.env, &mut env);
        let previous = env.insert(variable.to_string(), value);
        proof {
            lemma_env_variable_of_name(variable@);
            assert forall|key: VariableKey| #[trigger]
                env@.contains_key(key.env_name()) == before.insert(
                    variable@,
                    value@,
                ).contains_key(key) by {
                if key.env_name() == variable@.env_name() {
                    lemma_env_name_injective(key, variable@);
                }
            }
        }
        proof {
            use_type_invariant(&env);
        }
        self.env = env;
        proof {
            assert forall|key: VariableKey| #[trigger]
                self@.contains_key(key) implies self@[key] == before.insert(
                variable@,
                value@,
            )[key] by {
                if key.env_name() == variable@.env_name() {
                    lemma_env_name_injective(key, variable@);
                }
            }
            assert(self@ =~= before.insert(variable@, value@));
        }
        previous
    }

    /// Extends the container with another one, overwriting the existing variables on collision.
    pub fn extend(&mut self, other: TaskVariables)
        ensures
            final(self)@ == old(self)@.union_prefer_right(other@),
            forall|key: VariableKey| #[trigger]
                other@.contains_key(key) ==> final(self)@[key] == other@[key],
    {
        proof {
            use_type_invariant(&*self);
            use_type_invariant(&other);
        }
        let ghost before = self@;
        let mut env = EnvMap::new();
        proof {
            use_type_invariant(&env);
        }
        core::mem::swap(&mut self.env, &mut env);
        env.extend(other.env);
        proof {
            use_type_invariant(&env);
        }
        self.env = env;
        assert(self@ =~= before.union_prefer_right(other@));
    }
}

/// Keeps track of the file associated with a task and context of tasks execution (i.e. current
/// file or current function). Keeps all Zed-related state inside, used to produce a resolved
/// task out of its template.
#[derive(Debug, PartialEq, Eq)]
pub struct TaskContext {
    /// A path to a directory in which the task should be executed.
    pub cwd: Option<String>,
    /// Additional environment variables associated with a given task.
    pub task_variables: TaskVariables,
}

/// What a [`TaskContext`] holds.
pub struct ContextView {
    /// The directory in which the task should be executed.
    pub cwd: Option<Seq<char>>,
    /// The variables with their values.
    pub variables: Map<VariableKey, Seq<char>>,
}

impl ContextView {
    /// The variables can be written down as a sorted environment, as those of every
    /// [`TaskContext`] can.
    pub open spec fn is_valid(self) -> bool {
        is_listable(env_of(self.variables))
    }
}

impl View for TaskContext {
    type V = ContextView;

    open spec fn view(&self) -> ContextView {
        ContextView { cwd: self.cwd.deep_view(), variables: self.task_variables@ }
    }
}

impl Clone for TaskContext {
    fn clone(&self) -> (copy: TaskContext)
        ensures
            copy@ == self@,
    {
        TaskContext {
            cwd: clone_text_option(&self.cwd),
            task_variables: self.task_variables.clone(),
        }
    }
}

impl Default for TaskContext {
    fn default() -> (context: TaskContext)
        ensures
            context@ == (ContextView { cwd: None, variables: Map::empty() }),
    {
        TaskContext { cwd: None, task_variables: TaskVariables::new() }
    }
}

} // verus!
