//! The variables a task template may refer to, and the way they are written down.

use crate::substitute::{bare, braced};
use crate::text::{starts_with, text_between, to_chars};
use std::borrow::Cow;
use vstd::prelude::*;

verus! {

/// A prefix that all [`VariableName`] variants are prefixed with when used in environment variables
/// and similar template contexts.
pub const ZED_VARIABLE_NAME_PREFIX: &'static str = "ZED_";

/// Variables, available for use in a task context when a task template gets resolved.
#[derive(Debug, PartialEq, Eq, Hash)]
pub enum VariableName {
    /// An absolute path of the currently opened file.
    File,
    /// An absolute path of the currently opened worktree, that contains the file.
    WorktreeRoot,
    /// A symbol text, that contains latest cursor/selection position.
    Symbol,
    /// A row with the latest cursor/selection position.
    Row,
    /// A column with the latest cursor/selection position.
    Column,
    /// Text from the latest selection.
    SelectedText,
    /// Custom variable, provided by the plugin or other external source.
    /// Will be printed with `ZED_` prefix to avoid potential conflicts with other variables.
    Custom(Cow<'static, str>),
}

/// What a [`VariableName`] stands for: the variant, and for a custom variable the characters
/// of its name.
pub enum VariableKey {
    File,
    WorktreeRoot,
    Symbol,
    Row,
    Column,
    SelectedText,
    Custom(Seq<char>),
}

impl View for VariableName {
    type V = VariableKey;

    open spec fn view(&self) -> VariableKey {
        match self {
            VariableName::File => VariableKey::File,
            VariableName::WorktreeRoot => VariableKey::WorktreeRoot,
            VariableName::Symbol => VariableKey::Symbol,
            VariableName::Row => VariableKey::Row,
            VariableName::Column => VariableKey::Column,
            VariableName::SelectedText => VariableKey::SelectedText,
            VariableName::Custom(name) => VariableKey::Custom(name@),
        }
    }
}

impl VariableKey {
    /// The name under which the variable reaches the environment of a spawned process.
    pub open spec fn env_name(self) -> Seq<char> {
        ZED_VARIABLE_NAME_PREFIX@ + match self {
            VariableKey::File => "FILE"@,
            VariableKey::WorktreeRoot => "WORKTREE_ROOT"@,
            VariableKey::Symbol => "SYMBOL"@,
            VariableKey::Row => "ROW"@,
            VariableKey::Column => "COLUMN"@,
            VariableKey::SelectedText => "SELECTED_TEXT"@,
            VariableKey::Custom(name) => "CUSTOM_"@ + name,
        }
    }

    /// The token that stands for the variable in template text: `$NAME` for the built-in
    /// variables, `${NAME}` for a custom one.
    pub open spec fn template_value(self) -> Seq<char> {
        if self is Custom {
            braced(self.env_name())
        } else {
            bare(self.env_name())
        }
    }
}

/// The variable that the token `token` stands for, if it is the token of one.
pub open spec fn token_variable(token: Seq<char>) -> Option<VariableKey> {
    if exists|key: VariableKey| key.template_value() == token {
        Some(choose|key: VariableKey| key.template_value() == token)
    } else {
        None
    }
}

/// The variable that reaches the environment under `name`, if it is the name of one.
pub open spec fn env_variable(name: Seq<char>) -> Option<VariableKey> {
    if exists|key: VariableKey| key.env_name() == name {
        Some(choose|key: VariableKey| key.env_name() == name)
    } else {
        None
    }
}

/// The characters `ZED_CUSTOM_`, with which the name of every custom variable starts.
pub open spec fn custom_prefix() -> Seq<char> {
    seq!['Z', 'E', 'D', '_', 'C', 'U', 'S', 'T', 'O', 'M', '_']
}

/// The environment names, character by character.
pub proof fn lemma_env_name_chars(key: VariableKey)
    ensures
        match key {
            VariableKey::File => key.env_name() == seq!['Z', 'E', 'D', '_', 'F', 'I', 'L', 'E'],
            VariableKey::WorktreeRoot => key.env_name() == seq![
                'Z', 'E', 'D', '_', 'W', 'O', 'R', 'K', 'T', 'R', 'E', 'E', '_', 'R', 'O', 'O', 'T',
            ],
            VariableKey::Symbol => key.env_name() == seq![
                'Z', 'E', 'D', '_', 'S', 'Y', 'M', 'B', 'O', 'L',
            ],
            VariableKey::Row => key.env_name() == seq!['Z', 'E', 'D', '_', 'R', 'O', 'W'],
            VariableKey::Column => key.env_name() == seq![
                'Z', 'E', 'D', '_', 'C', 'O', 'L', 'U', 'M', 'N',
            ],
            VariableKey::SelectedText => key.env_name() == seq![
                'Z', 'E', 'D', '_', 'S', 'E', 'L', 'E', 'C', 'T', 'E', 'D', '_', 'T', 'E', 'X', 'T',
            ],
            VariableKey::Custom(name) => key.env_name() == custom_prefix() + name,
        },
{
    reveal_strlit("ZED_");
    reveal_strlit("FILE");
    reveal_strlit("WORKTREE_ROOT");
    reveal_strlit("SYMBOL");
    reveal_strlit("ROW");
    reveal_strlit("COLUMN");
    reveal_strlit("SELECTED_TEXT");
    reveal_strlit("CUSTOM_");
    match key {
        VariableKey::File => {
            assert(key.env_name() =~= seq!['Z', 'E', 'D', '_', 'F', 'I', 'L', 'E']);
        },
        VariableKey::WorktreeRoot => {
            assert(key.env_name() =~= seq![
                'Z', 'E', 'D', '_', 'W', 'O', 'R', 'K', 'T', 'R', 'E', 'E', '_', 'R', 'O', 'O', 'T',
            ]);
        },
        VariableKey::Symbol => {
            assert(key.env_name() =~= seq!['Z', 'E', 'D', '_', 'S', 'Y', 'M', 'B', 'O', 'L']);
        },
        VariableKey::Row => {
            assert(key.env_name() =~= seq!['Z', 'E', 'D', '_', 'R', 'O', 'W']);
        },
        VariableKey::Column => {
            assert(key.env_name() =~= seq!['Z', 'E', 'D', '_', 'C', 'O', 'L', 'U', 'M', 'N']);
        },
        VariableKey::SelectedText => {
            assert(key.env_name() =~= seq![
                'Z', 'E', 'D', '_', 'S', 'E', 'L', 'E', 'C', 'T', 'E', 'D', '_', 'T', 'E', 'X', 'T',
            ]);
        },
        VariableKey::Custom(name) => {
            assert("ZED_"@ + ("CUSTOM_"@ + name) =~= custom_prefix() + name);
        },
    }
}

/// Different variables have different environment names.
pub proof fn lemma_env_name_injective(a: VariableKey, b: VariableKey)
    requires
        a.env_name() == b.env_name(),
    ensures
        a == b,
{
    lemma_env_name_chars(a);
    lemma_env_name_chars(b);
    let name = a.env_name();
    if a is Custom || b is Custom {
        if a is Custom && b is Custom {
            let x = a->Custom_0;
            let y = b->Custom_0;
            assert(x =~= (custom_prefix() + x).skip(11));
            assert(y =~= (custom_prefix() + y).skip(11));
        } else {
            let custom = if a is Custom { a->Custom_0 } else { b->Custom_0 };
            assert((custom_prefix() + custom)[4] == 'C');
            assert((custom_prefix() + custom)[5] == 'U');
            assert(name[4] == 'C' && name[5] == 'U');
        }
    } else {
        assert(name.len() == name.len());
        assert(name[4] == name[4] && name[5] == name[5]);
    }
}

/// The name under which a variable reaches the environment leads back to the variable.
pub proof fn lemma_env_variable_of_name(key: VariableKey)
    ensures
        env_variable(key.env_name()) == Some(key),
{
    let found = choose|other: VariableKey| other.env_name() == key.env_name();
    lemma_env_name_injective(found, key);
}

/// Different variables are written as different tokens.
pub proof fn lemma_template_value_injective(a: VariableKey, b: VariableKey)
    requires
        a.template_value() == b.template_value(),
    ensures
        a == b,
{
    lemma_env_name_chars(a);
    lemma_env_name_chars(b);
    let token = a.template_value();
    if a is Custom && b is Custom {
        let m = a.env_name().len() as int;
        let n = b.env_name().len() as int;
        assert(token.len() == m + 3 && token.len() == n + 3);
        assert(a.env_name() =~= braced(a.env_name()).subrange(2, 2 + m));
        assert(b.env_name() =~= braced(b.env_name()).subrange(2, 2 + n));
    } else if !(a is Custom) && !(b is Custom) {
        assert(a.env_name() =~= bare(a.env_name()).skip(1));
        assert(b.env_name() =~= bare(b.env_name()).skip(1));
    } else {
        let custom = if a is Custom { a } else { b };
        let built_in = if a is Custom { b } else { a };
        assert(braced(custom.env_name())[1] == '{');
        assert(bare(built_in.env_name())[1] == 'Z');
    }
    lemma_env_name_injective(a, b);
}

/// Reading the token of a variable gives the variable back.
pub proof fn lemma_token_round_trip(key: VariableKey)
    ensures
        token_variable(key.template_value()) == Some(key),
{
    let found = choose|other: VariableKey| other.template_value() == key.template_value();
    lemma_template_value_injective(found, key);
}

impl Clone for VariableName {
    fn clone(&self) -> (copy: Self)
        ensures
            copy@ == self@,
    {
        match self {
            VariableName::File => VariableName::File,
            VariableName::WorktreeRoot => VariableName::WorktreeRoot,
            VariableName::Symbol => VariableName::Symbol,
            VariableName::Row => VariableName::Row,
            VariableName::Column => VariableName::Column,
            VariableName::SelectedText => VariableName::SelectedText,
            VariableName::Custom(custom) => match custom {
                Cow::Borrowed(text) => VariableName::Custom(Cow::Borrowed(*text)),
                Cow::Owned(text) => VariableName::Custom(Cow::Owned(text.clone())),
            },
        }
    }
}

impl VariableName {
    /// The name of the environment variable that carries this variable's value.
    pub fn to_string(&self) -> (name: String)
        ensures
            name@ == self@.env_name(),
    {
        let mut name = String::from_str(ZED_VARIABLE_NAME_PREFIX);
        match self {
            VariableName::File => name.append("FILE"),
            VariableName::WorktreeRoot => name.append("WORKTREE_ROOT"),
            VariableName::Symbol => name.append("SYMBOL"),
            VariableName::Row => name.append("ROW"),
            VariableName::Column => name.append("COLUMN"),
            VariableName::SelectedText => name.append("SELECTED_TEXT"),
            VariableName::Custom(custom) => {
                name.append("CUSTOM_");
                match custom {
                    Cow::Borrowed(text) => name.append(*text),
                    Cow::Owned(text) => name.append(text.as_str()),
                }
            },
        }
        name
    }

    /// Reads an environment name back: the variable that reaches the environment under
    /// `name`, or `None` where no variable does.
    pub fn from_env_name(name: &str) -> (parsed: Option<VariableName>)
        ensures
            match parsed {
                Some(variable) => env_variable(name@) == Some(variable@),
                None => env_variable(name@) is None,
            },
    {
        let chars = to_chars(name);
        let owned = text_between(&chars, 0, chars.len());
        assert(owned@ =~= name@);
        let mut parsed: Option<VariableName> = None;
        if VariableName::File.to_string() == owned {
            parsed = Some(VariableName::File);
        } else if VariableName::WorktreeRoot.to_string() == owned {
            parsed = Some(VariableName::WorktreeRoot);
        } else if VariableName::Symbol.to_string() == owned {
            parsed = Some(VariableName::Symbol);
        } else if VariableName::Row.to_string() == owned {
            parsed = Some(VariableName::Row);
        } else if VariableName::Column.to_string() == owned {
            parsed = Some(VariableName::Column);
        } else if VariableName::SelectedText.to_string() == owned {
            parsed = Some(VariableName::SelectedText);
        } else {
            let opening = to_chars("ZED_CUSTOM_");
            proof {
                reveal_strlit("ZED_CUSTOM_");
                assert(opening@ =~= custom_prefix());
            }
            if starts_with(&chars, &opening) {
                let custom = text_between(&chars, opening.len(), chars.len());
                let variable = VariableName::Custom(Cow::Owned(custom));
                proof {
                    lemma_env_name_chars(variable@);
                    assert(variable@.env_name() =~= name@);
                }
                parsed = Some(variable);
            } else {
                assert forall|key: VariableKey| key.env_name() != name@ by {
                    lemma_env_name_chars(key);
                    if key is Custom {
                        assert(key.env_name().subrange(0, 11) =~= custom_prefix());
                    }
                }
            }
        }
        proof {
            if parsed is Some {
                lemma_env_variable_of_name(parsed->0@);
            }
        }
        parsed
    }

    /// Reads a token back: the variable that [`VariableName::template_value`] writes as
    /// `token`, or `None` where no variable is written so.
    pub fn from_template_value(token: &str) -> (parsed: Option<VariableName>)
        ensures
            match parsed {
                Some(variable) => token_variable(token@) == Some(variable@),
                None => token_variable(token@) is None,
            },
    {
        let chars = to_chars(token);
        let owned = text_between(&chars, 0, chars.len());
        assert(owned@ =~= token@);
        let mut parsed: Option<VariableName> = None;
        if VariableName::File.template_value() == owned {
            parsed = Some(VariableName::File);
        } else if VariableName::WorktreeRoot.template_value() == owned {
            parsed = Some(VariableName::WorktreeRoot);
        } else if VariableName::Symbol.template_value() == owned {
            parsed = Some(VariableName::Symbol);
        } else if VariableName::Row.template_value() == owned {
            parsed = Some(VariableName::Row);
        } else if VariableName::Column.template_value() == owned {
            parsed = Some(VariableName::Column);
        } else if VariableName::SelectedText.template_value() == owned {
            parsed = Some(VariableName::SelectedText);
        } else {
            let opening = to_chars("${ZED_CUSTOM_");
            proof {
                reveal_strlit("${ZED_CUSTOM_");
                assert(opening@ =~= seq!['$', '{'] + custom_prefix());
            }
            if chars.len() > opening.len() && starts_with(&chars, &opening) && chars[chars.len()
                - 1] == '}' {
                let name = text_between(&chars, opening.len(), chars.len() - 1);
                let variable = VariableName::Custom(Cow::Owned(name));
                proof {
                    lemma_env_name_chars(variable@);
                    assert(variable@.template_value() =~= token@);
                }
                parsed = Some(variable);
            } else {
                assert forall|key: VariableKey| key.template_value() != token@ by {
                    lemma_env_name_chars(key);
                    if key is Custom {
                        let written = key.template_value();
                        assert(written.subrange(0, 13) =~= seq!['$', '{'] + custom_prefix());
                        assert(written[written.len() - 1] == '}');
                    }
                }
            }
        }
        proof {
            if parsed is Some {
                lemma_token_round_trip(parsed->0@);
            }
        }
        parsed
    }

    /// Generates a `$VARIABLE`-like string value to be used in templates.
    /// Custom variables are wrapped in `${}` to avoid substitution issues with whitespaces.
    pub fn template_value(&self) -> (token: String)
        ensures
            token@ == self@.template_value(),
    {
        let name = self.to_string();
        proof {
            reveal_strlit("${");
            reveal_strlit("}");
            reveal_strlit("$");
            assert("${"@ =~= seq!['$', '{']);
            assert("}"@ =~= seq!['}']);
            assert("$"@ =~= seq!['$']);
        }
        match self {
            VariableName::Custom(_) => {
                let mut token = String::from_str("${");
                token.append(name.as_str());
                token.append("}");
                token
            },
            _ => {
                let mut token = String::from_str("$");
                token.append(name.as_str());
                token
            },
        }
    }
}

} // verus!
