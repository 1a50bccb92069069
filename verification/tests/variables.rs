use std::borrow::Cow;
use task::{TaskVariables, VariableName, ZED_VARIABLE_NAME_PREFIX};

fn custom(name: &'static str) -> VariableName {
    VariableName::Custom(Cow::Borrowed(name))
}

fn built_ins() -> Vec<VariableName> {
    vec![
        VariableName::File,
        VariableName::WorktreeRoot,
        VariableName::Symbol,
        VariableName::Row,
        VariableName::Column,
        VariableName::SelectedText,
    ]
}

#[test]
fn prefix_is_fixed() {
    assert_eq!(ZED_VARIABLE_NAME_PREFIX, "ZED_");
}

#[test]
fn built_in_variables_render_bare() {
    assert_eq!(VariableName::File.template_value(), "$ZED_FILE");
    assert_eq!(VariableName::WorktreeRoot.template_value(), "$ZED_WORKTREE_ROOT");
    assert_eq!(VariableName::Symbol.template_value(), "$ZED_SYMBOL");
    assert_eq!(VariableName::Row.template_value(), "$ZED_ROW");
    assert_eq!(VariableName::Column.template_value(), "$ZED_COLUMN");
    assert_eq!(VariableName::SelectedText.template_value(), "$ZED_SELECTED_TEXT");
}

#[test]
fn custom_variables_render_braced() {
    assert_eq!(custom("MODE").template_value(), "${ZED_CUSTOM_MODE}");
    assert_eq!(custom("my var").template_value(), "${ZED_CUSTOM_my var}");
    assert_eq!(custom("").template_value(), "${ZED_CUSTOM_}");
}

#[test]
fn environment_names_carry_the_prefix() {
    assert_eq!(VariableName::File.to_string(), "ZED_FILE");
    assert_eq!(VariableName::WorktreeRoot.to_string(), "ZED_WORKTREE_ROOT");
    assert_eq!(VariableName::Symbol.to_string(), "ZED_SYMBOL");
    assert_eq!(VariableName::Row.to_string(), "ZED_ROW");
    assert_eq!(VariableName::Column.to_string(), "ZED_COLUMN");
    assert_eq!(VariableName::SelectedText.to_string(), "ZED_SELECTED_TEXT");
    assert_eq!(custom("MODE").to_string(), "ZED_CUSTOM_MODE");
    assert_eq!(
        VariableName::Custom(Cow::Owned("FILE".to_string())).to_string(),
        "ZED_CUSTOM_FILE"
    );
}

#[test]
fn rendered_tokens_read_back() {
    for variable in built_ins() {
        let token = variable.template_value();
        assert_eq!(VariableName::from_template_value(&token), Some(variable));
    }
    for name in ["MODE", "", "my var", "a}b", "FILE", "$x", "{", "é…"] {
        let variable = custom(name);
        let token = variable.template_value();
        assert_eq!(VariableName::from_template_value(&token), Some(variable));
    }
}

#[test]
fn other_texts_are_no_tokens() {
    for text in [
        "",
        "$",
        "ZED_FILE",
        "$ZED_FILEX",
        "$ZED_FIL",
        "${ZED_FILE}",
        "$ZED_CUSTOM_MODE",
        "${ZED_CUSTOM_MODE",
        "${ZED_CUSTOM_",
        "${ZED_CUSTOM",
        " $ZED_FILE",
        "$ZED_FILE ",
        "$zed_file",
    ] {
        assert_eq!(VariableName::from_template_value(text), None, "{text:?}");
    }
}

#[test]
fn borrowed_and_owned_custom_names_are_equal() {
    assert_eq!(custom("MODE"), VariableName::Custom(Cow::Owned("MODE".to_string())));
    assert_ne!(custom("MODE"), custom("MODES"));
    assert_eq!(custom("MODE").clone(), custom("MODE"));
}

#[test]
fn insert_returns_previous_value() {
    let mut variables = TaskVariables::new();
    assert_eq!(variables.insert(VariableName::File, "a.rs".to_string()), None);
    assert_eq!(
        variables.insert(VariableName::File, "b.rs".to_string()),
        Some("a.rs".to_string())
    );
    assert_eq!(variables.insert(VariableName::Row, "1".to_string()), None);
    assert_eq!(variables.insert(custom("FILE"), "c".to_string()), None);
    assert_eq!(
        variables.insert(VariableName::File, "d.rs".to_string()),
        Some("b.rs".to_string())
    );
}

#[test]
fn extend_keeps_incoming_value() {
    let mut variables = TaskVariables::from_iter(vec![
        (VariableName::File, "old.rs".to_string()),
        (VariableName::Row, "1".to_string()),
    ]);
    let incoming = TaskVariables::from_iter(vec![
        (VariableName::File, "new.rs".to_string()),
        (custom("MODE"), "debug".to_string()),
    ]);
    variables.extend(incoming);
    let env = variables.into_env_variables();
    assert_eq!(env.len(), 3);
    assert_eq!(env.get("ZED_FILE"), Some(&"new.rs".to_string()));
    assert_eq!(env.get("ZED_ROW"), Some(&"1".to_string()));
    assert_eq!(env.get("ZED_CUSTOM_MODE"), Some(&"debug".to_string()));
}

#[test]
fn from_iter_keeps_the_later_value() {
    let variables = TaskVariables::from_iter(vec![
        (VariableName::Symbol, "a".to_string()),
        (VariableName::Symbol, "b".to_string()),
    ]);
    let env = variables.into_env_variables();
    assert_eq!(env.into_pairs(), vec![("ZED_SYMBOL".to_string(), "b".to_string())]);
}

#[test]
fn variables_become_environment_variables() {
    let variables = TaskVariables::from_iter(vec![
        (VariableName::WorktreeRoot, "/proj".to_string()),
        (custom("MODE"), "debug".to_string()),
        (VariableName::Column, "7".to_string()),
        (VariableName::File, "/proj/a.rs".to_string()),
    ]);
    assert_eq!(
        variables.into_env_variables().into_pairs(),
        vec![
            ("ZED_COLUMN".to_string(), "7".to_string()),
            ("ZED_CUSTOM_MODE".to_string(), "debug".to_string()),
            ("ZED_FILE".to_string(), "/proj/a.rs".to_string()),
            ("ZED_WORKTREE_ROOT".to_string(), "/proj".to_string()),
        ]
    );
}

#[test]
fn order_of_insertion_leaves_no_trace() {
    let mut forward = TaskVariables::new();
    forward.insert(VariableName::File, "a.rs".to_string());
    forward.insert(VariableName::Row, "3".to_string());
    forward.insert(custom("X"), "x".to_string());
    let mut backward = TaskVariables::default();
    backward.insert(custom("X"), "x".to_string());
    backward.insert(VariableName::Row, "0".to_string());
    backward.insert(VariableName::File, "a.rs".to_string());
    assert_ne!(forward, backward);
    backward.insert(VariableName::Row, "3".to_string());
    assert_eq!(forward, backward);
    assert_eq!(forward.clone(), backward);
}

#[test]
fn environment_names_read_back() {
    for variable in built_ins() {
        let name = variable.to_string();
        assert_eq!(VariableName::from_env_name(&name), Some(variable));
    }
    for name in ["MODE", "", "my var", "a}b", "FILE", "ZED_FILE"] {
        let variable = custom(name);
        assert_eq!(VariableName::from_env_name(&variable.to_string()), Some(variable));
    }
}

#[test]
fn other_texts_are_no_environment_names() {
    for text in ["", "FILE", "ZED_", "ZED_FILES", "ZED_CUSTOM", "zed_file", "$ZED_FILE", "PATH"] {
        assert_eq!(VariableName::from_env_name(text), None, "{text:?}");
    }
}

#[test]
fn variables_come_out_once_each() {
    let variables = TaskVariables::from_iter(vec![
        (VariableName::Row, "1".to_string()),
        (custom("B"), "b".to_string()),
        (VariableName::File, "a.rs".to_string()),
        (VariableName::Row, "2".to_string()),
        (custom(""), "nameless".to_string()),
    ]);
    assert_eq!(
        variables.clone().into_pairs(),
        vec![
            (custom(""), "nameless".to_string()),
            (custom("B"), "b".to_string()),
            (VariableName::File, "a.rs".to_string()),
            (VariableName::Row, "2".to_string()),
        ]
    );
    assert_eq!(TaskVariables::from_iter(variables.clone().into_pairs()), variables);
    assert_eq!(TaskVariables::new().into_pairs(), vec![]);
}
