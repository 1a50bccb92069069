use std::borrow::Cow;
use task::resolve::{shorten, MAX_DISPLAY_VARIABLE_LENGTH};
use task::{
    resolve, EnvMap, RevealStrategy, TaskContext, TaskId, TaskTemplate, TaskTemplates,
    TaskVariables, VariableName,
};

fn env(pairs: &[(&str, &str)]) -> EnvMap {
    let mut map = EnvMap::new();
    for (name, value) in pairs {
        map.insert(name.to_string(), value.to_string());
    }
    map
}

fn texts(list: &[&str]) -> Vec<String> {
    list.iter().map(|text| text.to_string()).collect()
}

fn context(cwd: Option<&str>, variables: Vec<(VariableName, &str)>) -> TaskContext {
    TaskContext {
        cwd: cwd.map(|dir| dir.to_string()),
        task_variables: TaskVariables::from_iter(
            variables.into_iter().map(|(name, value)| (name, value.to_string())).collect(),
        ),
    }
}

fn echo_file() -> TaskTemplate {
    TaskTemplate {
        label: "echo".to_string(),
        command: "echo $ZED_FILE".to_string(),
        ..TaskTemplate::default()
    }
}

fn in_proj() -> TaskContext {
    context(Some("/proj"), vec![(VariableName::File, "/proj/a.rs")])
}

#[test]
fn file_token_is_resolved_in_the_command() {
    let task = resolve(echo_file(), in_proj());
    let spawn = task.resolved.expect("a command to spawn");
    assert_eq!(spawn.command, "echo /proj/a.rs");
    assert_eq!(spawn.cwd, Some("/proj".to_string()));
    assert_eq!(spawn.label, "echo");
    assert_eq!(spawn.full_label, "echo");
    assert_eq!(spawn.args, Vec::<String>::new());
    assert_eq!(spawn.env, env(&[("ZED_FILE", "/proj/a.rs")]));
    assert_eq!(task.resolved_label, "echo");
    assert_eq!(task.original_task, echo_file());
    assert_eq!(task.id, spawn.id);
}

#[test]
fn unknown_custom_token_stays_in_the_command() {
    let template = TaskTemplate {
        label: "mode".to_string(),
        command: "run --mode ${ZED_CUSTOM_MODE} $ZED_FILE".to_string(),
        ..TaskTemplate::default()
    };
    let spawn = resolve(template, in_proj()).resolved.expect("a command to spawn");
    assert_eq!(spawn.command, "run --mode ${ZED_CUSTOM_MODE} /proj/a.rs");
}

#[test]
fn same_template_and_context_make_the_same_id() {
    let template = TaskTemplate { allow_concurrent_runs: false, ..echo_file() };
    let first = resolve(template.clone(), in_proj());
    let second = resolve(template, in_proj());
    assert_eq!(first.id, second.id);
    assert_eq!(first.resolved, second.resolved);
    assert_eq!(first, second);
    assert!(!first.resolved.expect("a command to spawn").allow_concurrent_runs);
}

#[test]
fn order_of_variables_does_not_change_the_task() {
    let one = context(
        Some("/proj"),
        vec![(VariableName::File, "a.rs"), (VariableName::Row, "1"), (VariableName::Column, "2")],
    );
    let other = context(
        Some("/proj"),
        vec![(VariableName::Column, "2"), (VariableName::Row, "0"), (VariableName::File, "a.rs"),
             (VariableName::Row, "1")],
    );
    assert_eq!(one, other);
    assert_eq!(resolve(echo_file(), one), resolve(echo_file(), other));
}

#[test]
fn id_is_written_part_by_part() {
    let task = resolve(echo_file(), in_proj());
    assert_eq!(
        task.id,
        TaskId(
            "4:echo14:echo $ZED_FILE0[0{-001+5:/proj1{8:ZED_FILE10:/proj/a.rs".to_string()
        )
    );
}

#[test]
fn id_holds_every_part_of_the_template() {
    let template = TaskTemplate {
        label: "é".to_string(),
        command: "0123456789".to_string(),
        args: texts(&["", "a:b"]),
        env: env(&[("B", "2"), ("A", "1")]),
        cwd: Some("".to_string()),
        use_new_terminal: true,
        allow_concurrent_runs: true,
        reveal: RevealStrategy::Never,
    };
    let task = resolve(template, TaskContext::default());
    assert_eq!(task.id.0, "1:é10:01234567892[0:3:a:b2{1:A1:11:B1:2+0:110-0{");
    assert_eq!(task.id.clone(), task.id);
}

#[test]
fn different_working_directories_make_different_ids() {
    let here = resolve(echo_file(), in_proj());
    let there = resolve(echo_file(), context(Some("/other"), vec![(VariableName::File, "/proj/a.rs")]));
    let nowhere = resolve(echo_file(), context(None, vec![(VariableName::File, "/proj/a.rs")]));
    let empty = resolve(echo_file(), context(Some(""), vec![(VariableName::File, "/proj/a.rs")]));
    assert_ne!(here.id, there.id);
    assert_ne!(here.id, nowhere.id);
    assert_ne!(nowhere.id, empty.id);
    let spawn_here = here.resolved.expect("a command to spawn");
    let spawn_there = there.resolved.expect("a command to spawn");
    assert_eq!(spawn_here.command, spawn_there.command);
}

#[test]
fn working_directory_of_the_template_does_not_hide_that_of_the_context() {
    let template = TaskTemplate { cwd: Some("/fixed".to_string()), ..echo_file() };
    let here = resolve(template.clone(), in_proj());
    let there = resolve(template, context(Some("/other"), vec![(VariableName::File, "/proj/a.rs")]));
    assert_ne!(here.id, there.id);
    assert_eq!(here.resolved.expect("a command to spawn").cwd, Some("/fixed".to_string()));
    assert_eq!(there.resolved.expect("a command to spawn").cwd, Some("/fixed".to_string()));
}

#[test]
fn different_variables_make_different_ids() {
    let one = resolve(echo_file(), in_proj());
    let other = resolve(echo_file(), context(Some("/proj"), vec![(VariableName::File, "/proj/b.rs")]));
    let more = resolve(
        echo_file(),
        context(Some("/proj"), vec![(VariableName::File, "/proj/a.rs"), (VariableName::Row, "1")]),
    );
    assert_ne!(one.id, other.id);
    assert_ne!(one.id, more.id);
}

#[test]
fn different_templates_make_different_ids() {
    let one = resolve(echo_file(), in_proj());
    for other in [
        TaskTemplate { label: "echo ".to_string(), ..echo_file() },
        TaskTemplate { command: "echo  $ZED_FILE".to_string(), ..echo_file() },
        TaskTemplate { args: texts(&[""]), ..echo_file() },
        TaskTemplate { env: env(&[("", "")]), ..echo_file() },
        TaskTemplate { cwd: Some("".to_string()), ..echo_file() },
        TaskTemplate { use_new_terminal: true, ..echo_file() },
        TaskTemplate { allow_concurrent_runs: true, ..echo_file() },
        TaskTemplate { reveal: RevealStrategy::Never, ..echo_file() },
    ] {
        assert_ne!(one.id, resolve(other, in_proj()).id);
    }
}

#[test]
fn framing_keeps_neighbours_apart() {
    let one = TaskTemplate { label: "ab".to_string(), command: "c".to_string(), ..TaskTemplate::default() };
    let other = TaskTemplate { label: "a".to_string(), command: "bc".to_string(), ..TaskTemplate::default() };
    assert_ne!(resolve(one, TaskContext::default()).id, resolve(other, TaskContext::default()).id);
    let split = TaskTemplate { args: texts(&["a", "b"]), ..echo_file() };
    let joined = TaskTemplate { args: texts(&["ab"]), ..echo_file() };
    assert_ne!(resolve(split, in_proj()).id, resolve(joined, in_proj()).id);
}

#[test]
fn template_without_tokens_is_spawned_as_written() {
    let template = TaskTemplate {
        label: "build all".to_string(),
        command: "cargo".to_string(),
        args: texts(&["build", "--all"]),
        env: env(&[("RUST_LOG", "info")]),
        cwd: Some("/work".to_string()),
        use_new_terminal: true,
        allow_concurrent_runs: true,
        reveal: RevealStrategy::Never,
    };
    let spawn = resolve(template.clone(), TaskContext::default()).resolved.expect("a command to spawn");
    assert_eq!(spawn.full_label, template.label);
    assert_eq!(spawn.label, template.label);
    assert_eq!(spawn.command, template.command);
    assert_eq!(spawn.args, template.args);
    assert_eq!(spawn.env, template.env);
    assert_eq!(spawn.cwd, template.cwd);
    assert_eq!(spawn.use_new_terminal, template.use_new_terminal);
    assert_eq!(spawn.allow_concurrent_runs, template.allow_concurrent_runs);
    assert_eq!(spawn.reveal, template.reveal);

    let spawn = resolve(template.clone(), in_proj()).resolved.expect("a command to spawn");
    assert_eq!(spawn.full_label, template.label);
    assert_eq!(spawn.label, template.label);
    assert_eq!(spawn.command, template.command);
    assert_eq!(spawn.args, template.args);
    assert_eq!(spawn.cwd, template.cwd);
    assert_eq!(spawn.env, env(&[("RUST_LOG", "info"), ("ZED_FILE", "/proj/a.rs")]));
}

#[test]
fn tokens_stay_where_the_context_has_no_variables() {
    let template = TaskTemplate {
        label: "test $ZED_SYMBOL".to_string(),
        command: "cargo test ${ZED_CUSTOM_PKG}".to_string(),
        args: texts(&["$ZED_SYMBOL", "--", "$HOME"]),
        env: env(&[("FILE", "$ZED_FILE")]),
        cwd: Some("$ZED_WORKTREE_ROOT".to_string()),
        ..TaskTemplate::default()
    };
    let task = resolve(template.clone(), context(Some("/proj"), vec![]));
    let spawn = task.resolved.expect("a command to spawn");
    assert_eq!(task.resolved_label, template.label);
    assert_eq!(spawn.full_label, template.label);
    assert_eq!(spawn.label, template.label);
    assert_eq!(spawn.command, template.command);
    assert_eq!(spawn.args, template.args);
    assert_eq!(spawn.env, template.env);
    assert_eq!(spawn.cwd, template.cwd);
}

#[test]
fn every_text_of_the_template_is_resolved() {
    let template = TaskTemplate {
        label: "test $ZED_SYMBOL".to_string(),
        command: "cargo test ${ZED_CUSTOM_PKG}".to_string(),
        args: texts(&["$ZED_SYMBOL", "--line=$ZED_ROW", "plain"]),
        env: env(&[("FILE", "$ZED_FILE"), ("$ZED_ROW", "name stays")]),
        cwd: Some("$ZED_WORKTREE_ROOT/sub".to_string()),
        ..TaskTemplate::default()
    };
    let cx = context(
        Some("/elsewhere"),
        vec![
            (VariableName::Symbol, "my_test"),
            (VariableName::Row, "7"),
            (VariableName::File, "/proj/a.rs"),
            (VariableName::WorktreeRoot, "/proj"),
            (VariableName::Custom(Cow::Borrowed("PKG")), "-p task"),
        ],
    );
    let task = resolve(template, cx);
    let spawn = task.resolved.expect("a command to spawn");
    assert_eq!(task.resolved_label, "test my_test");
    assert_eq!(spawn.full_label, "test my_test");
    assert_eq!(spawn.label, "test my_test");
    assert_eq!(spawn.command, "cargo test -p task");
    assert_eq!(spawn.args, texts(&["my_test", "--line=7", "plain"]));
    assert_eq!(spawn.cwd, Some("/proj/sub".to_string()));
    assert_eq!(
        spawn.env.into_pairs(),
        vec![
            ("$ZED_ROW".to_string(), "name stays".to_string()),
            ("FILE".to_string(), "/proj/a.rs".to_string()),
            ("ZED_CUSTOM_PKG".to_string(), "-p task".to_string()),
            ("ZED_FILE".to_string(), "/proj/a.rs".to_string()),
            ("ZED_ROW".to_string(), "7".to_string()),
            ("ZED_SYMBOL".to_string(), "my_test".to_string()),
            ("ZED_WORKTREE_ROOT".to_string(), "/proj".to_string()),
        ]
    );
}

#[test]
fn variables_overwrite_the_environment_of_the_template() {
    let template = TaskTemplate { env: env(&[("ZED_FILE", "mine"), ("OTHER", "kept")]), ..echo_file() };
    let spawn = resolve(template, in_proj()).resolved.expect("a command to spawn");
    assert_eq!(spawn.env, env(&[("OTHER", "kept"), ("ZED_FILE", "/proj/a.rs")]));
}

#[test]
fn working_directory_falls_back_to_the_context() {
    let spawn = resolve(echo_file(), context(None, vec![])).resolved.expect("a command to spawn");
    assert_eq!(spawn.cwd, None);
    let spawn = resolve(echo_file(), context(Some("/ctx"), vec![])).resolved.expect("a command to spawn");
    assert_eq!(spawn.cwd, Some("/ctx".to_string()));
    let template = TaskTemplate { cwd: Some("/tpl".to_string()), ..echo_file() };
    let spawn = resolve(template, context(Some("/ctx"), vec![])).resolved.expect("a command to spawn");
    assert_eq!(spawn.cwd, Some("/tpl".to_string()));
}

#[test]
fn template_without_a_command_cannot_be_spawned() {
    let template = TaskTemplate { label: "on $ZED_FILE".to_string(), ..TaskTemplate::default() };
    let task = resolve(template.clone(), in_proj());
    assert_eq!(task.resolved, None);
    assert_eq!(task.resolved_label, "on /proj/a.rs");
    assert_eq!(task.original_task, template);
    assert_eq!(task.id.0, "12:on $ZED_FILE0:0[0{-001+5:/proj1{8:ZED_FILE10:/proj/a.rs");
}

#[test]
fn command_that_resolves_to_nothing_can_still_be_spawned() {
    let template = TaskTemplate { command: "${ZED_CUSTOM_CMD}".to_string(), ..TaskTemplate::default() };
    let cx = context(None, vec![(VariableName::Custom(Cow::Borrowed("CMD")), "")]);
    let spawn = resolve(template, cx).resolved.expect("a command to spawn");
    assert_eq!(spawn.command, "");
    let label_less = TaskTemplate { command: " ".to_string(), ..TaskTemplate::default() };
    assert!(resolve(label_less, TaskContext::default()).resolved.is_some());
}

#[test]
fn long_values_are_cut_in_the_short_label() {
    let template = TaskTemplate {
        label: "open $ZED_FILE at $ZED_ROW".to_string(),
        command: "open".to_string(),
        ..TaskTemplate::default()
    };
    let cx = context(
        None,
        vec![(VariableName::File, "/a/very/long/path/to/file.rs"), (VariableName::Row, "123456789012345")],
    );
    let task = resolve(template, cx);
    let spawn = task.resolved.expect("a command to spawn");
    assert_eq!(spawn.full_label, "open /a/very/long/path/to/file.rs at 123456789012345");
    assert_eq!(task.resolved_label, spawn.full_label);
    assert_eq!(spawn.label, "open …path/to/file.rs at 123456789012345");
}

#[test]
fn values_are_cut_to_their_last_characters() {
    assert_eq!(MAX_DISPLAY_VARIABLE_LENGTH, 15);
    assert_eq!(shorten(""), "");
    assert_eq!(shorten("123456789012345"), "123456789012345");
    assert_eq!(shorten("1234567890123456"), "…234567890123456");
    assert_eq!(shorten("ééééééééééééééé"), "ééééééééééééééé");
    assert_eq!(shorten("xééééééééééééééé"), "…ééééééééééééééé");
}

#[test]
fn defaults_are_empty() {
    let template = TaskTemplate::default();
    assert_eq!(template.label, "");
    assert_eq!(template.command, "");
    assert!(template.args.is_empty());
    assert_eq!(template.env, EnvMap::new());
    assert_eq!(template.cwd, None);
    assert!(!template.use_new_terminal);
    assert!(!template.allow_concurrent_runs);
    assert_eq!(template.reveal, RevealStrategy::Always);
    assert_eq!(RevealStrategy::default(), RevealStrategy::Always);
    let cx = TaskContext::default();
    assert_eq!(cx.cwd, None);
    assert_eq!(cx.task_variables, TaskVariables::new());
    assert_eq!(cx.clone(), cx);
}

#[test]
fn resolved_tasks_can_be_copied() {
    let task = resolve(
        TaskTemplate { args: vec!["$ZED_FILE".to_string()], cwd: Some("/w".to_string()), ..echo_file() },
        in_proj(),
    );
    let copy = task.clone();
    assert_eq!(copy, task);
    assert_eq!(copy.resolved.clone(), task.resolved);
    assert_eq!(copy.resolved.expect("a command to spawn").args, vec!["/proj/a.rs".to_string()]);
}

#[test]
fn templates_keep_their_order() {
    let templates = TaskTemplates(vec![
        echo_file(),
        TaskTemplate { label: "second".to_string(), ..echo_file() },
    ]);
    let copy = templates.clone();
    assert_eq!(copy, templates);
    assert_eq!(copy.0[0].label, "echo");
    assert_eq!(copy.0[1].label, "second");
}
