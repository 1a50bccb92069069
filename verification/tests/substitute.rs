use task::{substitute, EnvMap};

fn variables(pairs: &[(&str, &str)]) -> EnvMap {
    let mut map = EnvMap::new();
    for (name, value) in pairs {
        map.insert(name.to_string(), value.to_string());
    }
    map
}

fn editor() -> EnvMap {
    variables(&[
        ("ZED_FILE", "/proj/a.rs"),
        ("ZED_ROW", "12"),
        ("ZED_CUSTOM_MODE", "debug"),
        ("ZED_CUSTOM_my var", "spaced"),
    ])
}

#[test]
fn bare_token_is_replaced() {
    assert_eq!(substitute("echo $ZED_FILE", &editor()), "echo /proj/a.rs");
    assert_eq!(substitute("$ZED_FILE:$ZED_ROW", &editor()), "/proj/a.rs:12");
    assert_eq!(substitute("$ZED_ROW", &editor()), "12");
}

#[test]
fn braced_token_is_replaced() {
    assert_eq!(substitute("run ${ZED_CUSTOM_MODE}", &editor()), "run debug");
    assert_eq!(substitute("${ZED_FILE}", &editor()), "/proj/a.rs");
    assert_eq!(substitute("${ZED_CUSTOM_my var}!", &editor()), "spaced!");
}

#[test]
fn braced_token_ends_at_its_brace() {
    assert_eq!(substitute("${ZED_CUSTOM_MODE}ging", &editor()), "debugging");
    assert_eq!(substitute("x${ZED_ROW}0", &editor()), "x120");
    assert_eq!(substitute("${ZED_ROW}${ZED_ROW}", &editor()), "1212");
}

#[test]
fn bare_token_takes_in_the_name_characters_behind_it() {
    assert_eq!(substitute("$ZED_CUSTOM_MODEging", &editor()), "$ZED_CUSTOM_MODEging");
    assert_eq!(substitute("$ZED_ROW0", &editor()), "$ZED_ROW0");
    assert_eq!(substitute("$ZED_ROW_", &editor()), "$ZED_ROW_");
    assert_eq!(substitute("$ZED_ROWs are many", &editor()), "$ZED_ROWs are many");
}

#[test]
fn bare_token_ends_at_other_characters() {
    assert_eq!(substitute("$ZED_ROW-1", &editor()), "12-1");
    assert_eq!(substitute("$ZED_ROW.$ZED_ROW", &editor()), "12.12");
    assert_eq!(substitute("$ZED_ROW$ZED_ROW", &editor()), "1212");
    assert_eq!(substitute("$ZED_ROWé", &editor()), "12é");
    assert_eq!(substitute("($ZED_ROW)", &editor()), "(12)");
    assert_eq!(substitute("$ZED_CUSTOM_my var", &editor()), "$ZED_CUSTOM_my var");
}

#[test]
fn unknown_token_stays() {
    assert_eq!(
        substitute("run ${ZED_CUSTOM_OTHER} now", &editor()),
        "run ${ZED_CUSTOM_OTHER} now"
    );
    assert_eq!(substitute("echo $HOME $ZED_ROW", &editor()), "echo $HOME 12");
    assert_eq!(substitute("${HOME}/$ZED_SYMBOL", &editor()), "${HOME}/$ZED_SYMBOL");
    assert_eq!(substitute("${a$ZED_ROW}", &editor()), "${a$ZED_ROW}");
}

#[test]
fn dollar_without_a_name_stays() {
    assert_eq!(substitute("$", &editor()), "$");
    assert_eq!(substitute("5$ and $ 6", &editor()), "5$ and $ 6");
    assert_eq!(substitute("$$ZED_ROW", &editor()), "$12");
    assert_eq!(substitute("${ZED_ROW", &editor()), "${ZED_ROW");
    assert_eq!(substitute("${", &editor()), "${");
    assert_eq!(substitute("${}", &editor()), "${}");
    assert_eq!(substitute("$}$ZED_ROW", &editor()), "$}12");
}

#[test]
fn text_without_tokens_stays() {
    assert_eq!(substitute("", &editor()), "");
    assert_eq!(substitute("cargo test --all", &editor()), "cargo test --all");
    assert_eq!(substitute("ZED_FILE {ZED_ROW}", &editor()), "ZED_FILE {ZED_ROW}");
    assert_eq!(substitute("naïve – text…", &editor()), "naïve – text…");
}

#[test]
fn nothing_is_replaced_without_variables() {
    for text in ["echo $ZED_FILE", "${ZED_CUSTOM_MODE}", "$", "a$b${c}d", ""] {
        assert_eq!(substitute(text, &EnvMap::new()), text);
    }
}

#[test]
fn a_value_is_not_read_again() {
    let map = variables(&[("A", "$B"), ("B", "${A}"), ("C", "")]);
    assert_eq!(substitute("$A $B", &map), "$B ${A}");
    assert_eq!(substitute("${A}${B}", &map), "$B${A}");
    assert_eq!(substitute("[$C]", &map), "[]");
}

#[test]
fn names_are_held_to_the_letter() {
    let map = variables(&[("", "empty"), ("a b", "spaced"), ("x", "1"), ("X", "2")]);
    assert_eq!(substitute("${}", &map), "empty");
    assert_eq!(substitute("${a b}", &map), "spaced");
    assert_eq!(substitute("$x$X", &map), "12");
    assert_eq!(substitute("${ x}", &map), "${ x}");
}
