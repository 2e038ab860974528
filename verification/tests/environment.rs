use shell_lexer::environment::Environment;

fn pair(name: &str, value: &str) -> (String, String) {
    (name.to_string(), value.to_string())
}

fn exported(env: &Environment) -> Vec<(String, String)> {
    let mut pairs: Vec<(String, String)> = env
        .iter_exported()
        .into_iter()
        .map(|(name, value)| (name.to_string(), value.to_string()))
        .collect();
    pairs.sort();
    pairs
}

#[test]
fn inherited_variables_are_set_and_exported() {
    let env = Environment::new(vec![pair("HOME", "/root"), pair("PATH", "/bin:/usr/bin")]);
    assert_eq!(env.get("HOME"), Some("/root"));
    assert_eq!(env.get("PATH"), Some("/bin:/usr/bin"));
    assert_eq!(env.get("SHELL"), None);
    assert_eq!(exported(&env), vec![pair("HOME", "/root"), pair("PATH", "/bin:/usr/bin")]);
}

#[test]
fn a_later_inherited_pair_replaces_an_earlier_one() {
    let env = Environment::new(vec![pair("A", "1"), pair("B", "2"), pair("A", "3")]);
    assert_eq!(env.get("A"), Some("3"));
    assert_eq!(exported(&env), vec![pair("A", "3"), pair("B", "2")]);
}

#[test]
fn assignment_keeps_the_export_flag() {
    let mut env = Environment::new(vec![pair("PATH", "/bin")]);
    env.assign("PATH", "/bin:/x".to_string());
    env.assign("local", "1".to_string());
    assert_eq!(env.get("PATH"), Some("/bin:/x"));
    assert_eq!(env.get("local"), Some("1"));
    assert_eq!(exported(&env), vec![pair("PATH", "/bin:/x")]);
    env.assign("local", "2".to_string());
    assert_eq!(env.get("local"), Some("2"));
    assert_eq!(exported(&env), vec![pair("PATH", "/bin:/x")]);
}

#[test]
fn export_with_a_value_sets_and_exports() {
    let mut env = Environment::new(Vec::new());
    env.assign("A", "1".to_string());
    env.export("A", Some("2".to_string()));
    env.export("B", Some("3".to_string()));
    assert_eq!(env.get("A"), Some("2"));
    assert_eq!(exported(&env), vec![pair("A", "2"), pair("B", "3")]);
}

#[test]
fn export_without_a_value_flips_the_flag() {
    let mut env = Environment::new(Vec::new());
    env.assign("A", "1".to_string());
    assert_eq!(exported(&env), Vec::new());
    env.export("A", None);
    env.export("NEW", None);
    assert_eq!(env.get("A"), Some("1"));
    assert_eq!(env.get("NEW"), Some(""));
    assert_eq!(exported(&env), vec![pair("A", "1"), pair("NEW", "")]);
}

#[test]
fn home_is_the_value_of_home() {
    let env = Environment::new(vec![pair("HOME", "/home/me")]);
    assert_eq!(env.home(), "/home/me");
}

#[test]
fn path_is_empty_where_unset() {
    let mut env = Environment::new(Vec::new());
    assert_eq!(env.path(), "");
    env.assign("PATH", "/bin".to_string());
    assert_eq!(env.path(), "/bin");
}

#[test]
fn names_are_compared_whole() {
    let mut env = Environment::new(vec![pair("PATH", "/bin")]);
    env.assign("PATHS", "x".to_string());
    env.assign("PAT", "y".to_string());
    assert_eq!(env.get("PATH"), Some("/bin"));
    assert_eq!(env.get("PATHS"), Some("x"));
    assert_eq!(env.get("PAT"), Some("y"));
    assert_eq!(env.get("path"), None);
    assert_eq!(env.iter_exported().len(), 1);
}
