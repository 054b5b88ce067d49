use config::nested_env_vars::expand_env_vars;

fn env(pairs: &[(&str, &str)]) -> Vec<(String, String)> {
    pairs
        .iter()
        .map(|(k, v)| (k.to_string(), v.to_string()))
        .collect()
}

#[test]
fn test_no_env_vars() {
    let input = "hello world";
    assert_eq!(expand_env_vars(input, &env(&[])), "hello world");
}

#[test]
fn test_simple_env_var_exists() {
    let vars = env(&[("TEST_VAR", "test_value")]);
    let input = "prefix ${TEST_VAR} suffix";
    assert_eq!(expand_env_vars(input, &vars), "prefix test_value suffix");
}

#[test]
fn test_simple_env_var_not_exists() {
    let vars = env(&[]);
    let input = "prefix ${NONEXISTENT_VAR} suffix";
    assert_eq!(
        expand_env_vars(input, &vars),
        "prefix ${NONEXISTENT_VAR} suffix"
    );
}

#[test]
fn test_nonexistent_with_default() {
    let vars = env(&[]);
    let input = "prefix ${NONEXISTENT_VAR:-43.7224985} suffix";
    assert_eq!(expand_env_vars(input, &vars), "prefix 43.7224985 suffix");
}

#[test]
fn test_env_var_with_default_var_exists() {
    let vars = env(&[("TEST_VAR", "actual_value")]);
    let input = "prefix ${TEST_VAR:-default_value} suffix";
    assert_eq!(expand_env_vars(input, &vars), "prefix actual_value suffix");
}

#[test]
fn test_env_var_with_default_var_not_exists() {
    let vars = env(&[]);
    let input = "prefix ${NONEXISTENT_VAR:-default_value} suffix";
    assert_eq!(expand_env_vars(input, &vars), "prefix default_value suffix");
}

#[test]
fn test_env_var_with_default_var_empty() {
    let vars = env(&[("EMPTY_VAR", "")]);
    let input = "prefix ${EMPTY_VAR:-default_value} suffix";
    assert_eq!(expand_env_vars(input, &vars), "prefix default_value suffix");
}

#[test]
fn test_multiple_env_vars() {
    let vars = env(&[("VAR1", "value1"), ("VAR2", "value2")]);
    let input = "${VAR1} and ${VAR2}";
    assert_eq!(expand_env_vars(input, &vars), "value1 and value2");
}

#[test]
fn test_multiple_env_vars_mixed_existence() {
    let vars = env(&[("EXISTS", "found")]);
    let input = "${EXISTS} and ${MISSING}";
    assert_eq!(expand_env_vars(input, &vars), "found and ${MISSING}");
}

#[test]
fn test_multiple_env_vars_with_defaults() {
    let vars = env(&[("VAR1", "actual1")]);
    let input = "${VAR1:-default1} and ${VAR2:-default2}";
    assert_eq!(expand_env_vars(input, &vars), "actual1 and default2");
}

#[test]
fn test_variable_name_with_underscores() {
    let vars = env(&[("TEST_VAR_123", "underscore_value")]);
    let input = "${TEST_VAR_123}";
    assert_eq!(expand_env_vars(input, &vars), "underscore_value");
}

#[test]
fn test_consecutive_variables() {
    let vars = env(&[("A", "a"), ("B", "b")]);
    let input = "${A}${B}";
    assert_eq!(expand_env_vars(input, &vars), "ab");
}

#[test]
fn test_variable_at_start_and_end() {
    let vars = env(&[("START", "beginning"), ("END", "end")]);
    let input = "${START} middle ${END}";
    assert_eq!(expand_env_vars(input, &vars), "beginning middle end");
}

#[test]
fn test_only_variable() {
    let vars = env(&[("ONLY_VAR", "only")]);
    let input = "${ONLY_VAR}";
    assert_eq!(expand_env_vars(input, &vars), "only");
}

#[test]
fn test_complex_scenario() {
    let vars = env(&[("HOME", "/home/user"), ("USER", "testuser")]);
    let input = "User: ${USER}, Home: ${HOME}, Editor: ${EDITOR:-vim}, Config: ${HOME}/.config";
    assert_eq!(
        expand_env_vars(input, &vars),
        "User: testuser, Home: /home/user, Editor: vim, Config: /home/user/.config"
    );
}

#[test]
fn test_colon_without_dash() {
    // This should not be treated as default syntax since it's missing the dash
    let vars = env(&[("TEST_VAR", "value")]);
    let input = "${TEST_VAR:not_default}";
    assert_eq!(expand_env_vars(input, &vars), "${TEST_VAR:not_default}");
}

#[test]
fn test_multiple_colon_dash_in_default() {
    // Only the first :- should be treated as default syntax
    let vars = env(&[]);
    let input = "${MISSING:-default:-with:-colons}";
    assert_eq!(expand_env_vars(input, &vars), "default:-with:-colons");
}

#[test]
fn test_env_var_with_numeric_value() {
    let vars = env(&[("PORT", "8080")]);
    let input = "Server running on port ${PORT}";
    assert_eq!(expand_env_vars(input, &vars), "Server running on port 8080");
}

#[test]
fn test_boolean_like_env_var() {
    let vars = env(&[("DEBUG", "true")]);
    let input = "Debug mode: ${DEBUG:-false}";
    assert_eq!(expand_env_vars(input, &vars), "Debug mode: true");
}
