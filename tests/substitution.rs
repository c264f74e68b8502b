use varsubst::{substitute, substitute_with, SubstError, SubstOptions, VarTable};

fn make_vars(pairs: &[(&str, &str)]) -> VarTable {
    let mut vars = VarTable::new();
    for (k, v) in pairs {
        vars.insert(k, v);
    }
    vars
}

fn short() -> SubstOptions {
    SubstOptions { escape: true, short_syntax: true }
}

#[test]
fn test_basic_substitution() {
    let vars = make_vars(&[("NAME", "World"), ("COUNT", "42")]);
    let result = substitute("Hello ${NAME}! Count: ${COUNT}", &vars).unwrap();
    assert_eq!(result, "Hello World! Count: 42");
}

#[test]
fn test_no_variables() {
    let vars = VarTable::new();
    let result = substitute("Hello World!", &vars).unwrap();
    assert_eq!(result, "Hello World!");
}

#[test]
fn test_undefined_variable() {
    let vars = make_vars(&[("NAME", "World")]);
    let result = substitute("Hello ${NAME}! ${UNDEFINED}", &vars).unwrap();
    assert_eq!(result, "Hello World! ${UNDEFINED}");
}

#[test]
fn test_empty_string() {
    let vars = VarTable::new();
    let result = substitute("", &vars).unwrap();
    assert_eq!(result, "");
}

#[test]
fn test_only_variable() {
    let vars = make_vars(&[("VAR", "value")]);
    let result = substitute("${VAR}", &vars).unwrap();
    assert_eq!(result, "value");
}

#[test]
fn test_multiple_same_variable() {
    let vars = make_vars(&[("X", "test")]);
    let result = substitute("${X} and ${X} and ${X}", &vars).unwrap();
    assert_eq!(result, "test and test and test");
}

#[test]
fn test_adjacent_variables() {
    let vars = make_vars(&[("A", "foo"), ("B", "bar")]);
    let result = substitute("${A}${B}", &vars).unwrap();
    assert_eq!(result, "foobar");
}

#[test]
fn test_unclosed_brace() {
    let vars = VarTable::new();
    let result = substitute("Hello ${NAME", &vars);
    assert!(matches!(result, Err(SubstError::UnclosedBrace { position: 6 })));
}

#[test]
fn test_empty_var_name() {
    let vars = VarTable::new();
    let result = substitute("${}", &vars);
    assert!(matches!(result, Err(SubstError::InvalidVarName { .. })));
}

#[test]
fn test_invalid_var_name() {
    let vars = VarTable::new();
    let result = substitute("${NA-ME}", &vars);
    assert!(matches!(result, Err(SubstError::InvalidVarName { .. })));
}

#[test]
fn test_literal_dollar() {
    let vars = VarTable::new();
    let result = substitute("Price: $5.99", &vars).unwrap();
    assert_eq!(result, "Price: $5.99");
}

#[test]
fn test_dollar_at_end() {
    let vars = VarTable::new();
    let result = substitute("End with $", &vars).unwrap();
    assert_eq!(result, "End with $");
}

#[test]
fn test_underscore_in_var_name() {
    let vars = make_vars(&[("MY_VAR", "value"), ("_VAR", "test")]);
    let result = substitute("${MY_VAR} ${_VAR}", &vars).unwrap();
    assert_eq!(result, "value test");
}

#[test]
fn test_numbers_in_var_name() {
    let vars = make_vars(&[("VAR123", "value")]);
    let result = substitute("${VAR123}", &vars).unwrap();
    assert_eq!(result, "value");
}

#[test]
fn test_escape_dollar() {
    let vars = make_vars(&[("PRICE", "100")]);
    let result = substitute(r"Price: \$${PRICE}", &vars).unwrap();
    assert_eq!(result, "Price: $100");
}

#[test]
fn test_escape_brace() {
    let vars = VarTable::new();
    let result = substitute(r"\${VAR\}", &vars).unwrap();
    assert_eq!(result, "${VAR}");
}

#[test]
fn test_escape_backslash() {
    let vars = VarTable::new();
    let result = substitute(r"Path: C:\\Users", &vars).unwrap();
    assert_eq!(result, r"Path: C:\Users");
}

#[test]
fn test_escape_other_char() {
    let vars = VarTable::new();
    let result = substitute(r"\a\b\c", &vars).unwrap();
    assert_eq!(result, r"\a\b\c");
}

#[test]
fn test_trailing_backslash() {
    let vars = VarTable::new();
    let result = substitute(r"End with \", &vars).unwrap();
    assert_eq!(result, r"End with \");
}

#[test]
fn test_short_syntax() {
    let vars = make_vars(&[("HOME", "/home/user"), ("USER", "alice")]);
    let result = substitute_with("User: $USER, Home: $HOME", &vars, short()).unwrap();
    assert_eq!(result, "User: alice, Home: /home/user");
}

#[test]
fn test_short_syntax_undefined() {
    let vars = make_vars(&[("VAR", "value")]);
    let result = substitute_with("$VAR $UNDEFINED", &vars, short()).unwrap();
    assert_eq!(result, "value $UNDEFINED");
}

#[test]
fn test_short_syntax_with_delimiter() {
    let vars = make_vars(&[("VAR", "value")]);
    let result = substitute_with("$VAR-suffix", &vars, short()).unwrap();
    assert_eq!(result, "value-suffix");
}

#[test]
fn test_mixed_syntax() {
    let vars = make_vars(&[("A", "foo"), ("B", "bar")]);
    let result = substitute_with("$A and ${B}", &vars, short()).unwrap();
    assert_eq!(result, "foo and bar");
}

#[test]
fn test_short_syntax_at_end() {
    let vars = make_vars(&[("VAR", "value")]);
    let result = substitute_with("End: $VAR", &vars, short()).unwrap();
    assert_eq!(result, "End: value");
}

#[test]
fn test_escape_with_short_syntax() {
    let vars = make_vars(&[("VAR", "value")]);
    let result = substitute_with(r"\$VAR $VAR", &vars, short()).unwrap();
    assert_eq!(result, "$VAR value");
}

#[test]
fn test_performance_single_pass() {
    let vars = make_vars(&[
        ("VAR1", "a"),
        ("VAR2", "b"),
        ("VAR3", "c"),
        ("VAR4", "d"),
        ("VAR5", "e"),
    ]);

    let template = "${VAR1}${VAR2}${VAR3}${VAR4}${VAR5}".repeat(100);
    let expected = "abcde".repeat(100);

    let result = substitute(&template, &vars).unwrap();
    assert_eq!(result, expected);
}

#[test]
fn test_string_and_string_types() {
    let mut vars = VarTable::new();
    vars.insert(&"KEY".to_string(), &"value".to_string());

    let result = substitute("${KEY}", &vars).unwrap();
    assert_eq!(result, "value");
}
