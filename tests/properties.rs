use varsubst::{
    is_var_char, is_var_char_start, substitute, substitute_with, SubstError, SubstOptions,
    VarTable,
};

fn table(pairs: &[(&str, &str)]) -> VarTable {
    let mut vars = VarTable::new();
    for (k, v) in pairs {
        vars.insert(k, v);
    }
    vars
}

fn opts(escape: bool, short_syntax: bool) -> SubstOptions {
    SubstOptions { escape, short_syntax }
}

#[test]
fn resolved_output_is_left_unchanged_by_a_second_pass() {
    let vars = table(&[("A", "alpha"), ("B", "beta")]);
    let once = substitute("x ${A} $5 ${B} end$", &vars).unwrap();
    assert_eq!(once, "x alpha $5 beta end$");
    let other = table(&[("alpha", "no")]);
    assert_eq!(substitute(&once, &other).unwrap(), once);
    assert_eq!(substitute(&once, &vars).unwrap(), once);
}

#[test]
fn resolved_short_output_is_left_unchanged_by_a_second_pass() {
    let vars = table(&[("A", "alpha")]);
    let once = substitute_with("$A-$1 ${A}", &vars, opts(true, true)).unwrap();
    assert_eq!(once, "alpha-$1 alpha");
    assert_eq!(substitute_with(&once, &vars, opts(true, true)).unwrap(), once);
}

#[test]
fn unresolved_reference_passes_through_as_written() {
    let vars = table(&[("KNOWN", "k")]);
    let result = substitute("a${MISSING_1}b${KNOWN}", &vars).unwrap();
    assert_eq!(result, "a${MISSING_1}bk");
    let result = substitute_with("a$MISSING.b", &vars, opts(true, true)).unwrap();
    assert_eq!(result, "a$MISSING.b");
}

#[test]
fn output_length_follows_the_values() {
    let vars = table(&[("LONG", "0123456789"), ("S", "")]);
    let template = "<${LONG}|${S}>";
    let result = substitute(template, &vars).unwrap();
    assert_eq!(result, "<0123456789|>");
    // template 14 chars; growth (10 - 7) + (0 - 4) = -1
    assert_eq!(result.chars().count(), 13);
}

#[test]
fn escape_round_trips() {
    let vars = VarTable::new();
    assert_eq!(substitute(r"\${X}", &vars).unwrap(), "${X}");
    assert_eq!(substitute(r"\\", &vars).unwrap(), r"\");
    assert_eq!(substitute(r"\a", &vars).unwrap(), r"\a");
    assert_eq!(substitute(r"\{\}", &vars).unwrap(), "{}");
}

#[test]
fn escapes_off_copy_backslashes() {
    let vars = table(&[("X", "v")]);
    assert_eq!(substitute_with(r"\${X}\", &vars, opts(false, false)).unwrap(), r"\v\");
}

#[test]
fn escaped_backslash_does_not_hide_a_reference() {
    let vars = table(&[("VAR", "v")]);
    assert_eq!(substitute(r"\\${VAR}", &vars).unwrap(), r"\v");
}

#[test]
fn short_syntax_off_keeps_bare_dollar_name() {
    let vars = table(&[("VAR", "value")]);
    assert_eq!(substitute("$VAR-suffix", &vars).unwrap(), "$VAR-suffix");
}

#[test]
fn invalid_name_reports_fragment_and_start() {
    let vars = VarTable::new();
    assert_eq!(
        substitute("${NA-ME}", &vars),
        Err(SubstError::InvalidVarName { name: "NA".to_string(), position: 0 })
    );
    assert_eq!(
        substitute("ab${}", &vars),
        Err(SubstError::InvalidVarName { name: String::new(), position: 2 })
    );
}

#[test]
fn unclosed_brace_reports_start() {
    let vars = VarTable::new();
    assert_eq!(substitute("Hello ${NAME", &vars), Err(SubstError::UnclosedBrace { position: 6 }));
    assert_eq!(substitute("é${", &vars), Err(SubstError::UnclosedBrace { position: 1 }));
}

#[test]
fn dollar_consumes_the_following_character() {
    let vars = table(&[("X", "v")]);
    assert_eq!(substitute("$${X}", &vars).unwrap(), "$${X}");
    assert_eq!(substitute("$$${X}", &vars).unwrap(), "$$v");
}

#[test]
fn short_name_ends_at_backslash_escape() {
    let vars = table(&[("A", "1")]);
    assert_eq!(substitute_with(r"$A\$B", &vars, opts(true, true)).unwrap(), "1$B");
}

#[test]
fn non_ascii_text_is_copied() {
    let vars = table(&[("N", "ü")]);
    assert_eq!(substitute("größe ${N} ✓", &vars).unwrap(), "größe ü ✓");
}

#[test]
fn table_insert_replaces_value() {
    let mut vars = table(&[("K", "old")]);
    vars.insert("K", "new");
    assert_eq!(substitute("${K}", &vars).unwrap(), "new");
}

#[test]
fn table_keys_are_case_sensitive() {
    let vars = table(&[("k", "lower")]);
    assert_eq!(substitute("${K}${k}", &vars).unwrap(), "${K}lower");
}

#[test]
fn default_options() {
    let o = SubstOptions::default();
    assert!(o.escape);
    assert!(!o.short_syntax);
}

#[test]
fn identifier_characters() {
    assert!(is_var_char_start('a') && is_var_char_start('Z') && is_var_char_start('_'));
    assert!(!is_var_char_start('1') && !is_var_char_start('-') && !is_var_char_start('é'));
    assert!(is_var_char('9') && is_var_char('_') && !is_var_char('.'));
}

#[test]
fn error_messages() {
    let e = SubstError::UnclosedBrace { position: 6 };
    assert_eq!(e.to_string(), "Unclosed brace at position 6");
    let e = SubstError::InvalidVarName { name: "NA".to_string(), position: 120 };
    assert_eq!(e.to_string(), "Invalid variable name 'NA' at position 120");
    let e = SubstError::InvalidVarName { name: String::new(), position: 0 };
    assert_eq!(e.to_string(), "Invalid variable name '' at position 0");
}
