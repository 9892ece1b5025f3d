use mailconf::cli::resolve_config_path;
use mailconf::config::{Bootstrap, Config};
use mailconf::errors::BootstrapError;
use mailconf::macros::{macro_table_insert, macro_table_new, replace_macros};

fn pairs(entries: &[(&str, &str)]) -> Vec<(String, String)> {
    entries.iter().map(|(k, v)| (k.to_string(), v.to_string())).collect()
}

#[test]
fn substitution_without_sentinel_is_identity() {
    let table = macro_table_new();
    let r = replace_macros("some.key", "plain value, no reference", &table).unwrap();
    assert_eq!(r, "plain value, no reference");
}

#[test]
fn substitution_is_deterministic() {
    let mut table = macro_table_new();
    macro_table_insert(&mut table, "host".to_string(), "mx1".to_string());
    let a = replace_macros("k", "name=%{host}%!", &table).unwrap();
    let b = replace_macros("k", "name=%{host}%!", &table).unwrap();
    assert_eq!(a, "name=mx1!");
    assert_eq!(a, b);
}

#[test]
fn expansion_is_not_recursive() {
    let mut table = macro_table_new();
    table_insert(&mut table, "foo", "%{bar}%");
    table_insert(&mut table, "bar", "should never appear");
    let r = replace_macros("k", "%{foo}%", &table).unwrap();
    assert_eq!(r, "%{bar}%");
}

fn table_insert(
    table: &mut ahash::AHashMap<String, String, ahash::RandomState>,
    name: &str,
    value: &str,
) {
    macro_table_insert(table, name.to_string(), value.to_string());
}

#[test]
fn lone_sentinel_halves_are_untouched() {
    let table = macro_table_new();
    let r = replace_macros("k", "100% done { not a macro }", &table).unwrap();
    assert_eq!(r, "100% done { not a macro }");
}

#[test]
fn text_around_references_is_kept() {
    let mut table = macro_table_new();
    table_insert(&mut table, "a", "1");
    table_insert(&mut table, "b", "2");
    let r = replace_macros("k", "pre %{a}% mid %{b}% post", &table).unwrap();
    assert_eq!(r, "pre 1 mid 2 post");
}

#[test]
fn empty_macro_name_resolves_against_empty_entry() {
    let main = pairs(&[("macros.", "anon"), ("key", "<%{}%>")]);
    let c = Config::init(&main, &Vec::new()).unwrap();
    assert_eq!(c.get("key").unwrap(), "<anon>");
}

#[test]
fn macro_names_are_case_insensitive() {
    let mut table = macro_table_new();
    table_insert(&mut table, "host", "mx1");
    let r = replace_macros("k", "a=%{HOST}% b=%{HoSt}%", &table).unwrap();
    assert_eq!(r, "a=mx1 b=mx1");
}

#[test]
fn unknown_macro_is_fatal_and_named() {
    let table = macro_table_new();
    let e = replace_macros("the.key", "%{missing}%", &table).unwrap_err();
    match e {
        BootstrapError::UnknownMacro { name, key } => {
            assert_eq!(name, "missing");
            assert_eq!(key, "the.key");
        }
        other => panic!("expected UnknownMacro, got {:?}", other),
    }
}

#[test]
fn unterminated_macro_is_fatal() {
    let table = macro_table_new();
    let e = replace_macros("the.key", "%{open", &table).unwrap_err();
    match e {
        BootstrapError::UnterminatedMacro { fragment, key } => {
            assert_eq!(fragment, "%{open");
            assert_eq!(key, "the.key");
        }
        other => panic!("expected UnterminatedMacro, got {:?}", other),
    }
}

#[test]
fn duplicate_include_values_collapse_to_one() {
    let main = pairs(&[
        ("include.files.0001", "/etc/extra.conf"),
        ("include.files.0002", "/etc/extra.conf"),
        ("include.files.0003", "/etc/other.conf"),
    ]);
    let b = Bootstrap::partition(&main).unwrap();
    assert_eq!(b.include_paths, vec!["/etc/extra.conf", "/etc/other.conf"]);
}

#[test]
fn include_paths_are_macro_substituted() {
    let main = pairs(&[
        ("macros.base", "/etc/mail"),
        ("include.files.a", "%{base}%/extra.conf"),
    ]);
    let b = Bootstrap::partition(&main).unwrap();
    assert_eq!(b.include_paths, vec!["/etc/mail/extra.conf"]);
}

#[test]
fn partition_reports_bad_include_path() {
    let main = pairs(&[("include.files.a", "%{nope}%/x.conf")]);
    let e = Bootstrap::partition(&main).unwrap_err();
    match e {
        BootstrapError::UnknownMacro { name, key } => {
            assert_eq!(name, "nope");
            assert_eq!(key, "include.files");
        }
        other => panic!("expected UnknownMacro, got {:?}", other),
    }
}

#[test]
fn included_file_wins_on_key_collision() {
    let main = pairs(&[("a", "1"), ("b", "keep")]);
    let included = vec![pairs(&[("a", "2")])];
    let c = Config::init(&main, &included).unwrap();
    assert_eq!(c.get("a").unwrap(), "2");
    assert_eq!(c.get("b").unwrap(), "keep");
}

#[test]
fn later_include_wins_over_earlier() {
    let main = pairs(&[("a", "1")]);
    let included = vec![pairs(&[("a", "2")]), pairs(&[("a", "3")])];
    let c = Config::init(&main, &included).unwrap();
    assert_eq!(c.get("a").unwrap(), "3");
}

#[test]
fn macros_expand_in_merged_values() {
    let main = pairs(&[("macros.host", "mx1.example.org"), ("server.name", "%{HOST}%")]);
    let included = vec![pairs(&[("greeting", "hello %{host}%")])];
    let c = Config::init(&main, &included).unwrap();
    assert_eq!(c.get("server.name").unwrap(), "mx1.example.org");
    assert_eq!(c.get("greeting").unwrap(), "hello mx1.example.org");
}

#[test]
fn directives_in_included_files_are_plain_keys() {
    let main = pairs(&[("a", "1")]);
    let included = vec![pairs(&[("macros.x", "y"), ("include.files.z", "/etc/z.conf")])];
    let c = Config::init(&main, &included).unwrap();
    assert_eq!(c.get("macros.x").unwrap(), "y");
    assert_eq!(c.get("include.files.z").unwrap(), "/etc/z.conf");
}

#[test]
fn macro_and_include_keys_leave_the_namespace() {
    let main = pairs(&[("macros.host", "mx1"), ("plain", "x")]);
    let c = Config::init(&main, &Vec::new()).unwrap();
    assert!(c.get("macros.host").is_none());
    assert_eq!(c.get("plain").unwrap(), "x");
}

#[test]
fn init_reports_first_failing_key_in_order() {
    let main = pairs(&[("zz", "%{gone}%"), ("aa", "%{gone}%")]);
    let e = Config::init(&main, &Vec::new()).unwrap_err();
    match e {
        BootstrapError::UnknownMacro { name, key } => {
            assert_eq!(name, "gone");
            assert_eq!(key, "aa");
        }
        other => panic!("expected UnknownMacro, got {:?}", other),
    }
}

#[test]
fn cli_equals_form_resolves() {
    let args = vec!["--config=/etc/x.conf".to_string()];
    let r = resolve_config_path(None, &args).unwrap();
    assert_eq!(r, "/etc/x.conf");
}

#[test]
fn cli_two_token_form_resolves() {
    let args = vec!["--config".to_string(), "/etc/x.conf".to_string()];
    let r = resolve_config_path(None, &args).unwrap();
    assert_eq!(r, "/etc/x.conf");
}

#[test]
fn cli_equals_value_is_trimmed() {
    let args = vec!["--config= /etc/x.conf ".to_string()];
    let r = resolve_config_path(None, &args).unwrap();
    assert_eq!(r, "/etc/x.conf");
}

#[test]
fn cli_no_arguments_is_missing_parameter() {
    let e = resolve_config_path(None, &Vec::new()).unwrap_err();
    assert!(matches!(e, BootstrapError::UsageError { argument: None }));
}

#[test]
fn cli_unknown_token_is_usage_error() {
    let args = vec!["--verbose".to_string(), "--config=/etc/x.conf".to_string()];
    let e = resolve_config_path(None, &args).unwrap_err();
    match e {
        BootstrapError::UsageError { argument } => {
            assert_eq!(argument.as_deref(), Some("--verbose"));
        }
        other => panic!("expected UsageError, got {:?}", other),
    }
}

#[test]
fn cli_supplied_path_wins() {
    let args = vec!["--config=/etc/ignored.conf".to_string()];
    let r = resolve_config_path(Some("/etc/given.conf".to_string()), &args).unwrap();
    assert_eq!(r, "/etc/given.conf");
}
