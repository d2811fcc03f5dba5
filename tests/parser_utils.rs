use dockerfile_parser_rs::map::KeyValueMap;
use dockerfile_parser_rs::parser::clean_exec_form;
use dockerfile_parser_rs::parser::clean_shell_form;
use dockerfile_parser_rs::parser::get_options_from;
use dockerfile_parser_rs::parser::is_exec_form;
use dockerfile_parser_rs::parser::process_key_value_pairs;
use dockerfile_parser_rs::parser::process_optional_key_value_pairs;
use dockerfile_parser_rs::quoter::Quoter;

fn s(v: &str) -> String {
    String::from(v)
}

#[test]
fn test_is_exec_form() {
    assert!(is_exec_form(&[s("[\"/usr/bin/executable\"]")]));
    assert!(is_exec_form(&[s("[\"/usr/bin/executable\", \"arg1\"]")]));
    assert!(is_exec_form(&[s("[\"/usr/bin/executable\", \"arg1\", \"arg2\"]")]));
}

#[test]
fn test_is_not_exec_form() {
    assert!(!is_exec_form(&[s("/usr/bin/executable")]));
    assert!(!is_exec_form(&[s("/usr/bin/executable arg1")]));
    assert!(!is_exec_form(&[s("/usr/bin/executable arg1 arg2")]));
}

#[test]
fn exec_form_detection_scenario() {
    assert!(is_exec_form(&[s("[\"a\"]")]));
    assert!(!is_exec_form(&[s("a"), s("b")]));
    assert!(!is_exec_form(&[]));
}

#[test]
fn test_clean_shell_form() {
    let shell_form = s("echo \"Hello, World!\"");
    let arguments: Vec<String> = shell_form.split_whitespace().map(String::from).collect();
    let cleaned = clean_shell_form(&arguments);

    assert_eq!(cleaned, vec![s("echo"), s("Hello,"), s("World!")]);
}

#[test]
fn test_clean_exec_form() {
    let exec_form = s("[\"/usr/bin/executable\", \"arg1\", \"arg2\"]");
    let arguments: Vec<String> = exec_form.split_whitespace().map(String::from).collect();
    let cleaned = clean_exec_form(&arguments);

    assert_eq!(cleaned, vec![s("/usr/bin/executable"), s("arg1"), s("arg2")]);
}

#[test]
fn test_clean_exec_form_with_spaces() {
    let exec_form = s("[\"/usr/bin/executable\", \"arg1 with spaces\", \"arg2\"]");
    let arguments: Vec<String> = exec_form.split_whitespace().map(String::from).collect();
    let cleaned = clean_exec_form(&arguments);

    assert_eq!(
        cleaned,
        vec![s("/usr/bin/executable"), s("arg1"), s("with"), s("spaces"), s("arg2")]
    );
}

#[test]
fn clean_exec_form_drops_empty_tokens() {
    assert_eq!(clean_exec_form(&[s("["), s("\"a\","), s("]")]), vec![s("a")]);
}

#[test]
fn test_get_options_from_arguments() {
    let arguments = vec![s("--option1=value1"), s("--option2=value2"), s("arg1"), s("arg2")];
    let (options, remaining) = get_options_from(&arguments);

    assert_eq!(options.get("option1"), Some(s("value1")).as_ref());
    assert_eq!(options.get("option2"), Some(s("value2")).as_ref());
    assert_eq!(remaining, vec!["arg1", "arg2"]);
}

#[test]
fn test_get_options_from_no_arguments() {
    let arguments = vec![s("--option1=value1"), s("--option2=value2")];
    let (options, remaining) = get_options_from(&arguments);

    assert_eq!(options.get("option1"), Some(s("value1")).as_ref());
    assert_eq!(options.get("option2"), Some(s("value2")).as_ref());
    assert!(remaining.is_empty());
}

#[test]
fn test_get_options_from_no_options() {
    let arguments = vec![s("arg1"), s("arg2")];
    let (options, remaining) = get_options_from(&arguments);

    assert!(options.is_empty());
    assert_eq!(remaining, vec!["arg1", "arg2"]);
}

#[test]
fn test_get_options_from_no_equals() {
    let arguments = vec![s("--option1"), s("--option2"), s("arg1"), s("arg2")];
    let (options, remaining) = get_options_from(&arguments);

    assert_eq!(options.get("option1"), Some(s("")).as_ref());
    assert_eq!(options.get("option2"), Some(s("")).as_ref());
    assert_eq!(remaining, vec!["arg1", "arg2"]);
}

#[test]
fn option_extraction_boundary() {
    let arguments = vec![s("--a=1"), s("--b=2"), s("x"), s("--c=3")];
    let (options, remaining) = get_options_from(&arguments);
    assert_eq!(options.len(), 2);
    assert_eq!(options.get("a"), Some(&s("1")));
    assert_eq!(options.get("b"), Some(&s("2")));
    assert_eq!(options.get("c"), None);
    assert_eq!(remaining, vec![s("x"), s("--c=3")]);
}

#[test]
fn later_option_replaces_earlier() {
    let (options, remaining) = get_options_from(&[s("--a=1"), s("--a=2")]);
    assert_eq!(options.len(), 1);
    assert_eq!(options.get("a"), Some(&s("2")));
    assert!(remaining.is_empty());
}

#[test]
fn test_process_key_value_pairs_without_spaces() {
    let arguments = vec![s("key1=\"value1\""), s("key2=\"value2\"")];
    let result = process_key_value_pairs(&arguments);

    assert_eq!(result.get("key1"), Some(s("value1")).as_ref());
    assert_eq!(result.get("key2"), Some(s("value2")).as_ref());
}

#[test]
fn test_process_key_value_pairs_without_spaces_and_quotes() {
    let arguments = vec![s("key1=value1"), s("key2=value2")];
    let result = process_key_value_pairs(&arguments);

    assert_eq!(result.get("key1"), Some(s("value1")).as_ref());
    assert_eq!(result.get("key2"), Some(s("value2")).as_ref());
}

#[test]
fn test_process_key_value_pairs_with_spaces_and_quotes() {
    let arguments = vec![
        s("key1=\"value1"),
        s("with"),
        s("spaces\""),
        s("key2=\"value2"),
        s("with"),
        s("spaces\""),
    ];
    let result = process_key_value_pairs(&arguments);

    assert_eq!(result.get("key1"), Some(s("value1 with spaces")).as_ref());
    assert_eq!(result.get("key2"), Some(s("value2 with spaces")).as_ref());
}

#[test]
fn key_value_aggregation_is_order_free() {
    let a = process_key_value_pairs(&[s("A=1"), s("B=2")]);
    let b = process_key_value_pairs(&[s("B=2"), s("A=1")]);
    assert_eq!(a.get("A"), Some(&s("1")));
    assert_eq!(a.get("B"), Some(&s("2")));
    assert_eq!(a.len(), 2);
    assert_eq!(a, b);
}

#[test]
fn env_tokens_scenario() {
    let m = process_key_value_pairs(&[s("KEY1=\"value"), s("one\""), s("KEY2=two")]);
    assert_eq!(m.len(), 2);
    assert_eq!(m.get("KEY1"), Some(&s("value one")));
    assert_eq!(m.get("KEY2"), Some(&s("two")));
}

#[test]
fn orphan_token_is_ignored_and_later_key_wins() {
    let m = process_key_value_pairs(&[s("orphan"), s("K=1"), s("K=2")]);
    assert_eq!(m.len(), 1);
    assert_eq!(m.get("K"), Some(&s("2")));
    assert_eq!(m.get("orphan"), None);
}

#[test]
fn test_process_optional_key_value_pairs_without_quotes() {
    let arguments = vec![s("key1=value1"), s("key2")];
    let result = process_optional_key_value_pairs(&arguments);

    assert_eq!(result.get("key1"), Some(Some(s("value1"))).as_ref());
    assert_eq!(result.get("key2"), Some(None).as_ref());
}

#[test]
fn test_process_optional_key_value_pairs_with_quotes() {
    let arguments = vec![s("key1=\"value1\""), s("key2")];
    let result = process_optional_key_value_pairs(&arguments);

    assert_eq!(result.get("key1"), Some(Some(s("value1"))).as_ref());
    assert_eq!(result.get("key2"), Some(None).as_ref());
}

#[test]
fn quoting() {
    assert_eq!(s("\"a b\"").dequote(), "a b");
    assert_eq!(s("\"a").dequote(), "\"a");
    assert_eq!(s("\"").dequote(), "\"");
    assert_eq!(s("a\"b\"c").dequote(), "a\"b\"c");
    assert_eq!(s("x").enquote(), "\"x\"");
    assert_eq!(s("").enquote(), "\"\"");
}

#[test]
fn map_keeps_keys_sorted() {
    let mut m: KeyValueMap<String> = KeyValueMap::new();
    m.insert(s("b"), s("2"));
    m.insert(s("a"), s("1"));
    m.insert(s("ab"), s("3"));
    m.insert(s("a"), s("4"));
    assert_eq!(m.len(), 3);
    let keys: Vec<String> = (0..m.len()).map(|i| m.entry(i).0.clone()).collect();
    assert_eq!(keys, vec![s("a"), s("ab"), s("b")]);
    assert_eq!(m.get("a"), Some(&s("4")));
    assert_eq!(m.clone(), m);
}
