use dockerfile_parser_rs::lines::add_heredoc_newline;
use dockerfile_parser_rs::lines::process_dockerfile_content;
use dockerfile_parser_rs::lines::split_heredoc;
use dockerfile_parser_rs::lines::split_instruction_and_arguments;
use dockerfile_parser_rs::text::push_all;

fn s(v: &str) -> String {
    String::from(v)
}

#[test]
fn test_split_empty_line_fails() {
    let line = "";
    let result = split_instruction_and_arguments(line);
    assert!(result.is_err());
}

#[test]
fn test_split_lowercase_instruction_fails() {
    let line = "run arg1 arg2";
    let result = split_instruction_and_arguments(line);
    assert!(result.is_err());
}

#[test]
fn test_split_instruction_and_missing_arguments_fails() {
    let line = "RUN";
    let result = split_instruction_and_arguments(line);
    assert!(result.is_err());
}

#[test]
fn test_split_instruction_and_arguments() {
    let line = "RUN arg1 arg2";
    let result = split_instruction_and_arguments(line);
    assert!(result.is_ok());

    let (instruction, arguments) = result.unwrap();
    assert_eq!(instruction, "RUN");
    assert_eq!(arguments, vec!["arg1", "arg2"]);
}

#[test]
fn split_keeps_tabs_inside_tokens() {
    let (k, a) = split_instruction_and_arguments("RUN  a\tb   c").unwrap();
    assert_eq!(k, "RUN");
    assert_eq!(a, vec![s("a\tb"), s("c")]);
    assert!(split_instruction_and_arguments("RUN   ").is_err());
    assert!(split_instruction_and_arguments("RUN-X a").is_err());
}

#[test]
fn test_add_heredoc_newline() {
    let mut string = s("test");
    add_heredoc_newline(&mut string);
    assert_eq!(string, "test --NEWLINE-- ");
}

#[test]
fn test_split_heredoc() {
    let strings = vec![s("test1"), s("--NEWLINE--"), s("test2"), s("--NEWLINE--"), s("test3")];
    let result = split_heredoc(strings);

    assert_eq!(result.len(), 3);
    assert_eq!(result[0], vec![s("test1")]);
    assert_eq!(result[1], vec![s("test2")]);
    assert_eq!(result[2], vec![s("test3")]);
}

#[test]
fn logical_lines_of_each_state() {
    let lines = vec![
        s("# header"),
        s("  RUN a \\"),
        s("  # dropped"),
        s("  b"),
        s(""),
        s("RUN <<EOF"),
        s("  x"),
        s("EOF"),
    ];
    let out = process_dockerfile_content(&lines);
    assert_eq!(
        out,
        vec![
            s("# header"),
            s("RUN a  b"),
            s(""),
            s("RUN <<EOF --NEWLINE--   x --NEWLINE-- "),
        ]
    );
}

#[test]
fn push_all_appends() {
    let mut t = s("ab");
    push_all(&mut t, "cd");
    assert_eq!(t, "abcd");
}
