use dockerfile_parser_rs::file::Tally;
use dockerfile_parser_rs::Dockerfile;
use dockerfile_parser_rs::Instruction;
use dockerfile_parser_rs::ParseError;

fn s(v: &str) -> String {
    String::from(v)
}

fn mock_dummy_dockerfile() -> Dockerfile {
    let instructions = vec![
        Instruction::From {
            platform: None,
            image: s("docker.io/library/fedora:latest"),
            alias: Some(s("base")),
        },
        Instruction::Run {
            mount: None,
            network: None,
            security: None,
            command: vec![s("cat"), s("/etc/os-release")],
            heredoc: None,
        },
        Instruction::From {
            platform: None,
            image: s("docker.io/library/ubuntu:latest"),
            alias: Some(s("builder")),
        },
        Instruction::Copy {
            from: Some(s("base")),
            chown: None,
            chmod: None,
            link: None,
            sources: vec![s("file.txt")],
            destination: s("/tmp/file.txt"),
        },
        Instruction::Entrypoint(vec![s("/bin/bash")]),
    ];

    Dockerfile::new(instructions)
}

#[test]
fn test_dockerfile_from_str() {
    let mut content = String::new();
    content.push_str("FROM docker.io/library/fedora:latest\n");
    content.push_str("RUN cat /etc/os-release\n");
    content.push_str("FROM docker.io/library/ubuntu:latest\n");
    content.push_str("COPY file.txt /tmp/file.txt\n");
    content.push_str("ENTRYPOINT [\"/bin/bash\"]\n");

    let dockerfile = Dockerfile::from_str(&content).unwrap();
    assert_eq!(dockerfile.steps(), 5);
    assert_eq!(dockerfile.layers(), 2);
    assert_eq!(dockerfile.stages(), 2);
}

#[test]
fn test_dockerfile_steps() {
    let dockerfile = mock_dummy_dockerfile();
    assert_eq!(dockerfile.steps(), 5);
}

#[test]
fn test_dockerfile_layers() {
    let dockerfile = mock_dummy_dockerfile();
    assert_eq!(dockerfile.layers(), 2);
}

#[test]
fn test_dockerfile_stages() {
    let dockerfile = mock_dummy_dockerfile();
    assert_eq!(dockerfile.stages(), 2);
}

#[test]
fn counts_skip_empty_lines_and_comments() {
    let mut dockerfile = mock_dummy_dockerfile();
    dockerfile.instructions.push(Instruction::Empty);
    dockerfile.instructions.push(Instruction::Comment(s("# note")));
    assert_eq!(dockerfile.steps(), 5);
    assert_eq!(dockerfile.count(Tally::Layers), 2);
    assert_eq!(Dockerfile::empty().steps(), 0);
}

#[test]
fn test_invalid_instruction_name() {
    let result = Dockerfile::from_str("MAKE love\n");
    assert!(matches!(result, Err(ParseError::UnknownInstruction(_))));
    match result {
        Err(ParseError::UnknownInstruction(k)) => assert_eq!(k, "MAKE"),
        _ => unreachable!(),
    }
}

#[test]
fn empty_lines_and_comments_are_kept() {
    let d = Dockerfile::from_str("# first\n\nFROM alpine\n").unwrap();
    assert_eq!(
        d.instructions,
        vec![
            Instruction::Comment(s("# first")),
            Instruction::Empty,
            Instruction::From { platform: None, image: s("alpine"), alias: None },
        ]
    );
}

#[test]
fn crlf_line_endings_are_removed() {
    let d = Dockerfile::from_str("FROM alpine\r\nWORKDIR /app\r\n").unwrap();
    assert_eq!(d.instructions[1], Instruction::Workdir { path: s("/app") });
}

#[test]
fn continuation_lines_are_joined_and_inner_comments_dropped() {
    let lines = vec![s("RUN apt-get update && \\"), s("# inner"), s("    apt-get install -y curl")];
    let d = Dockerfile::from_lines(&lines).unwrap();
    assert_eq!(
        d.instructions,
        vec![Instruction::Run {
            mount: None,
            network: None,
            security: None,
            command: vec![
                s("apt-get"),
                s("update"),
                s("&&"),
                s("apt-get"),
                s("install"),
                s("-y"),
                s("curl"),
            ],
            heredoc: None,
        }]
    );
}

#[test]
fn first_error_aborts_the_parse() {
    let result = Dockerfile::from_str("FROM alpine\nUSER a b\nMAKE x\n");
    assert!(matches!(result, Err(ParseError::BadNumberOfArguments(_))));
}

#[test]
fn lowercase_keyword_is_a_syntax_error() {
    let result = Dockerfile::from_str("run ls\n");
    match result {
        Err(ParseError::SyntaxError(line)) => assert_eq!(line, "run ls"),
        _ => panic!("expected a syntax error"),
    }
}

#[test]
fn to_lines_renders_each_instruction() {
    let d = mock_dummy_dockerfile();
    let lines = d.to_lines();
    assert_eq!(lines.len(), 5);
    assert_eq!(lines[0], "FROM docker.io/library/fedora:latest AS base");
    assert_eq!(lines[1], "RUN [\"cat\", \"/etc/os-release\"]");
    assert_eq!(lines[3], "COPY --from=base file.txt /tmp/file.txt");
}

#[test]
fn error_text_names_the_kind() {
    let e = ParseError::MissingArgument(s("RUN requires at least one argument"));
    assert_eq!(e.to_string(), "Missing argument: RUN requires at least one argument");
    let e = ParseError::UnknownInstruction(s("MAKE"));
    assert_eq!(e.to_string(), "Unknown instruction: MAKE");
}
