use dockerfile_parser_rs::ast::Protocol;
use dockerfile_parser_rs::instructions::add;
use dockerfile_parser_rs::instructions::arg;
use dockerfile_parser_rs::instructions::cmd;
use dockerfile_parser_rs::instructions::copy;
use dockerfile_parser_rs::instructions::entrypoint;
use dockerfile_parser_rs::instructions::expose;
use dockerfile_parser_rs::instructions::from;
use dockerfile_parser_rs::instructions::label;
use dockerfile_parser_rs::instructions::run;
use dockerfile_parser_rs::instructions::shell;
use dockerfile_parser_rs::instructions::stopsignal;
use dockerfile_parser_rs::instructions::user;
use dockerfile_parser_rs::instructions::volume;
use dockerfile_parser_rs::instructions::workdir;
use dockerfile_parser_rs::Dockerfile;
use dockerfile_parser_rs::Instruction;
use dockerfile_parser_rs::ParseError;

fn s(v: &str) -> String {
    String::from(v)
}

fn toks(v: &[&str]) -> Vec<String> {
    v.iter().map(|t| s(t)).collect()
}

#[test]
fn test_add() {
    let arguments = toks(&[
        "--checksum=sha256:abc123",
        "--chown=root",
        "--chmod=755",
        "--link=false",
        "file.txt",
        "/tmp/file.txt",
    ]);
    let result = add::parse(&arguments).unwrap();

    assert_eq!(
        result,
        Instruction::Add {
            checksum: Some(s("sha256:abc123")),
            chown: Some(s("root")),
            chmod: Some(s("755")),
            link: Some(s("false")),
            sources: vec![s("file.txt")],
            destination: s("/tmp/file.txt"),
        }
    )
}

#[test]
fn add_bare_link_means_true_and_quotes_are_removed() {
    let result = add::parse(&toks(&["--link", "\"a b\"", "c", "\"/dst\""])).unwrap();
    assert_eq!(
        result,
        Instruction::Add {
            checksum: None,
            chown: None,
            chmod: None,
            link: Some(s("true")),
            sources: vec![s("a b"), s("c")],
            destination: s("/dst"),
        }
    );
}

#[test]
fn add_needs_two_arguments() {
    assert!(matches!(add::parse(&toks(&["--chown=root", "only"])), Err(ParseError::MissingArgument(_))));
}

#[test]
fn test_copy() {
    let arguments = toks(&[
        "--from=builder",
        "--chown=root",
        "--chmod=755",
        "--link=false",
        "file.txt",
        "/tmp/file.txt",
    ]);
    let result = copy::parse(&arguments).unwrap();

    assert_eq!(
        result,
        Instruction::Copy {
            from: Some(s("builder")),
            chown: Some(s("root")),
            chmod: Some(s("755")),
            link: Some(s("false")),
            sources: vec![s("file.txt")],
            destination: s("/tmp/file.txt"),
        }
    );
}

#[test]
fn copy_needs_two_arguments() {
    assert!(matches!(copy::parse(&toks(&[])), Err(ParseError::MissingArgument(_))));
}

#[test]
fn test_from_with_alias() {
    let arguments = toks(&["ubuntu:latest", "AS", "builder"]);
    let result = from::parse(&arguments).unwrap();

    assert_eq!(
        result,
        Instruction::From {
            platform: None,
            image: s("ubuntu:latest"),
            alias: Some(s("builder")),
        }
    );
}

#[test]
fn test_from_without_alias() {
    let arguments = toks(&["ubuntu:latest"]);
    let result = from::parse(&arguments).unwrap();

    assert_eq!(
        result,
        Instruction::From { platform: None, image: s("ubuntu:latest"), alias: None }
    );
}

#[test]
fn test_from_with_invalid_alias() {
    let arguments = toks(&["ubuntu:latest", "AS"]);
    let result = from::parse(&arguments);

    assert!(result.is_err());
}

#[test]
fn from_with_platform_and_missing_image() {
    let result = from::parse(&toks(&["--platform=linux/arm64", "alpine"])).unwrap();
    assert_eq!(
        result,
        Instruction::From { platform: Some(s("linux/arm64")), image: s("alpine"), alias: None }
    );
    assert!(matches!(from::parse(&toks(&["--platform=linux/arm64"])), Err(ParseError::MissingArgument(_))));
}

#[test]
fn from_line_scenarios() {
    let d = Dockerfile::from_str("FROM ubuntu:latest AS builder").unwrap();
    assert_eq!(
        d.instructions,
        vec![Instruction::From { platform: None, image: s("ubuntu:latest"), alias: Some(s("builder")) }]
    );
    let e = Dockerfile::from_str("FROM ubuntu:latest AS");
    assert!(matches!(e, Err(ParseError::MissingArgument(_))));
}

#[test]
fn test_run() {
    let arguments = toks(&[
        "--mount=type=bind,source=/host/path,target=/container/path",
        "--network=host",
        "--security=seccomp",
        "cat",
        "/etc/os-release",
    ]);
    let result = run::parse(&arguments).unwrap();

    assert_eq!(
        result,
        Instruction::Run {
            mount: Some(s("type=bind,source=/host/path,target=/container/path")),
            network: Some(s("host")),
            security: Some(s("seccomp")),
            command: vec![s("cat"), s("/etc/os-release")],
            heredoc: None,
        }
    );
}

#[test]
fn run_needs_a_command() {
    assert!(matches!(run::parse(&toks(&["--network=none"])), Err(ParseError::MissingArgument(_))));
}

#[test]
fn run_exec_form() {
    let result = run::parse(&toks(&["[\"echo\",", "\"hi\"]"])).unwrap();
    assert_eq!(
        result,
        Instruction::Run {
            mount: None,
            network: None,
            security: None,
            command: vec![s("echo"), s("hi")],
            heredoc: None,
        }
    );
}

#[test]
fn heredoc_scenario() {
    let lines = toks(&["RUN <<EOF", "echo hi", "EOF"]);
    let d = Dockerfile::from_lines(&lines).unwrap();
    assert_eq!(
        d.instructions,
        vec![Instruction::Run {
            mount: None,
            network: None,
            security: None,
            command: vec![s("<<EOF")],
            heredoc: Some(vec![s("echo hi")]),
        }]
    );
}

#[test]
fn heredoc_keeps_leading_tabs() {
    let lines = toks(&["RUN python <<EOF", "def main():", "\tprint(42)", "EOF", "USER app"]);
    let d = Dockerfile::from_lines(&lines).unwrap();
    assert_eq!(
        d.instructions[0],
        Instruction::Run {
            mount: None,
            network: None,
            security: None,
            command: vec![s("python"), s("<<EOF")],
            heredoc: Some(vec![s("def main():"), s("\tprint(42)")]),
        }
    );
    assert_eq!(d.instructions[1], Instruction::User { user: s("app"), group: None });
}

#[test]
fn cmd_shell_and_exec_forms() {
    assert_eq!(cmd::parse(&toks(&["echo", "\"hi\""])), Instruction::Cmd(toks(&["echo", "hi"])));
    assert_eq!(
        cmd::parse(&toks(&["[\"/bin/sh\",", "\"-c\"]"])),
        Instruction::Cmd(toks(&["/bin/sh", "-c"]))
    );
}

#[test]
fn entrypoint_and_volume_forms() {
    assert_eq!(
        entrypoint::parse(&toks(&["[\"/entrypoint.sh\"]"])),
        Instruction::Entrypoint(toks(&["/entrypoint.sh"]))
    );
    assert_eq!(
        volume::parse(&toks(&["/data", "/logs"])),
        Instruction::Volume { mounts: toks(&["/data", "/logs"]) }
    );
}

#[test]
fn shell_requires_exec_form() {
    assert!(matches!(shell::parse(&toks(&["/bin/sh", "-c"])), Err(ParseError::SyntaxError(_))));
    assert_eq!(
        shell::parse(&toks(&["[\"/bin/bash\",", "\"-c\"]"])).unwrap(),
        Instruction::Shell(toks(&["/bin/bash", "-c"]))
    );
}

#[test]
fn env_and_label_pairs() {
    let e = dockerfile_parser_rs::instructions::env::parse(&toks(&["KEY1=\"value", "one\"", "KEY2=two"]));
    match e {
        Instruction::Env(m) => {
            assert_eq!(m.len(), 2);
            assert_eq!(m.get("KEY1"), Some(&s("value one")));
            assert_eq!(m.get("KEY2"), Some(&s("two")));
        },
        _ => panic!("expected ENV"),
    }
    let l = label::parse(&toks(&["version=1.0"]));
    match l {
        Instruction::Label(m) => assert_eq!(m.get("version"), Some(&s("1.0"))),
        _ => panic!("expected LABEL"),
    }
}

#[test]
fn arg_with_and_without_default() {
    let a = arg::parse(&toks(&["VERSION=\"1.2\"", "DEBUG"])).unwrap();
    match a {
        Instruction::Arg(m) => {
            assert_eq!(m.get("VERSION"), Some(&Some(s("1.2"))));
            assert_eq!(m.get("DEBUG"), Some(&None));
        },
        _ => panic!("expected ARG"),
    }
    assert!(matches!(arg::parse(&toks(&[])), Err(ParseError::MissingArgument(_))));
}

#[test]
fn expose_scenarios() {
    assert_eq!(
        expose::parse(&toks(&["8080/udp"])).unwrap(),
        Instruction::Expose { port: s("8080"), protocol: Some(Protocol::Udp) }
    );
    assert_eq!(
        expose::parse(&toks(&["443/tcp"])).unwrap(),
        Instruction::Expose { port: s("443"), protocol: Some(Protocol::Tcp) }
    );
    assert_eq!(
        expose::parse(&toks(&["80"])).unwrap(),
        Instruction::Expose { port: s("80"), protocol: None }
    );
    assert!(matches!(expose::parse(&toks(&["8080/http"])), Err(ParseError::SyntaxError(_))));
    assert!(matches!(expose::parse(&toks(&["80", "443"])), Err(ParseError::BadNumberOfArguments(_))));
    let d = Dockerfile::from_str("EXPOSE 8080/udp").unwrap();
    assert_eq!(d.instructions[0], Instruction::Expose { port: s("8080"), protocol: Some(Protocol::Udp) });
    assert!(matches!(Dockerfile::from_str("EXPOSE 8080/http"), Err(ParseError::SyntaxError(_))));
}

#[test]
fn user_scenarios() {
    let d = Dockerfile::from_str("USER 1001:root").unwrap();
    assert_eq!(d.instructions[0], Instruction::User { user: s("1001"), group: Some(s("root")) });
    assert_eq!(
        user::parse(&toks(&["\"app\""])).unwrap(),
        Instruction::User { user: s("app"), group: None }
    );
    assert!(matches!(user::parse(&toks(&[])), Err(ParseError::BadNumberOfArguments(_))));
}

#[test]
fn stopsignal_and_workdir_arity() {
    assert_eq!(
        stopsignal::parse(&toks(&["SIGKILL"])).unwrap(),
        Instruction::Stopsignal { signal: s("SIGKILL") }
    );
    assert!(matches!(stopsignal::parse(&toks(&["A", "B"])), Err(ParseError::BadNumberOfArguments(_))));
    assert_eq!(
        workdir::parse(&toks(&["\"/app\""])).unwrap(),
        Instruction::Workdir { path: s("/app") }
    );
    assert!(matches!(workdir::parse(&toks(&[])), Err(ParseError::BadNumberOfArguments(_))));
}
