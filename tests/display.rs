use dockerfile_parser_rs::ast::Protocol;
use dockerfile_parser_rs::map::KeyValueMap;
use dockerfile_parser_rs::Instruction;

fn s(v: &str) -> String {
    String::from(v)
}

#[test]
fn test_display_instruction_add() {
    let instruction = Instruction::Add {
        checksum: None,
        chown: None,
        chmod: None,
        link: None,
        sources: vec![s("source1"), s("source2")],
        destination: s("/destination"),
    };

    let expected = "ADD source1 source2 /destination";
    assert_eq!(instruction.to_string(), expected);
}

#[test]
fn test_display_instruction_arg() {
    let mut args = KeyValueMap::new();
    args.insert(s("ARG2"), None);
    args.insert(s("ARG1"), Some(s("value1")));
    let instruction = Instruction::Arg(args);

    // must be sorted
    let expected = "ARG ARG1=value1 ARG2";
    assert_eq!(instruction.to_string(), expected);
}

#[test]
fn test_display_instruction_cmd() {
    let instruction = Instruction::Cmd(vec![s("echo"), s("Hello, World!")]);

    let expected = "CMD [\"echo\", \"Hello, World!\"]";
    assert_eq!(instruction.to_string(), expected);
}

#[test]
fn test_display_instruction_copy() {
    let instruction = Instruction::Copy {
        from: Some(s("builder")),
        chown: None,
        chmod: None,
        link: None,
        sources: vec![s("source1"), s("source2")],
        destination: s("/destination"),
    };

    let expected = "COPY --from=builder source1 source2 /destination";
    assert_eq!(instruction.to_string(), expected);
}

#[test]
fn test_display_instruction_entrypoint() {
    let instruction = Instruction::Entrypoint(vec![s("entrypoint.sh")]);

    let expected = "ENTRYPOINT [\"entrypoint.sh\"]";
    assert_eq!(instruction.to_string(), expected);
}

#[test]
fn test_display_instruction_env() {
    let mut env = KeyValueMap::new();
    env.insert(s("ENV2"), s("value2"));
    env.insert(s("ENV1"), s("value1"));
    let instruction = Instruction::Env(env);

    // must be sorted
    let expected = "ENV ENV1=\"value1\" ENV2=\"value2\"";
    assert_eq!(instruction.to_string(), expected);
}

#[test]
fn test_display_instruction_expose() {
    let instruction = Instruction::Expose { port: s("443"), protocol: None };

    let expected = "EXPOSE 443";
    assert_eq!(instruction.to_string(), expected);
}

#[test]
fn display_expose_with_protocol() {
    let instruction = Instruction::Expose { port: s("8080"), protocol: Some(Protocol::Udp) };
    assert_eq!(instruction.to_string(), "EXPOSE 8080/udp");
    let instruction = Instruction::Expose { port: s("80"), protocol: Some(Protocol::Tcp) };
    assert_eq!(instruction.to_string(), "EXPOSE 80/tcp");
}

#[test]
fn test_display_instruction_from() {
    let instruction = Instruction::From {
        platform: Some(s("linux/amd64")),
        image: s("docker.io/library/fedora:latest"),
        alias: Some(s("builder")),
    };

    let expected = "FROM --platform=linux/amd64 docker.io/library/fedora:latest AS builder";
    assert_eq!(instruction.to_string(), expected);
}

#[test]
fn test_display_instruction_label() {
    let mut labels = KeyValueMap::new();
    labels.insert(s("version"), s("1.0"));
    labels.insert(s("maintainer"), s("John Doe"));
    let instruction = Instruction::Label(labels);

    // must be sorted
    let expected = "LABEL maintainer=\"John Doe\" version=\"1.0\"";
    assert_eq!(instruction.to_string(), expected);
}

#[test]
fn test_display_instruction_run() {
    let instruction = Instruction::Run {
        mount: None,
        network: None,
        security: None,
        command: vec![s("cat"), s("/etc/os-release")],
        heredoc: None,
    };

    let expected = "RUN [\"cat\", \"/etc/os-release\"]";
    assert_eq!(instruction.to_string(), expected);
}

#[test]
fn test_display_instruction_run_with_heredoc() {
    let instruction = Instruction::Run {
        mount: None,
        network: None,
        security: None,
        command: vec![s("<<EOF")],
        heredoc: Some(vec![s("dnf upgrade -y"), s("dnf install -y rustup")]),
    };

    let expected = "RUN <<EOF\ndnf upgrade -y\ndnf install -y rustup\nEOF";
    assert_eq!(instruction.to_string(), expected);
}

#[test]
fn test_display_instruction_run_with_heredoc_and_tabs() {
    let instruction = Instruction::Run {
        mount: None,
        network: None,
        security: None,
        command: vec![s("python"), s("<<EOF")],
        heredoc: Some(vec![
            s("def main():"),
            s("\tx = 42"),
            s("\tprint(x)"),
            s(""),
            s("main()"),
        ]),
    };

    let expected = "RUN python <<EOF\ndef main():\n\tx = 42\n\tprint(x)\n\nmain()\nEOF";
    assert_eq!(instruction.to_string(), expected);
}

#[test]
fn display_run_with_options() {
    let instruction = Instruction::Run {
        mount: Some(s("type=cache,target=/root/.cache")),
        network: Some(s("none")),
        security: None,
        command: vec![s("make")],
        heredoc: None,
    };
    assert_eq!(
        instruction.to_string(),
        "RUN --mount=type=cache,target=/root/.cache --network=none [\"make\"]"
    );
}

#[test]
fn display_exec_form_escapes_quotes_and_backslashes() {
    let instruction = Instruction::Cmd(vec![s("say \"hi\""), s("a\\b"), s("x\ty")]);
    assert_eq!(instruction.to_string(), "CMD [\"say \\\"hi\\\"\", \"a\\\\b\", \"x\\ty\"]");
}

#[test]
fn test_display_instruction_shell() {
    let instruction = Instruction::Shell(vec![s("/bin/sh"), s("-c")]);

    let expected = "SHELL [\"/bin/sh\", \"-c\"]";
    assert_eq!(instruction.to_string(), expected);
}

#[test]
fn test_display_instruction_user() {
    let instruction = Instruction::User { user: s("root"), group: Some(s("root")) };

    let expected = "USER root:root";
    assert_eq!(instruction.to_string(), expected);
}

#[test]
fn test_display_instruction_volume() {
    let instruction = Instruction::Volume { mounts: vec![s("/data"), s("/var/log")] };

    let expected = "VOLUME [\"/data\", \"/var/log\"]";
    assert_eq!(instruction.to_string(), expected);
}

#[test]
fn test_display_instruction_workdir() {
    let instruction = Instruction::Workdir { path: s("/app") };

    let expected = "WORKDIR /app";
    assert_eq!(instruction.to_string(), expected);
}

#[test]
fn test_display_instruction_comment() {
    let instruction = Instruction::Comment(s("# This is a comment"));

    let expected = "# This is a comment";
    assert_eq!(instruction.to_string(), expected);
}

#[test]
fn test_display_instruction_empty() {
    let instruction = Instruction::Empty;

    let expected = "";
    assert_eq!(instruction.to_string(), expected);
}

#[test]
fn display_stopsignal_and_user_without_group() {
    assert_eq!(Instruction::Stopsignal { signal: s("SIGTERM") }.to_string(), "STOPSIGNAL SIGTERM");
    assert_eq!(Instruction::User { user: s("1001"), group: None }.to_string(), "USER 1001");
}
