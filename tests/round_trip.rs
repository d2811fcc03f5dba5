use dockerfile_parser_rs::Dockerfile;

fn s(v: &str) -> String {
    String::from(v)
}

#[test]
fn canonical_text_round_trips() {
    let lines: Vec<String> = vec![
        s("# build stage"),
        s("FROM --platform=linux/amd64 rust:1.80 AS builder"),
        s("ARG DEBUG VERSION=1.0"),
        s("ENV HOME=\"/root\" PATH=\"/usr/bin\""),
        s("COPY --from=base --link=true src /app/src"),
        s("RUN --network=none [\"cargo\", \"build\"]"),
        s(""),
        s("RUN python3 <<EOF"),
        s("print(1)"),
        s("x = 2"),
        s("EOF"),
        s("EXPOSE 8080/udp"),
        s("USER app:staff"),
        s("WORKDIR /app"),
        s("STOPSIGNAL SIGTERM"),
        s("VOLUME [\"/data\"]"),
        s("SHELL [\"/bin/sh\", \"-c\"]"),
        s("ENTRYPOINT [\"/app/run\"]"),
        s("CMD [\"--help\"]"),
        s("LABEL version=\"1\""),
        s("ADD --chmod=755 a.tar /opt"),
    ];
    let d = Dockerfile::from_lines(&lines).unwrap();
    assert_eq!(d.instructions.len(), 18);
    let rendered = d.to_lines();
    let text: Vec<String> =
        rendered.iter().flat_map(|l| l.split('\n').map(String::from).collect::<Vec<_>>()).collect();
    assert_eq!(text, lines);
    let again = Dockerfile::from_lines(&text).unwrap();
    assert_eq!(again, d);
}

#[test]
fn shell_form_is_rendered_in_exec_form() {
    let d = Dockerfile::from_str("RUN cat /etc/os-release").unwrap();
    assert_eq!(d.to_lines(), vec![s("RUN [\"cat\", \"/etc/os-release\"]")]);
}
