//! The instructions of a Dockerfile and their mathematical model.
use vstd::prelude::*;

use crate::map::KeyValueMap;
use crate::text::views;

verus! {

/// The transport protocol of an exposed port.
#[derive(Debug, Clone, Copy, PartialEq, Eq, Structural)]
pub enum Protocol {
    Tcp,
    Udp,
}

/// An instruction of a Dockerfile with its arguments, or a line kept for
/// layout (`Comment`, `Empty`).
#[derive(Debug, Clone, PartialEq, Eq)]
pub enum Instruction {
    Add {
        checksum: Option<String>,
        chown: Option<String>,
        chmod: Option<String>,
        link: Option<String>,
        sources: Vec<String>,
        destination: String,
    },
    Arg(KeyValueMap<Option<String>>),
    Cmd(Vec<String>),
    Comment(String),
    Copy {
        from: Option<String>,
        chown: Option<String>,
        chmod: Option<String>,
        link: Option<String>,
        sources: Vec<String>,
        destination: String,
    },
    Empty,
    Entrypoint(Vec<String>),
    Env(KeyValueMap<String>),
    Expose { port: String, protocol: Option<Protocol> },
    From { platform: Option<String>, image: String, alias: Option<String> },
    Label(KeyValueMap<String>),
    Run {
        mount: Option<String>,
        network: Option<String>,
        security: Option<String>,
        command: Vec<String>,
        heredoc: Option<Vec<String>>,
    },
    Shell(Vec<String>),
    Stopsignal { signal: String },
    User { user: String, group: Option<String> },
    Volume { mounts: Vec<String> },
    Workdir { path: String },
}

/// An instruction as mathematical values: text as `Seq<char>`, key/value
/// arguments as a `Map`.
pub enum InstructionView {
    Add {
        checksum: Option<Seq<char>>,
        chown: Option<Seq<char>>,
        chmod: Option<Seq<char>>,
        link: Option<Seq<char>>,
        sources: Seq<Seq<char>>,
        destination: Seq<char>,
    },
    Arg(Map<Seq<char>, Option<Seq<char>>>),
    Cmd(Seq<Seq<char>>),
    Comment(Seq<char>),
    Copy {
        from: Option<Seq<char>>,
        chown: Option<Seq<char>>,
        chmod: Option<Seq<char>>,
        link: Option<Seq<char>>,
        sources: Seq<Seq<char>>,
        destination: Seq<char>,
    },
    Empty,
    Entrypoint(Seq<Seq<char>>),
    Env(Map<Seq<char>, Seq<char>>),
    Expose { port: Seq<char>, protocol: Option<Protocol> },
    From { platform: Option<Seq<char>>, image: Seq<char>, alias: Option<Seq<char>> },
    Label(Map<Seq<char>, Seq<char>>),
    Run {
        mount: Option<Seq<char>>,
        network: Option<Seq<char>>,
        security: Option<Seq<char>>,
        command: Seq<Seq<char>>,
        heredoc: Option<Seq<Seq<char>>>,
    },
    Shell(Seq<Seq<char>>),
    Stopsignal { signal: Seq<char> },
    User { user: Seq<char>, group: Option<Seq<char>> },
    Volume { mounts: Seq<Seq<char>> },
    Workdir { path: Seq<char> },
}

/// The view of an optional string.
pub open spec fn opt_view(o: Option<String>) -> Option<Seq<char>> {
    match o {
        Some(s) => Some(s@),
        None => None,
    }
}

impl View for Instruction {
    type V = InstructionView;

    open spec fn view(&self) -> InstructionView {
        match self {
            Instruction::Add { checksum, chown, chmod, link, sources, destination } =>
                InstructionView::Add {
                    checksum: opt_view(*checksum),
                    chown: opt_view(*chown),
                    chmod: opt_view(*chmod),
                    link: opt_view(*link),
                    sources: views(sources@),
                    destination: destination@,
                },
            Instruction::Arg(m) => InstructionView::Arg(m@),
            Instruction::Cmd(c) => InstructionView::Cmd(views(c@)),
            Instruction::Comment(c) => InstructionView::Comment(c@),
            Instruction::Copy { from, chown, chmod, link, sources, destination } =>
                InstructionView::Copy {
                    from: opt_view(*from),
                    chown: opt_view(*chown),
                    chmod: opt_view(*chmod),
                    link: opt_view(*link),
                    sources: views(sources@),
                    destination: destination@,
                },
            Instruction::Empty => InstructionView::Empty,
            Instruction::Entrypoint(c) => InstructionView::Entrypoint(views(c@)),
            Instruction::Env(m) => InstructionView::Env(m@),
            Instruction::Expose { port, protocol } => InstructionView::Expose {
                port: port@,
                protocol: *protocol,
            },
            Instruction::From { platform, image, alias } => InstructionView::From {
                platform: opt_view(*platform),
                image: image@,
                alias: opt_view(*alias),
            },
            Instruction::Label(m) => InstructionView::Label(m@),
            Instruction::Run { mount, network, security, command, heredoc } =>
                InstructionView::Run {
                    mount: opt_view(*mount),
                    network: opt_view(*network),
                    security: opt_view(*security),
                    command: views(command@),
                    heredoc: match heredoc {
                        Some(h) => Some(views(h@)),
                        None => None,
                    },
                },
            Instruction::Shell(c) => InstructionView::Shell(views(c@)),
            Instruction::Stopsignal { signal } => InstructionView::Stopsignal { signal: signal@ },
            Instruction::User { user, group } => InstructionView::User {
                user: user@,
                group: opt_view(*group),
            },
            Instruction::Volume { mounts } => InstructionView::Volume { mounts: views(mounts@) },
            Instruction::Workdir { path } => InstructionView::Workdir { path: path@ },
        }
    }
}

} // verus!
