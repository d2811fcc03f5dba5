//! Rendering instructions back to Dockerfile text.
use vstd::prelude::*;

use crate::ast::Instruction;
use crate::ast::Protocol;
use crate::ast::opt_view;
use crate::map::KeyValueMap;
use crate::quoter::Quoter;
use crate::text::enquote_spec;
use crate::text::push_all;
use crate::text::views;

verus! {

/// The items joined, with `sep` between each two.
pub open spec fn join(items: Seq<Seq<char>>, sep: Seq<char>) -> Seq<char>
    decreases items.len(),
{
    if items.len() == 0 {
        Seq::empty()
    } else if items.len() == 1 {
        items[0]
    } else {
        join(items.drop_last(), sep) + sep + items.last()
    }
}

/// The items that are not empty, in order.
pub open spec fn non_empty(items: Seq<Seq<char>>) -> Seq<Seq<char>>
    decreases items.len(),
{
    if items.len() == 0 {
        items
    } else if items.last().len() == 0 {
        non_empty(items.drop_last())
    } else {
        non_empty(items.drop_last()).push(items.last())
    }
}

/// `--key=value` for a present option, nothing for an absent one.
pub open spec fn option_text(key: Seq<char>, value: Option<Seq<char>>) -> Seq<char> {
    match value {
        Some(v) => "--"@ + key + "="@ + v,
        None => Seq::empty(),
    }
}

/// The present options joined by spaces, followed by a space; nothing if none is present.
pub open spec fn options_prefix(options: Seq<Seq<char>>) -> Seq<char> {
    if non_empty(options).len() == 0 {
        Seq::empty()
    } else {
        join(non_empty(options), " "@) + " "@
    }
}

/// How one character is written inside a double-quoted list item.
pub open spec fn escape_char(c: char) -> Seq<char> {
    if c == '"' {
        seq!['\\', '"']
    } else if c == '\\' {
        seq!['\\', '\\']
    } else if c == '\n' {
        seq!['\\', 'n']
    } else if c == '\t' {
        seq!['\\', 't']
    } else if c == '\r' {
        seq!['\\', 'r']
    } else {
        seq![c]
    }
}

/// `s` with each character escaped.
pub open spec fn escape(s: Seq<char>) -> Seq<char>
    decreases s.len(),
{
    if s.len() == 0 {
        s
    } else {
        escape(s.drop_last()) + escape_char(s.last())
    }
}

/// A list item in exec form: the escaped text in double quotes.
pub open spec fn quoted_item(s: Seq<char>) -> Seq<char> {
    seq!['"'] + escape(s) + seq!['"']
}

/// A list in exec form: `["a", "b"]`.
pub open spec fn exec_list(items: Seq<Seq<char>>) -> Seq<char> {
    "["@ + join(items.map_values(|s: Seq<char>| quoted_item(s)), ", "@) + "]"@
}

/// `key="value"` pairs joined by spaces.
pub open spec fn pairs_text(e: Seq<(Seq<char>, Seq<char>)>) -> Seq<char> {
    join(e.map_values(|p: (Seq<char>, Seq<char>)| p.0 + "="@ + enquote_spec(p.1)), " "@)
}

/// `key=value` or `key` items joined by spaces.
pub open spec fn optional_pairs_text(e: Seq<(Seq<char>, Option<Seq<char>>)>) -> Seq<char> {
    join(
        e.map_values(
            |p: (Seq<char>, Option<Seq<char>>)|
                match p.1 {
                    Some(v) => p.0 + "="@ + v,
                    None => p.0,
                },
        ),
        " "@,
    )
}

/// The name of a protocol as written after a port.
pub open spec fn protocol_text(p: Protocol) -> Seq<char> {
    match p {
        Protocol::Tcp => "tcp"@,
        Protocol::Udp => "udp"@,
    }
}

/// The heredoc lines, each after a line break, then the end marker on its own line.
pub open spec fn heredoc_text(lines: Seq<Seq<char>>) -> Seq<char> {
    join(lines.map_values(|l: Seq<char>| "\n"@ + l), Seq::empty()) + "\nEOF"@
}

/// The canonical text of an instruction.
pub open spec fn rendered(i: Instruction) -> Seq<char> {
    match i {
        Instruction::Add { checksum, chown, chmod, link, sources, destination } =>
            "ADD "@ + options_prefix(
                seq![
                    option_text("checksum"@, opt_view(checksum)),
                    option_text("chown"@, opt_view(chown)),
                    option_text("chmod"@, opt_view(chmod)),
                    option_text("link"@, opt_view(link)),
                ],
            ) + join(views(sources@), " "@) + " "@ + destination@,
        Instruction::Arg(m) => "ARG "@ + optional_pairs_text(m.entries()),
        Instruction::Cmd(c) => "CMD "@ + exec_list(views(c@)),
        Instruction::Comment(c) => c@,
        Instruction::Copy { from, chown, chmod, link, sources, destination } =>
            "COPY "@ + options_prefix(
                seq![
                    option_text("from"@, opt_view(from)),
                    option_text("chown"@, opt_view(chown)),
                    option_text("chmod"@, opt_view(chmod)),
                    option_text("link"@, opt_view(link)),
                ],
            ) + join(views(sources@), " "@) + " "@ + destination@,
        Instruction::Empty => Seq::empty(),
        Instruction::Entrypoint(c) => "ENTRYPOINT "@ + exec_list(views(c@)),
        Instruction::Env(m) => "ENV "@ + pairs_text(m.entries()),
        Instruction::Expose { port, protocol } => "EXPOSE "@ + port@ + match protocol {
            Some(p) => "/"@ + protocol_text(p),
            None => Seq::empty(),
        },
        Instruction::From { platform, image, alias } => "FROM "@ + options_prefix(
            seq![option_text("platform"@, opt_view(platform))],
        ) + image@ + match alias {
            Some(a) => " AS "@ + a@,
            None => Seq::empty(),
        },
        Instruction::Label(m) => "LABEL "@ + pairs_text(m.entries()),
        Instruction::Run { mount, network, security, command, heredoc } => {
            let prefix = options_prefix(
                seq![
                    option_text("mount"@, opt_view(mount)),
                    option_text("network"@, opt_view(network)),
                    option_text("security"@, opt_view(security)),
                ],
            );
            match heredoc {
                Some(h) => "RUN "@ + prefix + join(views(command@), " "@) + heredoc_text(views(h@)),
                None => "RUN "@ + prefix + exec_list(views(command@)),
            }
        },
        Instruction::Shell(c) => "SHELL "@ + exec_list(views(c@)),
        Instruction::Stopsignal { signal } => "STOPSIGNAL "@ + signal@,
        Instruction::User { user, group } => "USER "@ + user@ + match group {
            Some(g) => ":"@ + g@,
            None => Seq::empty(),
        },
        Instruction::Volume { mounts } => "VOLUME "@ + exec_list(views(mounts@)),
        Instruction::Workdir { path } => "WORKDIR "@ + path@,
    }
}

/// Appends the items, with `sep` between each two.
pub fn push_joined(out: &mut String, items: &[String], sep: &str)
    ensures
        final(out)@ == old(out)@ + join(views(items@), sep@),
{
    let ghost v = views(items@);
    let mut i: usize = 0;
    assert(v.take(0) =~= Seq::<Seq<char>>::empty());
    while i < items.len()
        invariant
            i <= items@.len(),
            v == views(items@),
            out@ == old(out)@ + join(v.take(i as int), sep@),
        decreases items.len() - i,
    {
        assert(v.take(i + 1).drop_last() =~= v.take(i as int));
        if i > 0 {
            push_all(out, sep);
        }
        push_all(out, items[i].as_str());
        i += 1;
        assert(out@ =~= old(out)@ + join(v.take(i as int), sep@));
    }
    assert(v.take(i as int) =~= v);
}

/// `--key=value` for a present option, an empty string for an absent one.
pub fn format_instruction_option(key: &str, value: Option<&String>) -> (r: String)
    ensures
        r@ == option_text(
            key@,
            match value {
                Some(v) => Some(v@),
                None => None,
            },
        ),
{
    let mut r = String::new();
    match value {
        Some(v) => {
            push_all(&mut r, "--");
            push_all(&mut r, key);
            push_all(&mut r, "=");
            push_all(&mut r, v.as_str());
        },
        None => {},
    }
    r
}

/// The present options joined by spaces, with a space after them when there is any.
pub fn format_options_string(options: &[String]) -> (r: String)
    ensures
        r@ == options_prefix(views(options@)),
{
    let ghost v = views(options@);
    let mut present: Vec<String> = Vec::new();
    let mut i: usize = 0;
    assert(v.take(0) =~= Seq::<Seq<char>>::empty());
    while i < options.len()
        invariant
            i <= options@.len(),
            v == views(options@),
            views(present@) == non_empty(v.take(i as int)),
        decreases options.len() - i,
    {
        assert(v.take(i + 1).drop_last() =~= v.take(i as int));
        if !options[i].as_str().is_empty() {
            present.push(options[i].clone());
            assert(views(present@) =~= non_empty(v.take(i + 1)));
        } else {
            assert(options[i as int]@.len() == 0);
        }
        i += 1;
    }
    assert(v.take(i as int) =~= v);
    let mut r = String::new();
    if present.len() > 0 {
        push_joined(&mut r, present.as_slice(), " ");
        push_all(&mut r, " ");
    }
    r
}

/// Appends `s` in double quotes, escaping quotes, backslashes and line and tab characters.
pub fn push_quoted_item(out: &mut String, s: &str)
    ensures
        final(out)@ == old(out)@ + quoted_item(s@),
{
    let v = crate::text::chars_of(s);
    out.push('"');
    let ghost start = out@;
    let mut i: usize = 0;
    assert(v@.take(0) =~= Seq::<char>::empty());
    while i < v.len()
        invariant
            i <= v@.len(),
            v@ == s@,
            out@ == start + escape(v@.take(i as int)),
        decreases v.len() - i,
    {
        assert(v@.take(i + 1).drop_last() =~= v@.take(i as int));
        let c = v[i];
        if c == '"' {
            out.push('\\');
            out.push('"');
        } else if c == '\\' {
            out.push('\\');
            out.push('\\');
        } else if c == '\n' {
            out.push('\\');
            out.push('n');
        } else if c == '\t' {
            out.push('\\');
            out.push('t');
        } else if c == '\r' {
            out.push('\\');
            out.push('r');
        } else {
            out.push(c);
        }
        i += 1;
        assert(out@ =~= start + escape(v@.take(i as int)));
    }
    assert(v@.take(i as int) =~= s@);
    out.push('"');
    assert(final(out)@ =~= old(out)@ + quoted_item(s@));
}

/// Appends the items as an exec-form list: `["a", "b"]`.
pub fn push_exec_list(out: &mut String, items: &[String])
    ensures
        final(out)@ == old(out)@ + exec_list(views(items@)),
{
    let ghost q = views(items@).map_values(|s: Seq<char>| quoted_item(s));
    push_all(out, "[");
    let ghost start = out@;
    let mut i: usize = 0;
    assert(q.take(0) =~= Seq::<Seq<char>>::empty());
    while i < items.len()
        invariant
            i <= items@.len(),
            q == views(items@).map_values(|s: Seq<char>| quoted_item(s)),
            out@ == start + join(q.take(i as int), ", "@),
        decreases items.len() - i,
    {
        assert(q.take(i + 1).drop_last() =~= q.take(i as int));
        if i > 0 {
            push_all(out, ", ");
        }
        push_quoted_item(out, items[i].as_str());
        i += 1;
        assert(out@ =~= start + join(q.take(i as int), ", "@));
    }
    assert(q.take(i as int) =~= q);
    push_all(out, "]");
    assert(final(out)@ =~= old(out)@ + exec_list(views(items@)));
}

/// `key="value"` pairs in key order, joined by spaces.
pub fn format_btree_map(pairs: &KeyValueMap<String>) -> (r: String)
    ensures
        r@ == pairs_text(pairs.entries()),
{
    let ghost q = pairs.entries().map_values(
        |p: (Seq<char>, Seq<char>)| p.0 + "="@ + enquote_spec(p.1),
    );
    let mut r = String::new();
    let mut i: usize = 0;
    assert(q.take(0) =~= Seq::<Seq<char>>::empty());
    while i < pairs.len()
        invariant
            i <= pairs.entries().len(),
            q == pairs.entries().map_values(
                |p: (Seq<char>, Seq<char>)| p.0 + "="@ + enquote_spec(p.1),
            ),
            r@ == join(q.take(i as int), " "@),
        decreases pairs.entries().len() - i,
    {
        assert(q.take(i + 1).drop_last() =~= q.take(i as int));
        let (k, v) = pairs.entry(i);
        if i > 0 {
            push_all(&mut r, " ");
        }
        push_all(&mut r, k.as_str());
        push_all(&mut r, "=");
        let quoted = v.enquote();
        push_all(&mut r, quoted.as_str());
        i += 1;
        assert(r@ =~= join(q.take(i as int), " "@));
    }
    assert(q.take(i as int) =~= q);
    r
}

/// `key=value` items, or `key` for a key without a value, in key order, joined by spaces.
pub fn format_optional_btree_map(pairs: &KeyValueMap<Option<String>>) -> (r: String)
    ensures
        r@ == optional_pairs_text(pairs.entries()),
{
    let ghost q = pairs.entries().map_values(
        |p: (Seq<char>, Option<Seq<char>>)|
            match p.1 {
                Some(v) => p.0 + "="@ + v,
                None => p.0,
            },
    );
    let mut r = String::new();
    let mut i: usize = 0;
    assert(q.take(0) =~= Seq::<Seq<char>>::empty());
    while i < pairs.len()
        invariant
            i <= pairs.entries().len(),
            q == pairs.entries().map_values(
                |p: (Seq<char>, Option<Seq<char>>)|
                    match p.1 {
                        Some(v) => p.0 + "="@ + v,
                        None => p.0,
                    },
            ),
            r@ == join(q.take(i as int), " "@),
        decreases pairs.entries().len() - i,
    {
        assert(q.take(i + 1).drop_last() =~= q.take(i as int));
        let (k, v) = pairs.entry(i);
        if i > 0 {
            push_all(&mut r, " ");
        }
        push_all(&mut r, k.as_str());
        match v {
            Some(v) => {
                push_all(&mut r, "=");
                push_all(&mut r, v.as_str());
            },
            None => {},
        }
        i += 1;
        assert(r@ =~= join(q.take(i as int), " "@));
    }
    assert(q.take(i as int) =~= q);
    r
}

/// Appends the heredoc lines, each after a line break, then the end marker on its own line.
fn push_heredoc(out: &mut String, lines: &[String])
    ensures
        final(out)@ == old(out)@ + heredoc_text(views(lines@)),
{
    let ghost q = views(lines@).map_values(|l: Seq<char>| "\n"@ + l);
    let ghost start = out@;
    let mut i: usize = 0;
    assert(q.take(0) =~= Seq::<Seq<char>>::empty());
    while i < lines.len()
        invariant
            i <= lines@.len(),
            q == views(lines@).map_values(|l: Seq<char>| "\n"@ + l),
            out@ == start + join(q.take(i as int), Seq::empty()),
        decreases lines.len() - i,
    {
        assert(q.take(i + 1).drop_last() =~= q.take(i as int));
        push_all(out, "\n");
        push_all(out, lines[i].as_str());
        i += 1;
        assert(out@ =~= start + join(q.take(i as int), Seq::empty()));
    }
    assert(q.take(i as int) =~= q);
    push_all(out, "\nEOF");
    assert(final(out)@ =~= old(out)@ + heredoc_text(views(lines@)));
}

impl Instruction {
    /// The canonical Dockerfile text of this instruction.
    pub fn to_string(&self) -> (r: String)
        ensures
            r@ == rendered(*self),
    {
        let mut r = String::new();
        match self {
            Instruction::Add { checksum, chown, chmod, link, sources, destination } => {
                let options = vec![
                    format_instruction_option("checksum", checksum.as_ref()),
                    format_instruction_option("chown", chown.as_ref()),
                    format_instruction_option("chmod", chmod.as_ref()),
                    format_instruction_option("link", link.as_ref()),
                ];
                push_all(&mut r, "ADD ");
                let prefix = format_options_string(options.as_slice());
                push_all(&mut r, prefix.as_str());
                push_joined(&mut r, sources.as_slice(), " ");
                push_all(&mut r, " ");
                push_all(&mut r, destination.as_str());
                assert(views(options@) =~= seq![
                    option_text("checksum"@, opt_view(*checksum)),
                    option_text("chown"@, opt_view(*chown)),
                    option_text("chmod"@, opt_view(*chmod)),
                    option_text("link"@, opt_view(*link)),
                ]);
                assert(r@ =~= rendered(*self));
            },
            Instruction::Arg(m) => {
                push_all(&mut r, "ARG ");
                let t = format_optional_btree_map(m);
                push_all(&mut r, t.as_str());
                assert(r@ =~= rendered(*self));
            },
            Instruction::Cmd(c) => {
                push_all(&mut r, "CMD ");
                push_exec_list(&mut r, c.as_slice());
                assert(r@ =~= rendered(*self));
            },
            Instruction::Comment(c) => {
                push_all(&mut r, c.as_str());
                assert(r@ =~= rendered(*self));
            },
            Instruction::Copy { from, chown, chmod, link, sources, destination } => {
                let options = vec![
                    format_instruction_option("from", from.as_ref()),
                    format_instruction_option("chown", chown.as_ref()),
                    format_instruction_option("chmod", chmod.as_ref()),
                    format_instruction_option("link", link.as_ref()),
                ];
                push_all(&mut r, "COPY ");
                let prefix = format_options_string(options.as_slice());
                push_all(&mut r, prefix.as_str());
                push_joined(&mut r, sources.as_slice(), " ");
                push_all(&mut r, " ");
                push_all(&mut r, destination.as_str());
                assert(views(options@) =~= seq![
                    option_text("from"@, opt_view(*from)),
                    option_text("chown"@, opt_view(*chown)),
                    option_text("chmod"@, opt_view(*chmod)),
                    option_text("link"@, opt_view(*link)),
                ]);
                assert(r@ =~= rendered(*self));
            },
            Instruction::Empty => {},
            Instruction::Entrypoint(c) => {
                push_all(&mut r, "ENTRYPOINT ");
                push_exec_list(&mut r, c.as_slice());
                assert(r@ =~= rendered(*self));
            },
            Instruction::Env(m) => {
                push_all(&mut r, "ENV ");
                let t = format_btree_map(m);
                push_all(&mut r, t.as_str());
                assert(r@ =~= rendered(*self));
            },
            Instruction::Expose { port, protocol } => {
                push_all(&mut r, "EXPOSE ");
                push_all(&mut r, port.as_str());
                match protocol {
                    Some(Protocol::Tcp) => {
                        push_all(&mut r, "/");
                        push_all(&mut r, "tcp");
                    },
                    Some(Protocol::Udp) => {
                        push_all(&mut r, "/");
                        push_all(&mut r, "udp");
                    },
                    None => {},
                }
                assert(r@ =~= rendered(*self));
            },
            Instruction::From { platform, image, alias } => {
                let options = vec![format_instruction_option("platform", platform.as_ref())];
                push_all(&mut r, "FROM ");
                let prefix = format_options_string(options.as_slice());
                push_all(&mut r, prefix.as_str());
                push_all(&mut r, image.as_str());
                match alias {
                    Some(a) => {
                        push_all(&mut r, " AS ");
                        push_all(&mut r, a.as_str());
                    },
                    None => {},
                }
                assert(views(options@) =~= seq![option_text("platform"@, opt_view(*platform))]);
                assert(r@ =~= rendered(*self));
            },
            Instruction::Label(m) => {
                push_all(&mut r, "LABEL ");
                let t = format_btree_map(m);
                push_all(&mut r, t.as_str());
                assert(r@ =~= rendered(*self));
            },
            Instruction::Run { mount, network, security, command, heredoc } => {
                let options = vec![
                    format_instruction_option("mount", mount.as_ref()),
                    format_instruction_option("network", network.as_ref()),
                    format_instruction_option("security", security.as_ref()),
                ];
                push_all(&mut r, "RUN ");
                let prefix = format_options_string(options.as_slice());
                push_all(&mut r, prefix.as_str());
                match heredoc {
                    Some(h) => {
                        push_joined(&mut r, command.as_slice(), " ");
                        push_heredoc(&mut r, h.as_slice());
                    },
                    None => {
                        push_exec_list(&mut r, command.as_slice());
                    },
                }
                assert(views(options@) =~= seq![
                    option_text("mount"@, opt_view(*mount)),
                    option_text("network"@, opt_view(*network)),
                    option_text("security"@, opt_view(*security)),
                ]);
                assert(r@ =~= rendered(*self));
            },
            Instruction::Shell(c) => {
                push_all(&mut r, "SHELL ");
                push_exec_list(&mut r, c.as_slice());
                assert(r@ =~= rendered(*self));
            },
            Instruction::Stopsignal { signal } => {
                push_all(&mut r, "STOPSIGNAL ");
                push_all(&mut r, signal.as_str());
                assert(r@ =~= rendered(*self));
            },
            Instruction::User { user, group } => {
                push_all(&mut r, "USER ");
                push_all(&mut r, user.as_str());
                match group {
                    Some(g) => {
                        push_all(&mut r, ":");
                        push_all(&mut r, g.as_str());
                    },
                    None => {},
                }
                assert(r@ =~= rendered(*self));
            },
            Instruction::Volume { mounts } => {
                push_all(&mut r, "VOLUME ");
                push_exec_list(&mut r, mounts.as_slice());
                assert(r@ =~= rendered(*self));
            },
            Instruction::Workdir { path } => {
                push_all(&mut r, "WORKDIR ");
                push_all(&mut r, path.as_str());
            },
        }
        assert(r@ =~= rendered(*self));
        r
    }
}

} // verus!
