//! `RUN`: a command, after the options `mount`, `network` and `security`;
//! with `<<EOF`, the lines of a heredoc body follow it.
use vstd::prelude::*;

use crate::ast::Instruction;
use crate::ast::InstructionView;
use crate::error::ParseError;
use crate::error::ParseErrorView;
use crate::instructions::cmd::command_of;
use crate::instructions::cmd::command_tokens;
use crate::instructions::lookup;
use crate::instructions::option_value;
use crate::instructions::result_view;
use crate::lines::group_views;
use crate::lines::heredoc_groups;
use crate::lines::split_heredoc;
use crate::parser::get_options_from;
use crate::parser::option_count;
use crate::parser::options_of;
use crate::render::join;
use crate::render::push_joined;
use crate::text::views;

verus! {

/// Whether one of the tokens is the heredoc start `<<EOF`.
pub open spec fn has_heredoc_start(toks: Seq<Seq<char>>) -> bool {
    exists|i: int| 0 <= i < toks.len() && toks[i] == "<<EOF"@
}

/// The heredoc body lines: each group of tokens after the first, joined by spaces.
pub open spec fn heredoc_lines(groups: Seq<Seq<Seq<char>>>) -> Seq<Seq<char>> {
    if groups.len() == 0 {
        Seq::empty()
    } else {
        groups.skip(1).map_values(|g: Seq<Seq<char>>| join(g, " "@))
    }
}

/// The `RUN` instruction of the argument tokens, or the error they give.
pub open spec fn run_spec(args: Seq<Seq<char>>) -> Result<InstructionView, ParseErrorView> {
    let opts = options_of(args.take(option_count(args) as int));
    let rest = args.skip(option_count(args) as int);
    if rest.len() == 0 {
        Err(ParseErrorView::MissingArgument("RUN requires at least one argument"@))
    } else if has_heredoc_start(rest) {
        let groups = heredoc_groups(rest);
        Ok(
            InstructionView::Run {
                mount: lookup(opts, "mount"@),
                network: lookup(opts, "network"@),
                security: lookup(opts, "security"@),
                command: if groups.len() > 0 {
                    groups[0]
                } else {
                    Seq::empty()
                },
                heredoc: Some(heredoc_lines(groups)),
            },
        )
    } else {
        Ok(
            InstructionView::Run {
                mount: lookup(opts, "mount"@),
                network: lookup(opts, "network"@),
                security: lookup(opts, "security"@),
                command: command_tokens(rest),
                heredoc: None,
            },
        )
    }
}

/// Whether one of the tokens is `<<EOF`.
fn any_heredoc_start(tokens: &[String]) -> (r: bool)
    ensures
        r == has_heredoc_start(views(tokens@)),
{
    let mut i: usize = 0;
    while i < tokens.len()
        invariant
            i <= tokens@.len(),
            forall|j: int| 0 <= j < i ==> views(tokens@)[j] != "<<EOF"@,
        decreases tokens.len() - i,
    {
        if crate::text::str_eq(tokens[i].as_str(), "<<EOF") {
            assert(views(tokens@)[i as int] == "<<EOF"@);
            return true;
        }
        i += 1;
    }
    false
}

/// Copies of the strings.
fn copy_all(v: &[String]) -> (r: Vec<String>)
    ensures
        views(r@) == views(v@),
{
    let mut r: Vec<String> = Vec::new();
    let mut i: usize = 0;
    while i < v.len()
        invariant
            i <= v@.len(),
            views(r@) == views(v@).take(i as int),
        decreases v.len() - i,
    {
        let ghost before = views(r@);
        r.push(v[i].clone());
        assert(views(r@) =~= before.push(views(v@)[i as int]));
        i += 1;
        assert(views(r@) =~= views(v@).take(i as int));
    }
    assert(views(v@).take(i as int) =~= views(v@));
    r
}

/// Parses the argument tokens of `RUN`.
pub fn parse(arguments: &[String]) -> (r: Result<Instruction, ParseError>)
    ensures
        result_view(r) == run_spec(views(arguments@)),
{
    let (options, remaining) = get_options_from(arguments);
    if remaining.len() == 0 {
        return Err(ParseError::MissingArgument("RUN requires at least one argument".to_owned()));
    }
    let mount = option_value(&options, "mount");
    let network = option_value(&options, "network");
    let security = option_value(&options, "security");
    if any_heredoc_start(remaining.as_slice()) {
        let groups = split_heredoc(copy_all(remaining.as_slice()));
        let ghost g = group_views(groups@);
        let mut command: Vec<String> = Vec::new();
        let mut heredoc: Vec<String> = Vec::new();
        if groups.len() > 0 {
            command = copy_all(groups[0].as_slice());
            let mut i: usize = 1;
            assert(g.take(1).skip(1) =~= Seq::<Seq<Seq<char>>>::empty());
            assert(heredoc_lines(g.take(1)) =~= Seq::<Seq<char>>::empty());
            while i < groups.len()
                invariant
                    1 <= i <= groups@.len(),
                    g == group_views(groups@),
                    views(heredoc@) == heredoc_lines(g.take(i as int)),
                decreases groups.len() - i,
            {
                let mut line = String::new();
                push_joined(&mut line, groups[i].as_slice(), " ");
                assert(views(groups@[i as int]@) == g[i as int]);
                let ghost before = views(heredoc@);
                heredoc.push(line);
                assert(g.take(i + 1).skip(1) =~= g.take(i as int).skip(1).push(g[i as int]));
                assert(views(heredoc@) =~= before.push(join(g[i as int], " "@)));
                assert(views(heredoc@) =~= heredoc_lines(g.take(i + 1)));
                i += 1;
            }
            assert(g.take(i as int) =~= g);
        } else {
            assert(heredoc_lines(g) =~= Seq::<Seq<char>>::empty());
            assert(views(command@) =~= Seq::<Seq<char>>::empty());
        }
        return Ok(
            Instruction::Run { mount, network, security, command, heredoc: Some(heredoc) },
        );
    }
    let command = command_of(remaining.as_slice());
    Ok(Instruction::Run { mount, network, security, command, heredoc: None })
}

} // verus!
