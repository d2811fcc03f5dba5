//! `ADD`: sources and a destination, after the options `checksum`, `chown`,
//! `chmod` and `link`.
use vstd::prelude::*;

use crate::ast::Instruction;
use crate::ast::InstructionView;
use crate::error::ParseError;
use crate::error::ParseErrorView;
use crate::instructions::dequote_all;
use crate::instructions::dequote_tokens;
use crate::instructions::link_value;
use crate::instructions::lookup;
use crate::instructions::option_value;
use crate::instructions::result_view;
use crate::parser::get_options_from;
use crate::parser::option_count;
use crate::parser::options_of;
use crate::text::dequote_spec;
use crate::text::views;

verus! {

/// The `ADD` instruction of the argument tokens, or the error they give.
pub open spec fn add_spec(args: Seq<Seq<char>>) -> Result<InstructionView, ParseErrorView> {
    let opts = options_of(args.take(option_count(args) as int));
    let rest = args.skip(option_count(args) as int);
    if rest.len() < 2 {
        Err(ParseErrorView::MissingArgument("ADD requires at least two arguments"@))
    } else {
        Ok(
            InstructionView::Add {
                checksum: lookup(opts, "checksum"@),
                chown: lookup(opts, "chown"@),
                chmod: lookup(opts, "chmod"@),
                link: link_value(lookup(opts, "link"@)),
                sources: dequote_all(rest.drop_last()),
                destination: dequote_spec(rest.last()),
            },
        )
    }
}

/// The `link` option: a bare flag means `true`.
pub fn link_option(link: Option<String>) -> (r: Option<String>)
    ensures
        crate::ast::opt_view(r) == link_value(crate::ast::opt_view(link)),
{
    match link {
        Some(l) => if l.as_str().is_empty() {
            Some("true".to_owned())
        } else {
            Some(l)
        },
        None => None,
    }
}

/// Parses the argument tokens of `ADD`.
pub fn parse(arguments: &[String]) -> (r: Result<Instruction, ParseError>)
    ensures
        result_view(r) == add_spec(views(arguments@)),
{
    let (options, remaining) = get_options_from(arguments);
    let n = remaining.len();
    if n < 2 {
        return Err(ParseError::MissingArgument("ADD requires at least two arguments".to_owned()));
    }
    let checksum = option_value(&options, "checksum");
    let chown = option_value(&options, "chown");
    let chmod = option_value(&options, "chmod");
    let link = link_option(option_value(&options, "link"));
    let mut sources = dequote_tokens(remaining.as_slice());
    let ghost all = sources@;
    let destination = match sources.pop() {
        Some(d) => d,
        None => String::new(),
    };
    proof {
        let rest = views(remaining@);
        assert(sources@ =~= all.drop_last());
        assert(views(sources@) =~= dequote_all(rest).drop_last());
        assert(views(sources@) =~= dequote_all(rest.drop_last()));
        assert(destination@ == dequote_all(rest)[rest.len() - 1]);
    }
    Ok(Instruction::Add { checksum, chown, chmod, link, sources, destination })
}

} // verus!
