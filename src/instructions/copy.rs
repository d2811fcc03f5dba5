//! `COPY`: sources and a destination, after the options `from`, `chown`,
//! `chmod` and `link`.
use vstd::prelude::*;

use crate::ast::Instruction;
use crate::ast::InstructionView;
use crate::error::ParseError;
use crate::error::ParseErrorView;
use crate::instructions::dequote_all;
use crate::instructions::dequote_tokens;
use crate::instructions::link_value;
use crate::instructions::add::link_option;
use crate::instructions::lookup;
use crate::instructions::option_value;
use crate::instructions::result_view;
use crate::parser::get_options_from;
use crate::parser::option_count;
use crate::parser::options_of;
use crate::text::dequote_spec;
use crate::text::views;

verus! {

/// The `COPY` instruction of the argument tokens, or the error they give.
pub open spec fn copy_spec(args: Seq<Seq<char>>) -> Result<InstructionView, ParseErrorView> {
    let opts = options_of(args.take(option_count(args) as int));
    let rest = args.skip(option_count(args) as int);
    if rest.len() < 2 {
        Err(ParseErrorView::MissingArgument("COPY requires at least two arguments"@))
    } else {
        Ok(
            InstructionView::Copy {
                from: lookup(opts, "from"@),
                chown: lookup(opts, "chown"@),
                chmod: lookup(opts, "chmod"@),
                link: link_value(lookup(opts, "link"@)),
                sources: dequote_all(rest.drop_last()),
                destination: dequote_spec(rest.last()),
            },
        )
    }
}


/// Parses the argument tokens of `COPY`.
pub fn parse(arguments: &[String]) -> (r: Result<Instruction, ParseError>)
    ensures
        result_view(r) == copy_spec(views(arguments@)),
{
    let (options, remaining) = get_options_from(arguments);
    let n = remaining.len();
    if n < 2 {
        return Err(ParseError::MissingArgument("COPY requires at least two arguments".to_owned()));
    }
    let from = option_value(&options, "from");
    let chown = option_value(&options, "chown");
    let chmod = option_value(&options, "chmod");
    let link = link_option(option_value(&options, "link"));
    let mut sources = dequote_tokens(remaining.as_slice());
    let ghost all = sources@;
    let destination = match sources.pop() {
        Some(d) => d,
        None => String::new(),
    };
    proof {
        let rest = views(remaining@);
        assert(sources@ =~= all.drop_last());
        assert(views(sources@) =~= dequote_all(rest).drop_last());
        assert(views(sources@) =~= dequote_all(rest.drop_last()));
        assert(destination@ == dequote_all(rest)[rest.len() - 1]);
    }
    Ok(Instruction::Copy { from, chown, chmod, link, sources, destination })
}

} // verus!
