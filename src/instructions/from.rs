//! `FROM`: the base image, after the option `platform`, and optionally
//! `AS` and the name of the stage.
use vstd::prelude::*;

use crate::ast::Instruction;
use crate::ast::InstructionView;
use crate::error::ParseError;
use crate::error::ParseErrorView;
use crate::instructions::lookup;
use crate::instructions::option_value;
use crate::instructions::result_view;
use crate::parser::get_options_from;
use crate::parser::option_count;
use crate::parser::options_of;
use crate::text::views;

verus! {

/// The `FROM` instruction of the argument tokens, or the error they give.
pub open spec fn from_spec(args: Seq<Seq<char>>) -> Result<InstructionView, ParseErrorView> {
    let opts = options_of(args.take(option_count(args) as int));
    let rest = args.skip(option_count(args) as int);
    if rest.len() == 0 || rest.len() == 2 {
        Err(
            ParseErrorView::MissingArgument(
                "FROM requires either one argument, or three: FROM <source> [AS <name>]"@,
            ),
        )
    } else {
        Ok(
            InstructionView::From {
                platform: lookup(opts, "platform"@),
                image: rest[0],
                alias: if rest.len() >= 3 {
                    Some(rest[2])
                } else {
                    None
                },
            },
        )
    }
}

/// Parses the argument tokens of `FROM`.
pub fn parse(arguments: &[String]) -> (r: Result<Instruction, ParseError>)
    ensures
        result_view(r) == from_spec(views(arguments@)),
{
    let (options, remaining) = get_options_from(arguments);
    let n = remaining.len();
    if n == 0 || n == 2 {
        return Err(
            ParseError::MissingArgument(
                "FROM requires either one argument, or three: FROM <source> [AS <name>]".to_owned(),
            ),
        );
    }
    let platform = option_value(&options, "platform");
    let image = remaining[0].clone();
    let alias = if n >= 3 {
        Some(remaining[2].clone())
    } else {
        None
    };
    Ok(Instruction::From { platform, image, alias })
}

} // verus!
