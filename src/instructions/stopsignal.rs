//! `STOPSIGNAL`: the signal that stops the container.
use vstd::prelude::*;

use crate::ast::Instruction;
use crate::ast::InstructionView;
use crate::error::ParseError;
use crate::error::ParseErrorView;
use crate::instructions::result_view;
use crate::text::views;

verus! {

/// The `STOPSIGNAL` instruction of the argument tokens, or the error they give.
pub open spec fn stopsignal_spec(args: Seq<Seq<char>>) -> Result<InstructionView, ParseErrorView> {
    if args.len() != 1 {
        Err(ParseErrorView::BadNumberOfArguments("STOPSIGNAL requires exactly one argument"@))
    } else {
        Ok(InstructionView::Stopsignal { signal: args[0] })
    }
}

/// Parses the argument tokens of `STOPSIGNAL`.
pub fn parse(arguments: &[String]) -> (r: Result<Instruction, ParseError>)
    ensures
        result_view(r) == stopsignal_spec(views(arguments@)),
{
    if arguments.len() != 1 {
        return Err(
            ParseError::BadNumberOfArguments("STOPSIGNAL requires exactly one argument".to_owned()),
        );
    }
    Ok(Instruction::Stopsignal { signal: arguments[0].clone() })
}

} // verus!
