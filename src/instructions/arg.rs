//! `ARG`: build arguments, `name` or `name=default`.
use vstd::prelude::*;

use crate::ast::Instruction;
use crate::ast::InstructionView;
use crate::error::ParseError;
use crate::error::ParseErrorView;
use crate::instructions::result_view;
use crate::parser::optional_pairs;
use crate::parser::process_optional_key_value_pairs;
use crate::text::views;

verus! {

/// The `ARG` instruction of the argument tokens, or the error they give.
pub open spec fn arg_spec(args: Seq<Seq<char>>) -> Result<InstructionView, ParseErrorView> {
    if args.len() == 0 {
        Err(ParseErrorView::MissingArgument("ARG requires at least one argument"@))
    } else {
        Ok(InstructionView::Arg(optional_pairs(args)))
    }
}

/// Parses the argument tokens of `ARG`.
pub fn parse(arguments: &[String]) -> (r: Result<Instruction, ParseError>)
    ensures
        result_view(r) == arg_spec(views(arguments@)),
{
    if arguments.len() == 0 {
        return Err(ParseError::MissingArgument("ARG requires at least one argument".to_owned()));
    }
    Ok(Instruction::Arg(process_optional_key_value_pairs(arguments)))
}

} // verus!
