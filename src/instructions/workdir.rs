//! `WORKDIR`: the working directory.
use vstd::prelude::*;

use crate::ast::Instruction;
use crate::ast::InstructionView;
use crate::error::ParseError;
use crate::error::ParseErrorView;
use crate::instructions::result_view;
use crate::quoter::Quoter;
use crate::text::dequote_spec;
use crate::text::views;

verus! {

/// The `WORKDIR` instruction of the argument tokens, or the error they give.
pub open spec fn workdir_spec(args: Seq<Seq<char>>) -> Result<InstructionView, ParseErrorView> {
    if args.len() != 1 {
        Err(ParseErrorView::BadNumberOfArguments("WORKDIR requires exactly one argument"@))
    } else {
        Ok(InstructionView::Workdir { path: dequote_spec(args[0]) })
    }
}

/// Parses the argument tokens of `WORKDIR`.
pub fn parse(arguments: &[String]) -> (r: Result<Instruction, ParseError>)
    ensures
        result_view(r) == workdir_spec(views(arguments@)),
{
    if arguments.len() != 1 {
        return Err(
            ParseError::BadNumberOfArguments("WORKDIR requires exactly one argument".to_owned()),
        );
    }
    Ok(Instruction::Workdir { path: arguments[0].dequote() })
}

} // verus!
