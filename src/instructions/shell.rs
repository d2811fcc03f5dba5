//! `SHELL`: the shell for shell-form commands, in exec form only.
use vstd::prelude::*;

use crate::ast::Instruction;
use crate::ast::InstructionView;
use crate::error::ParseError;
use crate::error::ParseErrorView;
use crate::instructions::result_view;
use crate::parser::clean_exec_form;
use crate::parser::exec_form;
use crate::parser::exec_form_tokens;
use crate::parser::is_exec_form;
use crate::text::views;

verus! {

/// The `SHELL` instruction of the argument tokens, or the error they give.
pub open spec fn shell_spec(args: Seq<Seq<char>>) -> Result<InstructionView, ParseErrorView> {
    if !exec_form(args) {
        Err(ParseErrorView::SyntaxError("SHELL requires the arguments to be in JSON form"@))
    } else {
        Ok(InstructionView::Shell(exec_form_tokens(args)))
    }
}

/// Parses the argument tokens of `SHELL`.
pub fn parse(arguments: &[String]) -> (r: Result<Instruction, ParseError>)
    ensures
        result_view(r) == shell_spec(views(arguments@)),
{
    if !is_exec_form(arguments) {
        return Err(
            ParseError::SyntaxError("SHELL requires the arguments to be in JSON form".to_owned()),
        );
    }
    Ok(Instruction::Shell(clean_exec_form(arguments)))
}

} // verus!
