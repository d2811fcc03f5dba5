//! `CMD`: the default command, in exec or shell form.
use vstd::prelude::*;

use crate::ast::Instruction;
use crate::ast::InstructionView;
use crate::parser::clean_exec_form;
use crate::parser::clean_shell_form;
use crate::parser::exec_form;
use crate::parser::exec_form_tokens;
use crate::parser::is_exec_form;
use crate::parser::shell_form_tokens;
use crate::text::views;

verus! {

/// The command tokens of exec-form or shell-form arguments.
pub open spec fn command_tokens(args: Seq<Seq<char>>) -> Seq<Seq<char>> {
    if exec_form(args) {
        exec_form_tokens(args)
    } else {
        shell_form_tokens(args)
    }
}

/// The command tokens of the arguments, by their form.
pub fn command_of(arguments: &[String]) -> (r: Vec<String>)
    ensures
        views(r@) == command_tokens(views(arguments@)),
{
    if is_exec_form(arguments) {
        clean_exec_form(arguments)
    } else {
        clean_shell_form(arguments)
    }
}

/// Parses the argument tokens of `CMD`.
pub fn parse(arguments: &[String]) -> (r: Instruction)
    ensures
        r@ == InstructionView::Cmd(command_tokens(views(arguments@))),
{
    Instruction::Cmd(command_of(arguments))
}

} // verus!
