//! `ENTRYPOINT`: the executable of the container, in exec or shell form.
use vstd::prelude::*;

use crate::ast::Instruction;
use crate::ast::InstructionView;
use crate::instructions::cmd::command_of;
use crate::instructions::cmd::command_tokens;
use crate::text::views;

verus! {

/// Parses the argument tokens of `ENTRYPOINT`.
pub fn parse(arguments: &[String]) -> (r: Instruction)
    ensures
        r@ == InstructionView::Entrypoint(command_tokens(views(arguments@))),
{
    Instruction::Entrypoint(command_of(arguments))
}

} // verus!
