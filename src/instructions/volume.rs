//! `VOLUME`: mount points, in exec or shell form.
use vstd::prelude::*;

use crate::ast::Instruction;
use crate::ast::InstructionView;
use crate::instructions::cmd::command_of;
use crate::instructions::cmd::command_tokens;
use crate::text::views;

verus! {

/// Parses the argument tokens of `VOLUME`.
pub fn parse(arguments: &[String]) -> (r: Instruction)
    ensures
        r@ == (InstructionView::Volume { mounts: command_tokens(views(arguments@)) }),
{
    Instruction::Volume { mounts: command_of(arguments) }
}

} // verus!
