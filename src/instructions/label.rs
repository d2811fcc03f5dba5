//! `LABEL`: metadata as `key=value` pairs.
use vstd::prelude::*;

use crate::ast::Instruction;
use crate::ast::InstructionView;
use crate::parser::key_value_pairs;
use crate::parser::process_key_value_pairs;
use crate::text::views;

verus! {

/// Parses the argument tokens of `LABEL`.
pub fn parse(arguments: &[String]) -> (r: Instruction)
    ensures
        r@ == InstructionView::Label(key_value_pairs(views(arguments@))),
{
    Instruction::Label(process_key_value_pairs(arguments))
}

} // verus!
