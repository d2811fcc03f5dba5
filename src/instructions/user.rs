//! `USER`: the user, and optionally the group, to run as.
use vstd::prelude::*;

use crate::ast::Instruction;
use crate::ast::InstructionView;
use crate::error::ParseError;
use crate::error::ParseErrorView;
use crate::instructions::result_view;
use crate::quoter::Quoter;
use crate::text::chars_of;
use crate::text::dequote_spec;
use crate::text::find_char;
use crate::text::index_of;
use crate::text::string_of_range;
use crate::text::views;

verus! {

/// The `USER` instruction of the argument tokens, or the error they give.
pub open spec fn user_spec(args: Seq<Seq<char>>) -> Result<InstructionView, ParseErrorView> {
    if args.len() != 1 {
        Err(ParseErrorView::BadNumberOfArguments("USER requires exactly one argument"@))
    } else {
        let u = dequote_spec(args[0]);
        let i = index_of(u, ':');
        if i >= 0 {
            Ok(InstructionView::User { user: u.take(i), group: Some(u.skip(i + 1)) })
        } else {
            Ok(InstructionView::User { user: u, group: None })
        }
    }
}

/// Parses the argument tokens of `USER`.
pub fn parse(arguments: &[String]) -> (r: Result<Instruction, ParseError>)
    ensures
        result_view(r) == user_spec(views(arguments@)),
{
    if arguments.len() != 1 {
        return Err(
            ParseError::BadNumberOfArguments("USER requires exactly one argument".to_owned()),
        );
    }
    let user = arguments[0].dequote();
    let u = chars_of(user.as_str());
    let n = u.len();
    proof {
        crate::text::lemma_index_of(u@, ':');
    }
    match find_char(u.as_slice(), ':') {
        Some(i) => {
            let name = string_of_range(u.as_slice(), 0, i);
            let group = string_of_range(u.as_slice(), i + 1, n);
            assert(name@ =~= u@.take(i as int));
            assert(group@ =~= u@.skip(i + 1));
            Ok(Instruction::User { user: name, group: Some(group) })
        },
        None => Ok(Instruction::User { user, group: None }),
    }
}

} // verus!
