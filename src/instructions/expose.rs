//! `EXPOSE`: a port, optionally with its protocol (`port/tcp`, `port/udp`).
use vstd::prelude::*;

use crate::ast::Instruction;
use crate::ast::InstructionView;
use crate::ast::Protocol;
use crate::error::ParseError;
use crate::error::ParseErrorView;
use crate::instructions::result_view;
use crate::text::chars_eq;
use crate::text::chars_of;
use crate::text::find_char;
use crate::text::index_of;
use crate::text::string_of_range;
use crate::text::views;

verus! {

/// The `EXPOSE` instruction of the argument tokens, or the error they give.
pub open spec fn expose_spec(args: Seq<Seq<char>>) -> Result<InstructionView, ParseErrorView> {
    if args.len() != 1 {
        Err(ParseErrorView::BadNumberOfArguments("EXPOSE requires exactly one argument"@))
    } else {
        let t = args[0];
        let i = index_of(t, '/');
        if i < 0 {
            Ok(InstructionView::Expose { port: t, protocol: None })
        } else if t.skip(i + 1) == "tcp"@ {
            Ok(InstructionView::Expose { port: t.take(i), protocol: Some(Protocol::Tcp) })
        } else if t.skip(i + 1) == "udp"@ {
            Ok(InstructionView::Expose { port: t.take(i), protocol: Some(Protocol::Udp) })
        } else {
            Err(ParseErrorView::SyntaxError("EXPOSE accepts only the tcp and udp protocols"@))
        }
    }
}

/// Parses the argument tokens of `EXPOSE`.
pub fn parse(arguments: &[String]) -> (r: Result<Instruction, ParseError>)
    ensures
        result_view(r) == expose_spec(views(arguments@)),
{
    if arguments.len() != 1 {
        return Err(
            ParseError::BadNumberOfArguments("EXPOSE requires exactly one argument".to_owned()),
        );
    }
    let t = chars_of(arguments[0].as_str());
    let n = t.len();
    proof {
        crate::text::lemma_index_of(t@, '/');
    }
    match find_char(t.as_slice(), '/') {
        None => Ok(Instruction::Expose { port: arguments[0].clone(), protocol: None }),
        Some(i) => {
            let port = string_of_range(t.as_slice(), 0, i);
            let name = crate::text::string_of_range(t.as_slice(), i + 1, n);
            let nv = chars_of(name.as_str());
            assert(port@ =~= t@.take(i as int));
            assert(nv@ =~= t@.skip(i + 1));
            let tcp = chars_of("tcp");
            let udp = chars_of("udp");
            if chars_eq(nv.as_slice(), tcp.as_slice()) {
                Ok(Instruction::Expose { port, protocol: Some(Protocol::Tcp) })
            } else if chars_eq(nv.as_slice(), udp.as_slice()) {
                Ok(Instruction::Expose { port, protocol: Some(Protocol::Udp) })
            } else {
                Err(
                    ParseError::SyntaxError(
                        "EXPOSE accepts only the tcp and udp protocols".to_owned(),
                    ),
                )
            }
        },
    }
}

} // verus!
