//! The grammars of the instructions, one module each.
use vstd::prelude::*;

use crate::ast::Instruction;
use crate::ast::InstructionView;
use crate::error::ParseError;
use crate::error::ParseErrorView;
use crate::map::KeyValueMap;
use crate::quoter::Quoter;
use crate::text::dequote_spec;
use crate::text::views;

pub mod add;
pub mod arg;
pub mod cmd;
pub mod copy;
pub mod entrypoint;
pub mod env;
pub mod expose;
pub mod from;
pub mod label;
pub mod run;
pub mod shell;
pub mod stopsignal;
pub mod user;
pub mod volume;
pub mod workdir;

verus! {

/// The result of parsing, as mathematical values.
pub open spec fn result_view(r: Result<Instruction, ParseError>) -> Result<
    InstructionView,
    ParseErrorView,
> {
    match r {
        Ok(i) => Ok(i@),
        Err(e) => Err(e@),
    }
}

/// The value of `k` in `m`, if any.
pub open spec fn lookup(m: Map<Seq<char>, Seq<char>>, k: Seq<char>) -> Option<Seq<char>> {
    if m.contains_key(k) {
        Some(m[k])
    } else {
        None
    }
}

/// The value of the `link` flag: a bare flag means `true`.
pub open spec fn link_value(v: Option<Seq<char>>) -> Option<Seq<char>> {
    match v {
        Some(s) => if s.len() == 0 {
            Some("true"@)
        } else {
            Some(s)
        },
        None => None,
    }
}

/// The tokens, each without its enclosing pair of double quotes.
pub open spec fn dequote_all(s: Seq<Seq<char>>) -> Seq<Seq<char>> {
    s.map_values(|t: Seq<char>| dequote_spec(t))
}

/// The value of option `key`, if the options have it.
pub fn option_value(options: &KeyValueMap<String>, key: &str) -> (r: Option<String>)
    ensures
        crate::ast::opt_view(r) == lookup(options@, key@),
{
    match options.get(key) {
        Some(v) => Some(v.clone()),
        None => None,
    }
}

/// The tokens, each without its enclosing pair of double quotes.
pub fn dequote_tokens(tokens: &[String]) -> (r: Vec<String>)
    ensures
        views(r@) == dequote_all(views(tokens@)),
{
    let mut r: Vec<String> = Vec::new();
    let mut i: usize = 0;
    while i < tokens.len()
        invariant
            i <= tokens@.len(),
            views(r@) == dequote_all(views(tokens@)).take(i as int),
        decreases tokens.len() - i,
    {
        let d = tokens[i].dequote();
        assert(d@ == dequote_spec(tokens@[i as int]@));
        let ghost before = views(r@);
        r.push(d);
        assert(views(r@) =~= before.push(dequote_spec(tokens@[i as int]@)));
        i += 1;
        assert(views(r@) =~= dequote_all(views(tokens@)).take(i as int));
    }
    assert(dequote_all(views(tokens@)).take(i as int) =~= dequote_all(views(tokens@)));
    r
}

} // verus!
