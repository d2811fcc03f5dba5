//! Adding and removing one layer of double quotes around a value.
use vstd::prelude::*;

use crate::text::chars_of;
use crate::text::dequote_spec;
use crate::text::enquote_spec;
use crate::text::push_all;
use crate::text::string_of_range;

verus! {

pub trait Quoter {
    /// The value without the pair of double quotes that encloses it, if it has one.
    fn dequote(&self) -> String;

    /// The value enclosed in double quotes.
    fn enquote(&self) -> String;
}

impl Quoter for String {
    fn dequote(&self) -> (r: String)
        ensures
            r@ == dequote_spec(self@),
    {
        let v = chars_of(self.as_str());
        let n = v.len();
        if n >= 2 && v[0] == '"' && v[n - 1] == '"' {
            string_of_range(v.as_slice(), 1, n - 1)
        } else {
            string_of_range(v.as_slice(), 0, n)
        }
    }

    fn enquote(&self) -> (r: String)
        ensures
            r@ == enquote_spec(self@),
    {
        let mut r = String::new();
        r.push('"');
        push_all(&mut r, self.as_str());
        r.push('"');
        assert(r@ =~= enquote_spec(self@));
        r
    }
}

} // verus!
