//! Small string helpers: picking the longer of two string slices and a
//! thin wrapper around a borrowed line of text.

use vstd::prelude::*;

verus! {

/// Returns whichever of the two slices has the greater byte length,
/// preferring `b` on a tie.
pub fn longer<'a>(a: &'a str, b: &'a str) -> (r: &'a str)
    ensures
        a.len() > b.len() ==> r@ == a@,
        a.len() <= b.len() ==> r@ == b@,
        r@ == a@ || r@ == b@,
{
    if a.len() > b.len() {
        a
    } else {
        b
    }
}

/// A borrowed line of text.
pub struct LineRef<'a> {
    pub line: &'a str,
}

impl<'a> LineRef<'a> {
    pub fn new(line: &'a str) -> (r: Self)
        ensures
            r.line == line,
    {
        Self { line }
    }

    pub fn as_str(&self) -> (r: &str)
        ensures
            r == self.line,
    {
        self.line
    }
}

} // verus!
