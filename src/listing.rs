use vstd::prelude::*;

verus! {

/// `parts` with `sep` between each two consecutive parts.
pub open spec fn joined(parts: Seq<Seq<char>>, sep: Seq<char>) -> Seq<char>
    decreases parts.len(),
{
    if parts.len() == 0 {
        Seq::empty()
    } else if parts.len() == 1 {
        parts[0]
    } else {
        joined(parts.drop_last(), sep) + sep + parts.last()
    }
}

/// Relies on itertools' `intersperse`: `sep` is yielded between each two
/// consecutive parts, and the pieces are collected into one string.
#[verifier::external_body]
fn interspersed(parts: &Vec<String>, sep: &str) -> (r: String)
    ensures
        r@ == joined(parts.deep_view(), sep@),
{
    itertools::intersperse(parts.iter().map(|p| p.as_str()), sep).collect()
}

/// Renders a value as one line of text.
pub trait ToString {
    fn to_string(&self) -> String;
}

impl ToString for Vec<String> {
    /// The strings in order, separated by a comma and a space.
    fn to_string(&self) -> (r: String)
        ensures
            r@ == joined(self.deep_view(), ", "@),
    {
        match self.len() {
            0 => String::new(),
            1 => self[0].clone(),
            _ => interspersed(self, ", "),
        }
    }
}

} // verus!
