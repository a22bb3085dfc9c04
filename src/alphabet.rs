use vstd::prelude::*;

verus! {

/// The fixed alphabet of punctuation and operator glyphs that the statistics
/// are taken over: `. , < > ? / ! " @ $ % ' ( ) | { } ^ & * ~ - [ ] # = + : \ ;`.
pub open spec fn is_symbol(c: char) -> bool {
    c == '.' || c == ',' || c == '<' || c == '>' || c == '?' || c == '/' || c == '!'
        || c == '"' || c == '@' || c == '$' || c == '%' || c == '\'' || c == '(' || c == ')'
        || c == '|' || c == '{' || c == '}' || c == '^' || c == '&' || c == '*' || c == '~'
        || c == '-' || c == '[' || c == ']' || c == '#' || c == '=' || c == '+' || c == ':'
        || c == '\\' || c == ';'
}

/// Membership test for the symbol alphabet.
pub fn is_symbol_char(c: char) -> (r: bool)
    ensures
        r == is_symbol(c),
{
    match c {
        '.' | ',' | '<' | '>' | '?' | '/' | '!' | '"' | '@' | '$' | '%' | '\'' | '(' | ')'
        | '|' | '{' | '}' | '^' | '&' | '*' | '~' | '-' | '[' | ']' | '#' | '=' | '+' | ':'
        | '\\' | ';' => true,
        _ => false,
    }
}

} // verus!
