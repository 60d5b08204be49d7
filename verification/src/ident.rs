use vstd::prelude::*;

verus! {

/// A character that may start a shell variable name: an ASCII letter or `_`.
pub open spec fn is_name_start(c: char) -> bool {
    ('a' <= c && c <= 'z') || ('A' <= c && c <= 'Z') || c == '_'
}

/// A character that may continue a shell variable name: an ASCII letter,
/// an ASCII digit, or `_`.
pub open spec fn is_name_char(c: char) -> bool {
    is_name_start(c) || ('0' <= c && c <= '9')
}

/// A valid, portable shell variable name: non-empty, starting with an ASCII
/// letter or underscore, continuing with ASCII letters, digits or underscores.
pub open spec fn valid_var_name(s: Seq<char>) -> bool {
    &&& s.len() > 0
    &&& is_name_start(s[0])
    &&& forall|i: int| 1 <= i < s.len() ==> is_name_char(#[trigger] s[i])
}

/// Check whether a string is a valid shell variable name.
pub fn is_valid_var_name(s: &str) -> (r: bool)
    ensures
        r == valid_var_name(s@),
{
    let n = s.unicode_len();
    if n == 0 {
        return false;
    }
    if !char_is_name_start(s.get_char(0)) {
        return false;
    }
    let mut i: usize = 1;
    while i < n
        invariant
            1 <= i <= n,
            n == s@.len(),
            is_name_start(s@[0]),
            forall|j: int| 1 <= j < i ==> is_name_char(#[trigger] s@[j]),
        decreases n - i,
    {
        if !char_is_name_char(s.get_char(i)) {
            return false;
        }
        i += 1;
    }
    true
}

fn char_is_name_start(c: char) -> (r: bool)
    ensures
        r == is_name_start(c),
{
    ('a' <= c && c <= 'z') || ('A' <= c && c <= 'Z') || c == '_'
}

fn char_is_name_char(c: char) -> (r: bool)
    ensures
        r == is_name_char(c),
{
    char_is_name_start(c) || ('0' <= c && c <= '9')
}

} // verus!
