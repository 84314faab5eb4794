//! Small string helpers.
use vstd::prelude::*;
use crate::text::{before_char, chars_before, chars_of, string_of};

verus! {

/// The character that starts a comment.
pub const COMMENT_CHAR: char = ';';

/// Cuts a line at its first comment character.
pub fn trim_comment(s: &mut String)
    ensures
        final(s)@ == before_char(old(s)@, COMMENT_CHAR),
{
    let v = chars_of(s.as_str());
    let kept = chars_before(&v, COMMENT_CHAR);
    *s = string_of(&kept);
}

} // verus!
