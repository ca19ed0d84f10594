use vstd::prelude::*;

verus! {

/// The text `s` without one trailing line break (`"\r\n"` or `"\n"`).
pub open spec fn without_trailing_newline(s: Seq<char>) -> Seq<char> {
    if s.len() >= 2 && s[s.len() - 2] == '\r' && s[s.len() - 1] == '\n' {
        s.subrange(0, s.len() - 2)
    } else if s.len() >= 1 && s[s.len() - 1] == '\n' {
        s.subrange(0, s.len() - 1)
    } else {
        s
    }
}

/// Helpers around version-control lookups.
pub struct NeoUtils;

impl NeoUtils {
    /// Removes one trailing `"\r\n"` or `"\n"`, as printed at the end of a
    /// command's output.
    pub fn strip_trailing_newline(input: &str) -> (r: &str)
        ensures
            r@ == without_trailing_newline(input@),
    {
        let n = input.unicode_len();
        if n >= 2 && input.get_char(n - 2) == '\r' && input.get_char(n - 1) == '\n' {
            input.substring_char(0, n - 2)
        } else if n >= 1 && input.get_char(n - 1) == '\n' {
            input.substring_char(0, n - 1)
        } else {
            input
        }
    }

    /// The working-tree root reported by the version-control tool: its
    /// standard output without the trailing line break when the tool
    /// succeeded, and no root otherwise (a failure is not an error).
    pub fn toplevel_from_output(success: bool, stdout: &str) -> (r: Option<String>)
        ensures
            success ==> r is Some && r->0@ == without_trailing_newline(stdout@),
            !success ==> r is None,
    {
        if success {
            Some(String::from_str(Self::strip_trailing_newline(stdout)))
        } else {
            None
        }
    }
}

} // verus!
