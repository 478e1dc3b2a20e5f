//! Values accepted on the command line.

use vstd::prelude::*;
use vstd::string::*;
use crate::text::str_eq;

verus! {

/// Whether `s` is one of the three colour modes.
pub open spec fn is_color_mode(s: Seq<char>) -> bool {
    s == "auto"@ || s == "always"@ || s == "never"@
}

/// The message for a colour mode that is not accepted.
pub open spec fn invalid_color_message(s: Seq<char>) -> Seq<char> {
    "invalid color value '"@ + s + "', must be one of: auto, always, never"@
}

/// Accepts `auto`, `always` and `never`, and nothing else.
pub fn validate_color(s: &str) -> (r: Result<String, String>)
    ensures
        is_color_mode(s@) ==> r is Ok && r->Ok_0@ == s@,
        !is_color_mode(s@) ==> r is Err && r->Err_0@ == invalid_color_message(s@),
{
    if str_eq(s, "auto") || str_eq(s, "always") || str_eq(s, "never") {
        Ok(String::from_str(s))
    } else {
        let mut msg = String::from_str("invalid color value '");
        msg.append(s);
        msg.append("', must be one of: auto, always, never");
        Err(msg)
    }
}

} // verus!
