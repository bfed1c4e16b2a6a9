//! Terminal colours for diagnostics.
use vstd::prelude::*;
use vstd::string::StringExecFns;

verus! {

/// `input` between the ANSI escape that selects colour `code` and the reset.
pub open spec fn coloured(code: Seq<char>, input: Seq<char>) -> Seq<char> {
    "\x1b["@ + code + "m"@ + input + "\x1b[0m"@
}

fn colour(code: &str, input: &str) -> (r: String)
    ensures
        r@ == coloured(code@, input@),
{
    let mut r = "\x1b[".to_owned();
    r.append(code);
    r.append("m");
    r.append(input);
    r.append("\x1b[0m");
    r
}

/// `input` in bright blue.
pub fn blue(input: &str) -> (r: String)
    ensures
        r@ == coloured("94"@, input@),
{
    colour("94", input)
}

/// `input` in bright red.
pub fn red(input: &str) -> (r: String)
    ensures
        r@ == coloured("91"@, input@),
{
    colour("91", input)
}

/// `input` in bright yellow, used for warnings.
pub fn orange(input: &str) -> (r: String)
    ensures
        r@ == coloured("93"@, input@),
{
    colour("93", input)
}

} // verus!
