//! What the command line asks for.

use vstd::prelude::*;

use crate::text::{chars_of, same};

verus! {

/// The arguments are exactly the standalone `--version` flag.
pub open spec fn version_request(args: Seq<Seq<char>>) -> bool {
    args.len() == 1 && args[0] == "--version"@
}

/// True only for the standalone version request. Reads arguments only: it
/// never consults tmux or the terminal.
pub fn is_version_request(args: &Vec<String>) -> (r: bool)
    ensures
        r == version_request(args.deep_view()),
{
    args.len() == 1 && same(&chars_of(args[0].as_str()), &chars_of("--version"))
}

} // verus!
