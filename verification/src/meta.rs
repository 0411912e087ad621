use vstd::prelude::*;
use vstd::string::*;
use crate::text::same_text;

verus! {

/// What became of a meta-command, a line that begins with a dot.
#[derive(Debug, PartialEq, Eq, Structural)]
pub enum MetaResult {
    Success,
    Failure,
    Unrecognized,
    ExitSuccess,
}

/// What the meta-command `command` asks for: `.quit` ends the session, and
/// no other command is known.
pub fn handle_meta_command(command: &String) -> (r: MetaResult)
    ensures
        r == if command@ == ".quit"@ {
            MetaResult::ExitSuccess
        } else {
            MetaResult::Unrecognized
        },
{
    if same_text(command.as_str(), ".quit") {
        MetaResult::ExitSuccess
    } else {
        MetaResult::Unrecognized
    }
}

} // verus!
