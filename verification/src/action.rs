//! What happens once the wire trips.
use vstd::prelude::*;

verus! {

/// The configured response to a tripped wire.
#[derive(Clone, Copy, Debug, PartialEq, Eq, Structural)]
pub enum ActionKind {
    /// Print an alert line and keep tailing.
    Alert,
    /// Run a configured shell command (`sh -c <command>`) and keep tailing.
    Command,
    /// Exit the whole process with a nonzero status.
    Exit,
}

/// Whether a configuration lacks what its action needs: running a command
/// needs a command to run.
pub fn lacks_command(kind: ActionKind, command: &Option<String>) -> (b: bool)
    ensures
        b == (kind == ActionKind::Command && command.is_none()),
{
    match kind {
        ActionKind::Command => command.is_none(),
        _ => false,
    }
}

} // verus!
