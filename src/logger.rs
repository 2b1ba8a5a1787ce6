//! Lines of the training log.
use vstd::prelude::*;
use vstd::string::StringExecFns;

verus! {

/// The log line `[<timestamp> - <level>] <message>`.
pub fn log_line(timestamp: &str, level: &str, message: &str) -> (r: String)
    ensures
        r@ == "["@ + timestamp@ + " - "@ + level@ + "] "@ + message@,
{
    let mut line = String::from_str("[");
    line.append(timestamp);
    line.append(" - ");
    line.append(level);
    line.append("] ");
    line.append(message);
    line
}

} // verus!
