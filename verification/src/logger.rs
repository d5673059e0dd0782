//! The lines in which a run reports what happened. They are plain text;
//! colour and the writing itself are the caller's.

use vstd::prelude::*;
use crate::text::chars_of;
use crate::text::push_all;
use crate::text::string_of;

verus! {

/// `label` followed by `message`.
fn labelled(label: &str, message: &str) -> (r: String)
    ensures
        r@ == label@ + message@,
{
    let mut line = chars_of(label);
    push_all(&mut line, &chars_of(message));
    string_of(&line)
}

/// The line that reports an error.
pub fn print_error(message: &str) -> (r: String)
    ensures
        r@ == "Error: "@ + message@,
{
    labelled("Error: ", message)
}

/// The line that reports a piece of information.
pub fn print_info(message: &str) -> (r: String)
    ensures
        r@ == "Info: "@ + message@,
{
    labelled("Info: ", message)
}

/// The line that reports a success.
pub fn print_success(message: &str) -> (r: String)
    ensures
        r@ == "Success: "@ + message@,
{
    labelled("Success: ", message)
}

/// The line that reports a warning.
pub fn print_warning(message: &str) -> (r: String)
    ensures
        r@ == "Warning: "@ + message@,
{
    labelled("Warning: ", message)
}

/// The line that announces a step of the run. The line carries the message
/// alone; the name of the step is not part of it.
pub fn step_message(step: &str, message: &str) -> (r: String)
    ensures
        r@ == "Step: "@ + message@,
{
    labelled("Step: ", message)
}

} // verus!
