use vstd::prelude::*;

verus! {

/// The color in which the interpreter announces the program's output.
pub const INTERPRETER_LIME: &'static str = "\x1b[38;2;0;255;0m";

/// The color of fatal interpreter messages.
pub const ERROR_RED: &'static str = "\x1b[38;2;255;0;0m";

/// The color in which `log` statements print.
pub const DEBUG_BLUE_PROGRAM_LOG: &'static str = "\x1b[38;2;0;128;255m";

/// The color of token dumps.
pub const INTERPRETER_DEBUG_BRIGHTPINK: &'static str = "\x1b[38;2;255;105;180m";

/// The color of list literal dumps.
pub const INTERPRETER_DEBUG_ORANGE: &'static str = "\x1b[38;2;255;165;0m";

} // verus!
