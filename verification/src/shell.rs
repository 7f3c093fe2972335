//! The decisions of the shell's main loop: the log level asked for on the
//! command line, and what is done with a command that names no program.

use vstd::prelude::*;
use crate::log::{spec_level_of, LogLevel};
use crate::text::{chars_eq, chars_of, replace, replace_spec};

verus! {

broadcast use vstd::string::group_string_axioms;

/// The level set by the arguments `args[..n]`: each `-d` sets the level
/// named by the argument after it, the last one counting.
pub open spec fn level_after(args: Seq<Seq<char>>, n: int) -> Option<LogLevel>
    decreases n,
{
    if n <= 0 {
        None
    } else if args[n - 1] == seq!['-', 'd'] {
        Some(spec_level_of(args[n]))
    } else {
        level_after(args, n - 1)
    }
}

/// Every `-d` has an argument after it.
pub open spec fn debug_flags_complete(args: Seq<Seq<char>>) -> bool {
    forall|i: int| 0 <= i < args.len() && #[trigger] args[i] == seq!['-', 'd'] ==> i + 1 < args.len()
}

/// The log level the command line asks for, if any.
pub fn requested_log_level(args: &Vec<String>) -> (r: Option<LogLevel>)
    requires
        debug_flags_complete(args@.map_values(|a: String| a@)),
    ensures
        r == level_after(args@.map_values(|a: String| a@), args.len() as int),
{
    let ghost a = args@.map_values(|a: String| a@);
    let flag: Vec<char> = vec!['-', 'd'];
    let mut level: Option<LogLevel> = None;
    let mut i: usize = 0;
    while i < args.len()
        invariant
            i <= args.len(),
            a == args@.map_values(|a: String| a@),
            flag@ == seq!['-', 'd'],
            debug_flags_complete(a),
            level == level_after(a, i as int),
        decreases args.len() - i,
    {
        assert(a[i as int] == args@[i as int]@);
        if chars_eq(&chars_of(args[i].as_str()), &flag) {
            assert(i + 1 < args.len());
            assert(a[i + 1] == args@[i + 1]@);
            level = Some(LogLevel::from_name(args[i + 1].as_str()));
        }
        i += 1;
    }
    level
}

/// Replaces every occurrence of the mistyped program name with the fixed one.
pub fn replace_command(command: &mut String, erroneous_command: &str, fixed_command: &str)
    ensures
        final(command)@ == replace_spec(old(command)@, erroneous_command@, fixed_command@),
{
    *command = replace(command.as_str(), erroneous_command, fixed_command);
}

/// What becomes of a command that named no program, after the user chose
/// from the menu.
#[derive(Clone, Copy, Debug, PartialEq, Eq, Structural)]
pub enum Retry {
    /// Run it again with the program name replaced by the correction.
    Replace,
    /// Let the user edit it, then run it again.
    Edit,
    /// Leave it.
    Skip,
}

/// The menu's options, by number: the suggested correction, a correction
/// among the Lua functions, editing, and giving up.
pub open spec fn spec_retry(choice: usize, correction: Seq<char>) -> Retry {
    if choice == 0 {
        if correction != "No solution found"@ { Retry::Replace } else { Retry::Skip }
    } else if choice == 2 {
        Retry::Edit
    } else {
        Retry::Skip
    }
}

/// What the chosen option does; a correction is only taken when one was found.
pub fn correction_retry(choice: usize, correction: &str) -> (r: Retry)
    ensures
        r == spec_retry(choice, correction@),
{
    if choice == 0 {
        if !chars_eq(&chars_of(correction), &chars_of("No solution found")) {
            Retry::Replace
        } else {
            Retry::Skip
        }
    } else if choice == 2 {
        Retry::Edit
    } else {
        Retry::Skip
    }
}

} // verus!
