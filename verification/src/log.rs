//! Log levels.

use vstd::prelude::*;
use crate::config::{ascii_lowercase, is_ascii_text, lowercase, to_lowercase};
use crate::text::{chars_eq, chars_of, is_ws, trim, trim_end, trim_start};

verus! {

broadcast use vstd::string::group_string_axioms;

/// How important a log message is, from least to most.
#[derive(Clone, Copy, Debug, PartialEq, Eq, Structural)]
pub enum LogLevel {
    Debug,
    Info,
    Warn,
    Error,
    Fatal,
}

/// The level a name stands for, in any case; an unknown name is `Info`.
pub open spec fn spec_level_of(name: Seq<char>) -> LogLevel {
    level_of_lower(lowercase(name))
}

/// The level a lower-case name stands for; an unknown name is `Info`.
pub open spec fn level_of_lower(l: Seq<char>) -> LogLevel {
    if l == "debug"@ {
        LogLevel::Debug
    } else if l == "info"@ {
        LogLevel::Info
    } else if l == "warn"@ {
        LogLevel::Warn
    } else if l == "error"@ {
        LogLevel::Error
    } else if l == "fatal"@ {
        LogLevel::Fatal
    } else {
        LogLevel::Info
    }
}

pub open spec fn spec_rank(l: LogLevel) -> usize {
    match l {
        LogLevel::Debug => 0,
        LogLevel::Info => 1,
        LogLevel::Warn => 2,
        LogLevel::Error => 3,
        LogLevel::Fatal => 4,
    }
}

/// The name a level is printed with, five characters wide.
pub open spec fn spec_name(l: LogLevel) -> Seq<char> {
    match l {
        LogLevel::Debug => "Debug"@,
        LogLevel::Info => "Info "@,
        LogLevel::Warn => "Warn "@,
        LogLevel::Error => "Error"@,
        LogLevel::Fatal => "Fatal"@,
    }
}

/// A level's printed name, trimmed, reads back as that level; it is ASCII,
/// so the reading ignores case.
pub proof fn law_level_name_reads_back(l: LogLevel)
    ensures
        is_ascii_text(trim(spec_name(l))),
        level_of_lower(ascii_lowercase(trim(spec_name(l)))) == l,
{
    reveal_strlit("Debug");
    reveal_strlit("Info ");
    reveal_strlit("Warn ");
    reveal_strlit("Error");
    reveal_strlit("Fatal");
    reveal_strlit("debug");
    reveal_strlit("info");
    reveal_strlit("warn");
    reveal_strlit("error");
    reveal_strlit("fatal");
    let n = spec_name(l);
    assert(n.len() == 5);
    assert(!is_ws(n[0]) && !is_ws(n[3]));
    assert(trim_start(n) == n);
    let t = trim(n);
    if is_ws(n[4]) {
        assert(n.drop_last().len() == 4);
        assert(trim_end(n) == trim_end(n.drop_last()));
        assert(trim_end(n.drop_last()) == n.drop_last());
        assert(t =~= n.drop_last());
    } else {
        assert(t == n);
    }
    let lower = ascii_lowercase(t);
    match l {
        LogLevel::Debug => {
            assert(lower =~= "debug"@);
        },
        LogLevel::Info => {
            assert(lower =~= "info"@);
            assert(lower[0] != "debug"@[0]);
        },
        LogLevel::Warn => {
            assert(lower =~= "warn"@);
            assert(lower[0] != "debug"@[0]);
            assert(lower[0] != "info"@[0]);
        },
        LogLevel::Error => {
            assert(lower =~= "error"@);
            assert(lower[0] != "debug"@[0]);
            assert(lower[0] != "info"@[0]);
            assert(lower[0] != "warn"@[0]);
        },
        LogLevel::Fatal => {
            assert(lower =~= "fatal"@);
            assert(lower[0] != "debug"@[0]);
            assert(lower[0] != "info"@[0]);
            assert(lower[0] != "warn"@[0]);
            assert(lower[0] != "error"@[0]);
        },
    }
}

/// Any ASCII spelling whose lower case is a level's lower-case name reads
/// as that level, whatever its case; any other reads as `Info`.
pub proof fn law_level_case_ignored(s: Seq<char>, l: LogLevel)
    requires
        is_ascii_text(s),
        ascii_lowercase(s) == ascii_lowercase(trim(spec_name(l))),
    ensures
        level_of_lower(ascii_lowercase(s)) == l,
{
    law_level_name_reads_back(l);
}

impl LogLevel {
    /// The level named `input`: `debug`, `info`, `warn`, `error` or
    /// `fatal` in any case, and `Info` for anything else.
    pub fn from_name(input: &str) -> (r: LogLevel)
        ensures
            r == spec_level_of(input@),
            is_ascii_text(input@) ==> r == level_of_lower(ascii_lowercase(input@)),
    {
        let l = chars_of(to_lowercase(input).as_str());
        if chars_eq(&l, &chars_of("debug")) {
            LogLevel::Debug
        } else if chars_eq(&l, &chars_of("info")) {
            LogLevel::Info
        } else if chars_eq(&l, &chars_of("warn")) {
            LogLevel::Warn
        } else if chars_eq(&l, &chars_of("error")) {
            LogLevel::Error
        } else if chars_eq(&l, &chars_of("fatal")) {
            LogLevel::Fatal
        } else {
            LogLevel::Info
        }
    }

    /// The level's place in the order, from 0 for `Debug` to 4 for `Fatal`.
    pub fn rank(&self) -> (r: usize)
        ensures
            r == spec_rank(*self),
    {
        match self {
            LogLevel::Debug => 0,
            LogLevel::Info => 1,
            LogLevel::Warn => 2,
            LogLevel::Error => 3,
            LogLevel::Fatal => 4,
        }
    }

    /// Whether a message at this level is shown when the threshold is `threshold`.
    pub fn shown_at(&self, threshold: LogLevel) -> (r: bool)
        ensures
            r == (spec_rank(*self) >= spec_rank(threshold)),
    {
        self.rank() >= threshold.rank()
    }

    /// The level's name as it is printed, five characters wide.
    pub fn name(&self) -> (r: &'static str)
        ensures
            r@ == spec_name(*self),
    {
        match self {
            LogLevel::Debug => "Debug",
            LogLevel::Info => "Info ",
            LogLevel::Warn => "Warn ",
            LogLevel::Error => "Error",
            LogLevel::Fatal => "Fatal",
        }
    }
}

impl std::str::FromStr for LogLevel {
    type Err = ();

    fn from_str(input: &str) -> (r: Result<Self, Self::Err>)
        ensures
            r == Ok::<LogLevel, ()>(spec_level_of(input@)),
            is_ascii_text(input@) ==> r == Ok::<LogLevel, ()>(level_of_lower(ascii_lowercase(input@))),
    {
        Ok(LogLevel::from_name(input))
    }
}

} // verus!
