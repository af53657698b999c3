//! Core of a single-user window-focus usage tracker.
//!
//! The library covers the logic of the tracker: the session record and its
//! tab-separated store format, the polling state machine that opens,
//! extends and closes focus sessions, the aggregation of a session log
//! over a time range, and the compact rendering of durations. All reading
//! and writing of files, the clock, and the window system live outside,
//! in the surrounding binary; they hand the library plain values.
use vstd::prelude::*;

pub mod args;
pub mod pattern;
pub mod stat;
pub mod store;
pub mod text;
pub mod tracker;

verus! {

/// Ghost image of a session record.
pub struct LogV {
    pub class: Seq<char>,
    pub name: Seq<char>,
    pub start: int,
    pub end: Option<int>,
}

/// One session record: the window's application class and window name,
/// the start instant, and the end instant while closed (`None` while the
/// session is still open). Instants are milliseconds since the epoch, UTC.
#[derive(Debug)]
pub struct Log {
    pub window_class: String,
    pub window_name: String,
    pub start: i64,
    pub end: Option<i64>,
}

impl View for Log {
    type V = LogV;

    open spec fn view(&self) -> LogV {
        LogV {
            class: self.window_class@,
            name: self.window_name@,
            start: self.start as int,
            end: match self.end {
                Some(e) => Some(e as int),
                None => None,
            },
        }
    }
}

impl LogV {
    /// A record the store can hold: a non-empty class, fields free of the
    /// two delimiter characters, a non-negative start, and an end no
    /// earlier than the start when present.
    pub open spec fn wf(self) -> bool {
        &&& self.class.len() > 0
        &&& text::no_tab_nl(self.class)
        &&& text::no_tab_nl(self.name)
        &&& 0 <= self.start
        &&& match self.end {
            Some(e) => self.start <= e,
            None => true,
        }
    }
}

impl Log {
    pub fn new(window_class: String, window_name: String, start: i64, end: Option<i64>) -> (r: Log)
        ensures
            r@ == (LogV {
                class: window_class@,
                name: window_name@,
                start: start as int,
                end: match end {
                    Some(e) => Some(e as int),
                    None => None,
                },
            }),
    {
        Log { window_class, window_name, start, end }
    }

    /// An exact copy.
    pub fn duplicate(&self) -> (r: Log)
        ensures
            r@ == self@,
    {
        Log {
            window_class: self.window_class.clone(),
            window_name: self.window_name.clone(),
            start: self.start,
            end: self.end,
        }
    }

    /// Same window identity: both the class and the name agree.
    pub fn same_window_as(&self, other_log: &Log) -> (r: bool)
        ensures
            r == (self@.class == other_log@.class && self@.name == other_log@.name),
    {
        self.window_class == other_log.window_class
            && self.window_name == other_log.window_name
    }
}

/// Every error the library reports. Store I/O failures and the
/// single-instance check are the binary's affair and are not here.
#[derive(Debug, PartialEq, Eq, Structural, Clone, Copy)]
pub enum TwtError {
    /// A store line that does not parse; `line` is its one-based position
    /// in the file. A refused end-patch names the file's last line, or
    /// line 1 when the file holds no line at all.
    Corrupt { line: usize },
    /// Too few command-line arguments for the requested command.
    MissingArgs,
    /// The subcommand after `stat` is neither `last` nor `span`.
    BadSubcommand,
    /// The grouping column is neither `n` nor `c`.
    BadColumn,
    /// A duration literal outside the `<integer><ms|s|m|h|d|w>` grammar,
    /// or one too large to measure in milliseconds.
    BadDuration,
    /// A timestamp outside the `YYYY-MM-DD HH:MM:SS` form.
    BadTimestamp,
    /// A filter pattern that is not a valid regular expression.
    BadPattern,
    /// A queried range that cannot be represented in milliseconds.
    BadRange,
    /// A per-key duration total too large for the formatter.
    Overflow,
}

impl TwtError {
    /// A human-readable description of the error.
    pub fn message(&self) -> (r: String)
        ensures
            match self {
                TwtError::Corrupt { line } => r@ == "Malformed store line "@ + text::dec_seq(
                    *line as int,
                ) + "."@,
                TwtError::MissingArgs => r@ == "Missing arguments."@,
                TwtError::BadSubcommand => r@
                    == "Wrong argument for `twt stat`, should be one of [span|last]."@,
                TwtError::BadColumn => r@
                    == "Wrong argument for `twt stat [last|span]`, should be one of [n|c]."@,
                TwtError::BadDuration => r@ == "Malformed or oversized duration literal."@,
                TwtError::BadTimestamp => r@
                    == "Malformed timestamp, expected `YYYY-MM-DD HH:MM:SS` (UTC)."@,
                TwtError::BadPattern => r@ == "Malformed filter pattern."@,
                TwtError::BadRange => r@ == "The queried range cannot be represented."@,
                TwtError::Overflow => r@ == "A summed duration is too large to render."@,
            },
    {
        match self {
            TwtError::Corrupt { line } => {
                let mut out = String::from_str("Malformed store line ");
                let num = text::fmt_u64(*line as u64);
                out.append(num.as_str());
                out.append(".");
                out
            },
            TwtError::MissingArgs => String::from_str("Missing arguments."),
            TwtError::BadSubcommand => String::from_str(
                "Wrong argument for `twt stat`, should be one of [span|last].",
            ),
            TwtError::BadColumn => String::from_str(
                "Wrong argument for `twt stat [last|span]`, should be one of [n|c].",
            ),
            TwtError::BadDuration => String::from_str("Malformed or oversized duration literal."),
            TwtError::BadTimestamp => String::from_str(
                "Malformed timestamp, expected `YYYY-MM-DD HH:MM:SS` (UTC).",
            ),
            TwtError::BadPattern => String::from_str("Malformed filter pattern."),
            TwtError::BadRange => String::from_str("The queried range cannot be represented."),
            TwtError::Overflow => String::from_str("A summed duration is too large to render."),
        }
    }
}

} // verus!
