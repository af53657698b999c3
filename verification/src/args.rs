//! Command-line parsing: the command surface of the tool, the compact
//! duration-literal grammar, and the mapping from an argument vector to
//! the command it requests. Argument errors are decided here, before
//! any store is read.
use vstd::prelude::*;

use crate::stat;
use crate::text;
use crate::TwtError;

verus! {

use crate::stat::{LogColumn, column_of, iso_millis};
use crate::text::{dec_val, digits_len, views_of};

/// What an invocation asks for.
#[derive(Debug)]
pub enum Command {
    /// Print the usage text.
    Help,
    /// Run the tracking daemon.
    Run,
    /// Aggregate over the trailing range of the given length.
    Last { column: LogColumn, duration_ms: u64, pattern: Option<String> },
    /// Aggregate over an explicit UTC range.
    Span { column: LogColumn, begin: i64, end: i64, pattern: Option<String> },
}

/// The milliseconds a unit suffix stands for: one of `ms`, `s`, `m`,
/// `h`, `d`, `w`.
pub open spec fn unit_factor(u: Seq<char>) -> Option<int> {
    if u == "ms"@ {
        Some(1int)
    } else if u == "s"@ {
        Some(1000int)
    } else if u == "m"@ {
        Some(60000int)
    } else if u == "h"@ {
        Some(3600000int)
    } else if u == "d"@ {
        Some(86400000int)
    } else if u == "w"@ {
        Some(604800000int)
    } else {
        None
    }
}

/// The milliseconds a duration literal denotes: a non-empty digit run
/// followed by a unit suffix; anything else denotes nothing.
pub open spec fn duration_literal_ms(s: Seq<char>) -> Option<int> {
    let d = digits_len(s);
    if d == 0 {
        None
    } else {
        match unit_factor(s.skip(d)) {
            Some(f) => Some(dec_val(s.take(d)) * f),
            None => None,
        }
    }
}

/// Parses a duration literal into milliseconds. Succeeds exactly on a
/// literal of the grammar whose value fits an unsigned 64-bit count.
pub fn str_to_duration(duration_str: &str) -> (r: Result<u64, TwtError>)
    ensures
        match r {
            Ok(v) => duration_literal_ms(duration_str@) == Some(v as int),
            Err(e) => e == TwtError::BadDuration && match duration_literal_ms(duration_str@) {
                Some(m) => m > u64::MAX,
                None => true,
            },
        },
{
    let s = duration_str;
    let n = s.unicode_len();
    let mut d: usize = 0;
    let mut stop: bool = false;
    while d < n && !stop
        invariant
            0 <= d <= n,
            n == s@.len(),
            forall|j: int| 0 <= j < d ==> text::is_digit(#[trigger] s@[j]),
            stop ==> d < n && !text::is_digit(s@[d as int]),
        decreases n - d + (if stop {
            0int
        } else {
            1int
        }),
    {
        let c = s.get_char(d);
        let cv = c as u32;
        if cv < 48 || cv > 57 {
            stop = true;
        } else {
            d = d + 1;
        }
    }
    proof {
        text::lemma_digits_len_at(s@, d as int);
    }
    if d == 0 {
        return Err(TwtError::BadDuration);
    }
    let value = match text::parse_u64_range(s, 0, d) {
        Some(v) => v,
        None => {
            proof {
                let m = dec_val(s@.take(d as int));
                text::lemma_dec_val_nonneg(s@.take(d as int));
                if duration_literal_ms(s@) is Some {
                    let f = unit_factor(s@.skip(d as int))->0;
                    assert(f >= 1);
                    assert(m * f >= m * 1 == m) by (nonlinear_arith)
                        requires
                            m >= 0,
                            f >= 1,
                    ;
                }
            }
            return Err(TwtError::BadDuration);
        },
    };
    proof {
        assert(s@.subrange(0, d as int) =~= s@.take(d as int));
    }
    let unit = s.substring_char(d, n);
    proof {
        assert(unit@ =~= s@.skip(d as int));
    }
    let factor: u64 = if text::str_eq(unit, "ms") {
        1
    } else if text::str_eq(unit, "s") {
        1000
    } else if text::str_eq(unit, "m") {
        60000
    } else if text::str_eq(unit, "h") {
        3600000
    } else if text::str_eq(unit, "d") {
        86400000
    } else if text::str_eq(unit, "w") {
        604800000
    } else {
        return Err(TwtError::BadDuration);
    };
    proof {
        assert(unit_factor(s@.skip(d as int)) == Some(factor as int));
    }
    match value.checked_mul(factor) {
        Some(v) => Ok(v),
        None => Err(TwtError::BadDuration),
    }
}

/// The command an argument vector requests, argument errors decided
/// first. The leading argument is the program's own name; an unknown
/// command falls back to the usage text, an incomplete or malformed
/// `stat` invocation is refused with the exact argument error.
pub fn parse_args(args: &Vec<String>) -> (r: Result<Command, TwtError>)
    ensures
        ({
            let a = views_of(args@);
            if a.len() < 2 {
                r matches Ok(c) && c is Help
            } else if a[1] == "help"@ {
                r matches Ok(c) && c is Help
            } else if a[1] == "run"@ {
                r matches Ok(c) && c is Run
            } else if a[1] == "stat"@ {
                if a.len() < 3 {
                    r == Err::<Command, TwtError>(TwtError::MissingArgs)
                } else if a[2] == "last"@ {
                    if a.len() < 5 {
                        r == Err::<Command, TwtError>(TwtError::MissingArgs)
                    } else if !(duration_literal_ms(a[4]) matches Some(m) && m <= u64::MAX) {
                        r == Err::<Command, TwtError>(TwtError::BadDuration)
                    } else if column_of(a[3]) is Err {
                        r == Err::<Command, TwtError>(TwtError::BadColumn)
                    } else {
                        r matches Ok(Command::Last { column, duration_ms, pattern })
                            && column == column_of(a[3])->Ok_0 && duration_ms as int
                            == duration_literal_ms(a[4])->0 && (if a.len() >= 6 {
                            pattern matches Some(p) && p@ == a[5]
                        } else {
                            pattern is None
                        })
                    }
                } else if a[2] == "span"@ {
                    if a.len() < 6 {
                        r == Err::<Command, TwtError>(TwtError::MissingArgs)
                    } else if iso_millis(a[4]) is None {
                        r == Err::<Command, TwtError>(TwtError::BadTimestamp)
                    } else if iso_millis(a[5]) is None {
                        r == Err::<Command, TwtError>(TwtError::BadTimestamp)
                    } else if column_of(a[3]) is Err {
                        r == Err::<Command, TwtError>(TwtError::BadColumn)
                    } else {
                        r matches Ok(Command::Span { column, begin, end, pattern })
                            && column == column_of(a[3])->Ok_0 && Some(begin as int) == iso_millis(
                            a[4],
                        ) && Some(end as int) == iso_millis(a[5]) && (if a.len() >= 7 {
                            pattern matches Some(p) && p@ == a[6]
                        } else {
                            pattern is None
                        })
                    }
                } else {
                    r == Err::<Command, TwtError>(TwtError::BadSubcommand)
                }
            } else {
                r matches Ok(c) && c is Help
            }
        }),
{
    let ghost a = views_of(args@);
    if args.len() < 2 {
        return Ok(Command::Help);
    }
    proof {
        assert(a[1] == args@[1]@);
    }
    let a1 = args[1].as_str();
    if text::str_eq(a1, "help") {
        return Ok(Command::Help);
    }
    if text::str_eq(a1, "run") {
        return Ok(Command::Run);
    }
    if !text::str_eq(a1, "stat") {
        return Ok(Command::Help);
    }
    if args.len() < 3 {
        return Err(TwtError::MissingArgs);
    }
    proof {
        assert(a[2] == args@[2]@);
    }
    let a2 = args[2].as_str();
    if text::str_eq(a2, "last") {
        if args.len() < 5 {
            return Err(TwtError::MissingArgs);
        }
        proof {
            assert(a[3] == args@[3]@);
            assert(a[4] == args@[4]@);
        }
        let duration_ms = match str_to_duration(args[4].as_str()) {
            Ok(v) => v,
            Err(e) => {
                return Err(e);
            },
        };
        let column = match LogColumn::from_arg(args[3].as_str()) {
            Ok(c) => c,
            Err(e) => {
                return Err(e);
            },
        };
        let pattern: Option<String> = if args.len() >= 6 {
            proof {
                assert(a[5] == args@[5]@);
            }
            Some(args[5].clone())
        } else {
            None
        };
        Ok(Command::Last { column, duration_ms, pattern })
    } else if text::str_eq(a2, "span") {
        if args.len() < 6 {
            return Err(TwtError::MissingArgs);
        }
        proof {
            assert(a[3] == args@[3]@);
            assert(a[4] == args@[4]@);
            assert(a[5] == args@[5]@);
        }
        let begin = match stat::iso_to_timestamp_millis(args[4].as_str()) {
            Ok(v) => v,
            Err(e) => {
                return Err(e);
            },
        };
        let end = match stat::iso_to_timestamp_millis(args[5].as_str()) {
            Ok(v) => v,
            Err(e) => {
                return Err(e);
            },
        };
        let column = match LogColumn::from_arg(args[3].as_str()) {
            Ok(c) => c,
            Err(e) => {
                return Err(e);
            },
        };
        let pattern: Option<String> = if args.len() >= 7 {
            proof {
                assert(a[6] == args@[6]@);
            }
            Some(args[6].clone())
        } else {
            None
        };
        Ok(Command::Span { column, begin, end, pattern })
    } else {
        Err(TwtError::BadSubcommand)
    }
}

} // verus!
