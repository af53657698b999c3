//! The polling state machine of the daemon. Each tick takes one
//! observation of the focused window and one idle verdict, and decides
//! whether the open session is extended, closed, or replaced by a fresh
//! one. The state is an explicit value threaded through the ticks; the
//! effect names the store operations the caller must perform, in order.
use vstd::prelude::*;

use crate::text;
use crate::{Log, LogV};

verus! {

use crate::text::{no_tab_nl, split_spec, trim_spec, untabbed};

/// One poll's report from the observation source.
#[derive(Debug)]
pub enum Observation {
    /// The focused window's application class and window name.
    Identity { window_class: String, window_name: String },
    /// The window could not be observed this tick.
    Failed,
}

impl Observation {
    /// An identity the store can hold: a non-empty class, no tabs and
    /// no newlines in either field.
    pub open spec fn wf(&self) -> bool {
        match self {
            Observation::Identity { window_class, window_name } => window_class@.len() > 0
                && no_tab_nl(window_class@) && no_tab_nl(window_name@),
            Observation::Failed => true,
        }
    }
}

/// What the caller must do to the store after a tick, in order.
#[derive(Debug)]
pub enum TickEffect {
    /// Nothing: the tick left no open session and opened none.
    Nothing,
    /// Rewrite the last record's end to the tick instant.
    RefreshEnd,
    /// Append the record as a fresh line, then stamp its end with the
    /// tick instant.
    Open(Log),
    /// Stamp the last record's end (closing the old session), append
    /// the record, then stamp the new line's end as well.
    CloseAndOpen(Log),
}

/// The class an observation reports; empty on failure.
pub open spec fn obs_class(o: Observation) -> Seq<char> {
    match o {
        Observation::Identity { window_class, window_name } => window_class@,
        Observation::Failed => Seq::empty(),
    }
}

/// The window name an observation reports; empty on failure.
pub open spec fn obs_name(o: Observation) -> Seq<char> {
    match o {
        Observation::Identity { window_class, window_name } => window_name@,
        Observation::Failed => Seq::empty(),
    }
}

/// A record with only its end field advanced to `now`.
pub open spec fn refreshed(l: LogV, now: int) -> LogV {
    LogV { class: l.class, name: l.name, start: l.start, end: Some(now) }
}

/// The record a session opened at `now` starts from: its end is stamped
/// at once, so even a single-tick session has a valid end.
pub open spec fn fresh_log(class: Seq<char>, name: Seq<char>, now: int) -> LogV {
    LogV { class, name, start: now, end: Some(now) }
}

/// The tracker's whole state: the open record, if any, and whether the
/// next successful observation must open a fresh session.
#[derive(Debug)]
pub struct TrackerState {
    pub current: Option<Log>,
    pub pending_reopen: bool,
}

impl TrackerState {
    /// The open record, when present, is a well-formed store record
    /// with a stamped end.
    pub open spec fn wf(&self) -> bool {
        match self.current {
            Some(l) => l@.wf() && l@.end is Some,
            None => true,
        }
    }

    pub fn new() -> (s: Self)
        ensures
            s.current is None,
            !s.pending_reopen,
            s.wf(),
    {
        TrackerState { current: None, pending_reopen: false }
    }

    /// An idle tick, or one whose observation failed: the open record's
    /// end is refreshed so at most one poll interval is ever lost, and
    /// the next successful observation is forced to open a fresh
    /// session.
    fn pause_tick(self, now: i64) -> (r: (TrackerState, TickEffect))
        requires
            self.wf(),
            0 <= now,
            self.current matches Some(l) ==> l@.end->0 <= now && l@.start <= now,
        ensures
            r.0.wf(),
            r.0.pending_reopen,
            match self.current {
                Some(l) => r.0.current matches Some(l2) && l2@ == refreshed(l@, now as int)
                    && r.1 is RefreshEnd,
                None => r.0.current is None && r.1 is Nothing,
            },
    {
        match self.current {
            Some(l) => {
                let nl = Log {
                    window_class: l.window_class,
                    window_name: l.window_name,
                    start: l.start,
                    end: Some(now),
                };
                (TrackerState { current: Some(nl), pending_reopen: true }, TickEffect::RefreshEnd)
            },
            None => (
                TrackerState { current: None, pending_reopen: true },
                TickEffect::Nothing,
            ),
        }
    }

    /// One tick of the state machine, in the priority order of the
    /// transition rules: an idle verdict wins over everything, a failed
    /// observation is treated the same way, and a successful
    /// observation either extends the matching open session or closes
    /// it and opens a fresh one.
    pub fn tick(self, observation: Observation, is_idle: bool, now: i64) -> (r: (
        TrackerState,
        TickEffect,
    ))
        requires
            self.wf(),
            observation.wf(),
            0 <= now,
            self.current matches Some(l) ==> l@.end->0 <= now && l@.start <= now,
        ensures
            r.0.wf(),
            (is_idle || observation is Failed) ==> r.0.pending_reopen && match self.current {
                Some(l) => r.0.current matches Some(l2) && l2@ == refreshed(l@, now as int)
                    && r.1 is RefreshEnd,
                None => r.0.current is None && r.1 is Nothing,
            },
            (!is_idle && observation is Identity) ==> ({
                let c = obs_class(observation);
                let t = obs_name(observation);
                if self.current matches Some(l) && !self.pending_reopen && l@.class == c
                    && l@.name == t {
                    &&& !r.0.pending_reopen
                    &&& r.0.current matches Some(l2) && l2@ == refreshed(
                        self.current->0@,
                        now as int,
                    )
                    &&& r.1 is RefreshEnd
                } else {
                    &&& !r.0.pending_reopen
                    &&& r.0.current matches Some(l2) && l2@ == fresh_log(c, t, now as int)
                    &&& match self.current {
                        Some(_) => r.1 matches TickEffect::CloseAndOpen(lg) && lg@ == fresh_log(
                            c,
                            t,
                            now as int,
                        ),
                        None => r.1 matches TickEffect::Open(lg) && lg@ == fresh_log(
                            c,
                            t,
                            now as int,
                        ),
                    }
                }
            }),
    {
        if is_idle {
            return self.pause_tick(now);
        }
        match observation {
            Observation::Failed => self.pause_tick(now),
            Observation::Identity { window_class, window_name } => {
                let same: bool = match &self.current {
                    Some(l) => l.window_class == window_class && l.window_name == window_name,
                    None => false,
                };
                if same && !self.pending_reopen {
                    match self.current {
                        Some(l) => {
                            let nl = Log {
                                window_class: l.window_class,
                                window_name: l.window_name,
                                start: l.start,
                                end: Some(now),
                            };
                            (
                                TrackerState { current: Some(nl), pending_reopen: false },
                                TickEffect::RefreshEnd,
                            )
                        },
                        None => {
                            proof {
                                assert(false);
                            }
                            (
                                TrackerState { current: None, pending_reopen: false },
                                TickEffect::Nothing,
                            )
                        },
                    }
                } else {
                    let was_open = match &self.current {
                        Some(_) => true,
                        None => false,
                    };
                    let nl = Log { window_class, window_name, start: now, end: Some(now) };
                    let effect = if was_open {
                        TickEffect::CloseAndOpen(nl.duplicate())
                    } else {
                        TickEffect::Open(nl.duplicate())
                    };
                    (TrackerState { current: Some(nl), pending_reopen: false }, effect)
                }
            },
        }
    }
}

/// Whether the user counts as away: no active playback, and more
/// milliseconds since the last input than the configured threshold
/// allows.
pub fn is_user_afk(ms_since_user_input: u32, afk_interval_s: u32, playing: bool) -> (r: bool)
    ensures
        r == (!playing && ms_since_user_input > 1000 * (afk_interval_s as int)),
{
    if playing {
        return false;
    }
    (ms_since_user_input as u64) > 1000u64 * (afk_interval_s as u64)
}

/// Whether the playback reporter's trimmed output names active
/// playback.
pub fn is_something_playing(status: &str) -> (r: bool)
    ensures
        r == (trim_spec(status@) == "Playing"@),
{
    let t = text::trim_str(status);
    text::str_eq(t.as_str(), "Playing")
}

/// The lines of the observation helper's output, each with tabs turned
/// into spaces and whitespace stripped from its ends.
pub open spec fn observation_fields(raw: Seq<char>) -> Seq<Seq<char>> {
    split_spec(trim_spec(raw), '\n').map_values(|p: Seq<char>| trim_spec(untabbed(p)))
}

/// The identity an observation text reports: its first line is the
/// window class, its second the window name. Fewer than two lines, or
/// an empty class, make no identity.
pub open spec fn parse_observation_spec(raw: Seq<char>) -> Option<(Seq<char>, Seq<char>)> {
    let fields = observation_fields(raw);
    if fields.len() < 2 {
        None
    } else if fields[0].len() == 0 {
        None
    } else {
        Some((fields[0], fields[1]))
    }
}

/// Reads the observation helper's output into an observation. Whatever
/// does not yield a usable identity counts as a failed observation.
pub fn parse_observation(raw: &str) -> (r: Observation)
    ensures
        match parse_observation_spec(raw@) {
            Some(ct) => r matches Observation::Identity { window_class, window_name }
                && window_class@ == ct.0 && window_name@ == ct.1,
            None => r is Failed,
        },
        r.wf(),
{
    let ghost fields = observation_fields(raw@);
    let t = text::trim_str(raw);
    let parts = text::split_str(t.as_str(), '\n');
    proof {
        assert(fields.len() == parts@.len());
    }
    if parts.len() < 2 {
        return Observation::Failed;
    }
    proof {
        assert(parts@[0]@ == split_spec(trim_spec(raw@), '\n')[0]);
        assert(parts@[1]@ == split_spec(trim_spec(raw@), '\n')[1]);
        text::lemma_split_basic(trim_spec(raw@), '\n');
    }
    let c_raw = text::replace_tabs(parts[0].as_str());
    let window_class = text::trim_str(c_raw.as_str());
    let n_raw = text::replace_tabs(parts[1].as_str());
    let window_name = text::trim_str(n_raw.as_str());
    proof {
        assert(window_class@ == fields[0]);
        assert(window_name@ == fields[1]);
        assert forall|i: int| 0 <= i < untabbed(parts@[0]@).len() implies #[trigger] untabbed(
            parts@[0]@,
        )[i] != '\t' && untabbed(parts@[0]@)[i] != '\n' by {
            assert(parts@[0]@[i] != '\n');
        }
        assert forall|i: int| 0 <= i < untabbed(parts@[1]@).len() implies #[trigger] untabbed(
            parts@[1]@,
        )[i] != '\t' && untabbed(parts@[1]@)[i] != '\n' by {
            assert(parts@[1]@[i] != '\n');
        }
        text::lemma_trim_keeps(untabbed(parts@[0]@), '\t');
        text::lemma_trim_keeps(untabbed(parts@[0]@), '\n');
        text::lemma_trim_keeps(untabbed(parts@[1]@), '\t');
        text::lemma_trim_keeps(untabbed(parts@[1]@), '\n');
    }
    if window_class.as_str().is_empty() {
        return Observation::Failed;
    }
    Observation::Identity { window_class, window_name }
}

} // verus!
