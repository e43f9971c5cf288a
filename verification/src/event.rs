//! Simulation events and their classification.

use vstd::prelude::*;

verus! {

/// The kinds of event a fleet simulation emits.
#[derive(Debug, Clone, Copy, PartialEq, Eq, Structural)]
pub enum EventType {
    Storm,
    Clear,
    Fog,
    Outage,
    Bug,
    Security,
    DataLoss,
    Crash,
    Boom,
    UserRequest,
    UserFeedback,
    Night,
    Reset,
    Season,
}

impl EventType {
    /// The event kinds that count as a problem for the fleet.
    pub open spec fn spec_is_negative(self) -> bool {
        ||| self == EventType::Storm
        ||| self == EventType::Outage
        ||| self == EventType::Bug
        ||| self == EventType::Security
        ||| self == EventType::DataLoss
        ||| self == EventType::Crash
        ||| self == EventType::Fog
    }

    /// Whether the event is a problem for the fleet (storm, fog, outage,
    /// bug, security incident, data loss or crash).
    pub fn is_negative(&self) -> (b: bool)
        ensures
            b == self.spec_is_negative(),
    {
        match self {
            EventType::Storm | EventType::Outage | EventType::Bug | EventType::Security
            | EventType::DataLoss | EventType::Crash | EventType::Fog => true,
            _ => false,
        }
    }
    /// The lower-case name of the event kind, words joined by `_`.
    pub open spec fn spec_name(self) -> Seq<char> {
        match self {
            EventType::Storm => "storm"@,
            EventType::Clear => "clear"@,
            EventType::Fog => "fog"@,
            EventType::Outage => "outage"@,
            EventType::Bug => "bug"@,
            EventType::Security => "security"@,
            EventType::DataLoss => "data_loss"@,
            EventType::Crash => "crash"@,
            EventType::Boom => "boom"@,
            EventType::UserRequest => "user_request"@,
            EventType::UserFeedback => "user_feedback"@,
            EventType::Night => "night"@,
            EventType::Reset => "reset"@,
            EventType::Season => "season"@,
        }
    }

    /// Each kind's name, as the pattern texts spell it.
    pub proof fn law_event_names()
        ensures
            EventType::Storm.spec_name() == "storm"@,
            EventType::Clear.spec_name() == "clear"@,
            EventType::Fog.spec_name() == "fog"@,
            EventType::Outage.spec_name() == "outage"@,
            EventType::Bug.spec_name() == "bug"@,
            EventType::Security.spec_name() == "security"@,
            EventType::DataLoss.spec_name() == "data_loss"@,
            EventType::Crash.spec_name() == "crash"@,
            EventType::Boom.spec_name() == "boom"@,
            EventType::UserRequest.spec_name() == "user_request"@,
            EventType::UserFeedback.spec_name() == "user_feedback"@,
            EventType::Night.spec_name() == "night"@,
            EventType::Reset.spec_name() == "reset"@,
            EventType::Season.spec_name() == "season"@,
    {
    }

    /// The lower-case name of the event kind, as used in pattern texts.
    pub fn name(&self) -> (s: &'static str)
        ensures
            s@ == self.spec_name(),
    {
        match self {
            EventType::Storm => "storm",
            EventType::Clear => "clear",
            EventType::Fog => "fog",
            EventType::Outage => "outage",
            EventType::Bug => "bug",
            EventType::Security => "security",
            EventType::DataLoss => "data_loss",
            EventType::Crash => "crash",
            EventType::Boom => "boom",
            EventType::UserRequest => "user_request",
            EventType::UserFeedback => "user_feedback",
            EventType::Night => "night",
            EventType::Reset => "reset",
            EventType::Season => "season",
        }
    }
}

/// Bit pattern of the IEEE-754 single 0.2, the severity of a clear-weather event.
pub const CLEAR_SEVERITY: u32 = 0x3e4c_cccd;

/// One event of a simulation run.
///
/// The severity, a value from 0.0 to 1.0, is held as the bit pattern of an
/// IEEE-754 single: the library carries it and never computes with it.
#[derive(Debug)]
pub struct SimEvent {
    pub event_type: EventType,
    pub tick: u32,
    /// Bit pattern of the severity (0.0 to 1.0).
    pub severity: u32,
    /// How many ticks the event lasts.
    pub duration: u32,
    /// The ship the event hits: "all", a ship's name, or empty.
    pub target: String,
}

impl Clone for SimEvent {
    fn clone(&self) -> (e: Self)
        ensures
            e == *self,
    {
        SimEvent {
            event_type: self.event_type,
            tick: self.tick,
            severity: self.severity,
            duration: self.duration,
            target: self.target.clone(),
        }
    }
}

impl SimEvent {
    /// A storm that hits the whole fleet.
    pub fn storm(tick: u32, severity: u32, duration: u32) -> (e: Self)
        ensures
            e.event_type == EventType::Storm,
            e.tick == tick,
            e.severity == severity,
            e.duration == duration,
            e.target@ == "all"@,
    {
        SimEvent {
            event_type: EventType::Storm,
            tick,
            severity,
            duration,
            target: String::from_str("all"),
        }
    }

    /// An outage with no particular target.
    pub fn outage(tick: u32, severity: u32, duration: u32) -> (e: Self)
        ensures
            e.event_type == EventType::Outage,
            e.tick == tick,
            e.severity == severity,
            e.duration == duration,
            e.target@ == Seq::<char>::empty(),
    {
        SimEvent { event_type: EventType::Outage, tick, severity, duration, target: String::new() }
    }

    /// A bug lasting one tick, with no particular target.
    pub fn bug(tick: u32, severity: u32) -> (e: Self)
        ensures
            e.event_type == EventType::Bug,
            e.tick == tick,
            e.severity == severity,
            e.duration == 1,
            e.target@ == Seq::<char>::empty(),
    {
        SimEvent { event_type: EventType::Bug, tick, severity, duration: 1, target: String::new() }
    }

    /// Clear weather over the whole fleet for one tick, severity 0.2.
    pub fn clear(tick: u32) -> (e: Self)
        ensures
            e.event_type == EventType::Clear,
            e.tick == tick,
            e.severity == CLEAR_SEVERITY,
            e.duration == 1,
            e.target@ == "all"@,
    {
        SimEvent {
            event_type: EventType::Clear,
            tick,
            severity: CLEAR_SEVERITY,
            duration: 1,
            target: String::from_str("all"),
        }
    }
}

} // verus!

