//! Texts of patterns and tiles.
//!
//! Numbers are written in decimal. Texts that show a severity or a quality
//! take that value already written, since those are fractions.

use vstd::prelude::*;

use crate::pattern::{PatternPlan, PatternType};

verus! {

/// The decimal digit for `d` (below ten).
pub open spec fn spec_digit(d: nat) -> char {
    if d == 0 {
        '0'
    } else if d == 1 {
        '1'
    } else if d == 2 {
        '2'
    } else if d == 3 {
        '3'
    } else if d == 4 {
        '4'
    } else if d == 5 {
        '5'
    } else if d == 6 {
        '6'
    } else if d == 7 {
        '7'
    } else if d == 8 {
        '8'
    } else {
        '9'
    }
}

/// `n` written in decimal, without leading zeros.
pub open spec fn spec_decimal(n: nat) -> Seq<char>
    decreases n,
{
    if n < 10 {
        seq![spec_digit(n)]
    } else {
        spec_decimal(n / 10) + seq![spec_digit(n % 10)]
    }
}

fn digit(d: u64) -> (s: &'static str)
    requires
        d < 10,
    ensures
        s@ == seq![spec_digit(d as nat)],
{
    proof {
        reveal_strlit("0");
        reveal_strlit("1");
        reveal_strlit("2");
        reveal_strlit("3");
        reveal_strlit("4");
        reveal_strlit("5");
        reveal_strlit("6");
        reveal_strlit("7");
        reveal_strlit("8");
        reveal_strlit("9");
    }
    match d {
        0 => "0",
        1 => "1",
        2 => "2",
        3 => "3",
        4 => "4",
        5 => "5",
        6 => "6",
        7 => "7",
        8 => "8",
        _ => "9",
    }
}

/// `n` written in decimal, without leading zeros.
pub fn decimal(n: u64) -> (s: String)
    ensures
        s@ == spec_decimal(n as nat),
    decreases n,
{
    if n < 10 {
        String::from_str(digit(n))
    } else {
        let high = decimal(n / 10);
        high.concat(digit(n % 10))
    }
}

/// The name of the event that followed in an escalation: the follow-up's,
/// or the event's own where there is none.
pub open spec fn follow_up_name(plan: PatternPlan) -> Seq<char> {
    match plan.follow_up {
        Some(next) => next.event_type.spec_name(),
        None => plan.event.event_type.spec_name(),
    }
}

/// The trigger text of `plan`; `severity` is the event's severity written
/// with two decimals, shown in a response's trigger.
pub open spec fn spec_trigger_text(plan: PatternPlan, severity: Seq<char>) -> Seq<char> {
    let name = plan.event.event_type.spec_name();
    match plan.pattern_type {
        PatternType::Response => name + " at tick "@ + spec_decimal(plan.event.tick as nat)
            + " (severity: "@ + severity + ")"@,
        PatternType::Escalation => name + " followed by "@ + follow_up_name(plan) + " within "@
            + spec_decimal(plan.delay as nat) + " ticks"@,
        PatternType::Recovery => name + " recovery after "@ + spec_decimal(plan.delay as nat)
            + " ticks"@,
        PatternType::AutoResolve => name + " (duration "@ + spec_decimal(plan.event.duration as nat)
            + " ticks)"@,
        PatternType::CrossShip => name,
    }
}

/// The response text of `plan`.
pub open spec fn spec_response_text(plan: PatternPlan) -> Seq<char> {
    match plan.pattern_type {
        PatternType::Response => "Fleet responded over "@ + spec_decimal(plan.event.duration as nat)
            + " ticks"@,
        PatternType::Escalation => "Cascading failure pattern"@,
        PatternType::Recovery => "Fleet returned to healthy sentiment"@,
        PatternType::AutoResolve => "Wiki/expertise resolved without escalation"@,
        PatternType::CrossShip => Seq::empty(),
    }
}

/// The outcome text of `plan`; for a response, `resolved` tells whether
/// its quality was above one half.
pub open spec fn spec_outcome_text(plan: PatternPlan, resolved: bool) -> Seq<char> {
    match plan.pattern_type {
        PatternType::Response => if resolved {
            "resolved"@
        } else {
            "degraded"@
        },
        PatternType::Escalation => "escalation detected"@,
        PatternType::Recovery => "full recovery"@,
        PatternType::AutoResolve => "auto-resolved"@,
        PatternType::CrossShip => Seq::empty(),
    }
}

impl PatternPlan {
    /// The pattern's id: `pat-` followed by its number.
    pub fn id_text(&self) -> (s: String)
        ensures
            s@ == "pat-"@ + spec_decimal(self.id as nat),
    {
        String::from_str("pat-").concat(decimal(self.id as u64).as_str())
    }

    /// What set the pattern off: the event's name with, for a response, its
    /// tick and `severity` (the severity written with two decimals); for an
    /// escalation, the problem that followed and the gap; for a recovery,
    /// the delay; for an auto-resolve, the event's duration.
    pub fn trigger_text(&self, severity: &str) -> (s: String)
        ensures
            s@ == spec_trigger_text(*self, severity@),
    {
        let name = self.event.event_type.name();
        match self.pattern_type {
            PatternType::Response => String::from_str(name).concat(" at tick ").concat(
                decimal(self.event.tick as u64).as_str(),
            ).concat(" (severity: ").concat(severity).concat(")"),
            PatternType::Escalation => {
                let next = match &self.follow_up {
                    Some(e) => e.event_type.name(),
                    None => name,
                };
                String::from_str(name).concat(" followed by ").concat(next).concat(
                    " within ",
                ).concat(decimal(self.delay as u64).as_str()).concat(" ticks")
            },
            PatternType::Recovery => String::from_str(name).concat(" recovery after ").concat(
                decimal(self.delay as u64).as_str(),
            ).concat(" ticks"),
            PatternType::AutoResolve => String::from_str(name).concat(" (duration ").concat(
                decimal(self.event.duration as u64).as_str(),
            ).concat(" ticks)"),
            PatternType::CrossShip => String::from_str(name),
        }
    }

    /// How the fleet responded.
    pub fn response_text(&self) -> (s: String)
        ensures
            s@ == spec_response_text(*self),
    {
        match self.pattern_type {
            PatternType::Response => String::from_str("Fleet responded over ").concat(
                decimal(self.event.duration as u64).as_str(),
            ).concat(" ticks"),
            PatternType::Escalation => String::from_str("Cascading failure pattern"),
            PatternType::Recovery => String::from_str("Fleet returned to healthy sentiment"),
            PatternType::AutoResolve => String::from_str(
                "Wiki/expertise resolved without escalation",
            ),
            PatternType::CrossShip => String::new(),
        }
    }

    /// How it ended; for a response, `resolved` tells whether its quality
    /// was above one half.
    pub fn outcome_text(&self, resolved: bool) -> (s: String)
        ensures
            s@ == spec_outcome_text(*self, resolved),
    {
        match self.pattern_type {
            PatternType::Response => if resolved {
                String::from_str("resolved")
            } else {
                String::from_str("degraded")
            },
            PatternType::Escalation => String::from_str("escalation detected"),
            PatternType::Recovery => String::from_str("full recovery"),
            PatternType::AutoResolve => String::from_str("auto-resolved"),
            PatternType::CrossShip => String::new(),
        }
    }

}

} // verus!
