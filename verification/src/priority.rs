//! The priority levels that a process can be given, by name.

use crate::text::same_text;
use vstd::prelude::*;

verus! {

/// A priority level, highest first.
#[derive(Clone, Copy, Debug, PartialEq, Eq)]
pub enum PriorityLevel {
    Realtime,
    High,
    AboveNormal,
    Normal,
    BelowNormal,
    Low,
}

/// The level that a name stands for.
pub open spec fn level_named(name: Seq<char>) -> Option<PriorityLevel> {
    if name == "Realtime"@ {
        Some(PriorityLevel::Realtime)
    } else if name == "High"@ {
        Some(PriorityLevel::High)
    } else if name == "Above Normal"@ {
        Some(PriorityLevel::AboveNormal)
    } else if name == "Normal"@ {
        Some(PriorityLevel::Normal)
    } else if name == "Below Normal"@ {
        Some(PriorityLevel::BelowNormal)
    } else if name == "Low"@ {
        Some(PriorityLevel::Low)
    } else {
        None
    }
}

/// Reads a priority level by its name; `None` for any other text.
pub fn parse_priority(name: &str) -> (level: Option<PriorityLevel>)
    ensures
        level == level_named(name@),
{
    if same_text(name, "Realtime") {
        Some(PriorityLevel::Realtime)
    } else if same_text(name, "High") {
        Some(PriorityLevel::High)
    } else if same_text(name, "Above Normal") {
        Some(PriorityLevel::AboveNormal)
    } else if same_text(name, "Normal") {
        Some(PriorityLevel::Normal)
    } else if same_text(name, "Below Normal") {
        Some(PriorityLevel::BelowNormal)
    } else if same_text(name, "Low") {
        Some(PriorityLevel::Low)
    } else {
        None
    }
}

/// The niceness of a level: from -20, the most favourable scheduling, to 19.
pub open spec fn niceness(level: PriorityLevel) -> i32 {
    match level {
        PriorityLevel::Realtime => -20i32,
        PriorityLevel::High => -10i32,
        PriorityLevel::AboveNormal => -5i32,
        PriorityLevel::Normal => 0i32,
        PriorityLevel::BelowNormal => 5i32,
        PriorityLevel::Low => 19i32,
    }
}

/// Computes [`niceness`].
pub fn nice_value(level: PriorityLevel) -> (nice: i32)
    ensures
        nice == niceness(level),
{
    match level {
        PriorityLevel::Realtime => -20,
        PriorityLevel::High => -10,
        PriorityLevel::AboveNormal => -5,
        PriorityLevel::Normal => 0,
        PriorityLevel::BelowNormal => 5,
        PriorityLevel::Low => 19,
    }
}

/// A higher level never has a higher niceness.
pub proof fn law_niceness_follows_levels()
    ensures
        niceness(PriorityLevel::Realtime) < niceness(PriorityLevel::High) < niceness(
            PriorityLevel::AboveNormal,
        ) < niceness(PriorityLevel::Normal) < niceness(PriorityLevel::BelowNormal) < niceness(
            PriorityLevel::Low,
        ),
        forall|level: PriorityLevel| -20 <= #[trigger] niceness(level) <= 19,
{
}

} // verus!
