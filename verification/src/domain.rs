//! The data the filter works on: an action scheduled against an entity.

use vstd::prelude::*;

verus! {

/// Priority level for actions, with `Urgent` taking precedence over `Normal`.
///
/// The two values are a closed enumeration; ordering the output means putting
/// every urgent action before every normal one.
#[derive(Clone, Copy, Debug, PartialEq, Eq, Structural)]
pub enum Priority {
    Urgent,
    Normal,
}

/// An action to be performed on an entity.
///
/// Timestamps are UTC instants counted in whole seconds since the Unix epoch;
/// callers that hold timezone-aware datetimes convert them to seconds before
/// handing records in.
#[derive(Clone, Debug, PartialEq, Eq)]
pub struct Action {
    /// Identifier of the entity this action applies to; the deduplication key.
    pub entity_id: String,
    /// When this action was last performed.
    pub last_action_time: i64,
    /// When this action is next due.
    pub next_action_time: i64,
    /// Priority level of this action.
    pub priority: Priority,
}

impl PartialOrd for Action {
    /// Orders actions by their `next_action_time` (earliest first).
    fn partial_cmp(&self, other: &Self) -> (r: Option<core::cmp::Ordering>) {
        if self.next_action_time < other.next_action_time {
            Some(core::cmp::Ordering::Less)
        } else if self.next_action_time == other.next_action_time {
            Some(core::cmp::Ordering::Equal)
        } else {
            Some(core::cmp::Ordering::Greater)
        }
    }
}

impl vstd::std_specs::cmp::PartialOrdSpecImpl for Action {
    open spec fn obeys_partial_cmp_spec() -> bool {
        true
    }

    open spec fn partial_cmp_spec(&self, other: &Self) -> Option<core::cmp::Ordering> {
        if self.next_action_time < other.next_action_time {
            Some(core::cmp::Ordering::Less)
        } else if self.next_action_time == other.next_action_time {
            Some(core::cmp::Ordering::Equal)
        } else {
            Some(core::cmp::Ordering::Greater)
        }
    }
}

} // verus!
