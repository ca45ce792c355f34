//! Bulk removal of a key range from a node of an ordered index: the state
//! machine that classifies the children of a node, taken in key order.

use vstd::prelude::*;

verus! {

/// One end of a key range.
#[derive(Debug, Clone, Copy, PartialEq, Eq, Structural)]
pub enum KeyBound {
    Included(u64),
    Excluded(u64),
    Unbounded,
}

/// A range of keys given by its two ends.
#[derive(Debug, Clone, Copy, PartialEq, Eq, Structural)]
pub struct KeyRange {
    pub start: KeyBound,
    pub end: KeyBound,
}

/// Whether `key` lies on the inner side of the start bound.
pub open spec fn after_start(start: KeyBound, key: u64) -> bool {
    match start {
        KeyBound::Included(k) => k <= key,
        KeyBound::Excluded(k) => k < key,
        KeyBound::Unbounded => true,
    }
}

/// Whether `key` lies on the inner side of the end bound.
pub open spec fn before_end(end: KeyBound, key: u64) -> bool {
    match end {
        KeyBound::Included(k) => key <= k,
        KeyBound::Excluded(k) => key < k,
        KeyBound::Unbounded => true,
    }
}

/// Whether `range` contains `key`.
pub open spec fn in_range(range: KeyRange, key: u64) -> bool {
    after_start(range.start, key) && before_end(range.end, key)
}

/// Whether `range` contains `key`.
pub fn range_contains(range: &KeyRange, key: u64) -> (r: bool)
    ensures
        r == in_range(*range, key),
{
    let after = match range.start {
        KeyBound::Included(k) => k <= key,
        KeyBound::Excluded(k) => k < key,
        KeyBound::Unbounded => true,
    };
    let before = match range.end {
        KeyBound::Included(k) => key <= k,
        KeyBound::Excluded(k) => key < k,
        KeyBound::Unbounded => true,
    };
    after && before
}

/// Progress of a bulk removal through the children of a node, whose keys
/// are visited in increasing order; each child holds the keys up to its own.
#[derive(Debug, Clone, Copy, PartialEq, Eq, Structural)]
pub enum RemoveRangeState {
    /// The largest key of the child is below the range.
    Below,
    /// The largest key of the child is in the range; whether its smallest key
    /// is in the range is not known.
    MaybeBelow,
    /// Both the largest and the smallest key of the child are in the range.
    FullyContained,
    /// The largest key of the child is above the range; its smallest key may
    /// be in it.
    MaybeAbove,
}

/// The position of a state in the order the states are passed through.
pub open spec fn rank(s: RemoveRangeState) -> nat {
    match s {
        RemoveRangeState::Below => 0,
        RemoveRangeState::MaybeBelow => 1,
        RemoveRangeState::FullyContained => 2,
        RemoveRangeState::MaybeAbove => 3,
    }
}

/// The state after the child whose largest key is `key`.
pub open spec fn next_state(s: RemoveRangeState, key: u64, range: KeyRange, start_unbounded: bool) -> RemoveRangeState {
    if in_range(range, key) {
        match s {
            RemoveRangeState::Below => if start_unbounded {
                RemoveRangeState::FullyContained
            } else {
                RemoveRangeState::MaybeBelow
            },
            _ => RemoveRangeState::FullyContained,
        }
    } else {
        match s {
            RemoveRangeState::Below => if after_start(range.start, key) {
                RemoveRangeState::MaybeAbove
            } else {
                RemoveRangeState::Below
            },
            _ => RemoveRangeState::MaybeAbove,
        }
    }
}

impl RemoveRangeState {
    /// The state after the child whose largest key is `key`. A walk never
    /// continues past `MaybeAbove`.
    pub fn next(self, key: u64, range: &KeyRange, start_unbounded: bool) -> (r: Self)
        requires
            self != RemoveRangeState::MaybeAbove,
        ensures
            r == next_state(self, key, *range, start_unbounded),
            rank(r) >= rank(self),
            rank(r) > rank(self) || r == RemoveRangeState::Below || r
                == RemoveRangeState::FullyContained,
    {
        if range_contains(range, key) {
            match self {
                RemoveRangeState::Below => {
                    if start_unbounded {
                        RemoveRangeState::FullyContained
                    } else {
                        RemoveRangeState::MaybeBelow
                    }
                },
                _ => RemoveRangeState::FullyContained,
            }
        } else {
            match self {
                RemoveRangeState::Below => match range.start {
                    KeyBound::Included(k) => {
                        if k <= key {
                            RemoveRangeState::MaybeAbove
                        } else {
                            RemoveRangeState::Below
                        }
                    },
                    KeyBound::Excluded(k) => {
                        if k < key {
                            RemoveRangeState::MaybeAbove
                        } else {
                            RemoveRangeState::Below
                        }
                    },
                    KeyBound::Unbounded => RemoveRangeState::MaybeAbove,
                },
                _ => RemoveRangeState::MaybeAbove,
            }
        }
    }
}

/// A walk never moves back: each state is at or after the one before it,
/// and once a walk has left `Below` it does not return to it.
pub proof fn lemma_states_advance(s: RemoveRangeState, key: u64, range: KeyRange, start_unbounded: bool)
    requires
        s != RemoveRangeState::MaybeAbove,
    ensures
        rank(next_state(s, key, range, start_unbounded)) >= rank(s),
        s != RemoveRangeState::Below ==> next_state(s, key, range, start_unbounded)
            != RemoveRangeState::Below,
{
}

/// How a walk classifies a child from the bounds of the range and the
/// child's largest key `key`: a child whose largest key is in the range is
/// wholly inside it once an earlier child was in the range (or the range has
/// no start); a child whose largest key is past the range ends the walk; a
/// child whose largest key is before the start is still below.
pub proof fn lemma_classification(s: RemoveRangeState, key: u64, range: KeyRange, start_unbounded: bool)
    requires
        s != RemoveRangeState::MaybeAbove,
    ensures
        in_range(range, key) && (s == RemoveRangeState::MaybeBelow || s == RemoveRangeState::FullyContained)
            ==> next_state(s, key, range, start_unbounded) == RemoveRangeState::FullyContained,
        in_range(range, key) && s == RemoveRangeState::Below && start_unbounded ==> next_state(
            s,
            key,
            range,
            start_unbounded,
        ) == RemoveRangeState::FullyContained,
        in_range(range, key) && s == RemoveRangeState::Below && !start_unbounded ==> next_state(
            s,
            key,
            range,
            start_unbounded,
        ) == RemoveRangeState::MaybeBelow,
        !in_range(range, key) && s != RemoveRangeState::Below ==> next_state(s, key, range, start_unbounded)
            == RemoveRangeState::MaybeAbove,
        !in_range(range, key) && s == RemoveRangeState::Below && after_start(range.start, key) ==> next_state(
            s,
            key,
            range,
            start_unbounded,
        ) == RemoveRangeState::MaybeAbove,
        !after_start(range.start, key) && s == RemoveRangeState::Below ==> next_state(
            s,
            key,
            range,
            start_unbounded,
        ) == RemoveRangeState::Below,
{
}

} // verus!

