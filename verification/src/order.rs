//! The total order on positions.

use crate::position::Position;
use std::cmp::Ordering;
use vstd::prelude::*;
use vstd::std_specs::cmp::PartialOrdSpecImpl;

verus! {

/// How `a` stands to `b`: by `y` first, then by `x`, then by `z`.
pub open spec fn position_order(a: Position, b: Position) -> Ordering {
    if a.y > b.y {
        Ordering::Greater
    } else if a.y < b.y {
        Ordering::Less
    } else if a.x > b.x {
        Ordering::Greater
    } else if a.x < b.x {
        Ordering::Less
    } else if a.z > b.z {
        Ordering::Greater
    } else if a.z < b.z {
        Ordering::Less
    } else {
        Ordering::Equal
    }
}

impl PartialOrd for Position {
    fn partial_cmp(&self, other: &Position) -> (r: Option<Ordering>) {
        if self.y > other.y {
            Some(Ordering::Greater)
        } else if self.y < other.y {
            Some(Ordering::Less)
        } else if self.x > other.x {
            Some(Ordering::Greater)
        } else if self.x < other.x {
            Some(Ordering::Less)
        } else if self.z > other.z {
            Some(Ordering::Greater)
        } else if self.z < other.z {
            Some(Ordering::Less)
        } else {
            Some(Ordering::Equal)
        }
    }
}

impl PartialOrdSpecImpl for Position {
    open spec fn obeys_partial_cmp_spec() -> bool {
        true
    }

    open spec fn partial_cmp_spec(&self, other: &Position) -> Option<Ordering> {
        Some(position_order(*self, *other))
    }
}

/// The order is total and antisymmetric: two positions compare equal exactly
/// when they are the same position, and swapping them reverses the answer.
pub proof fn lemma_position_order_total(a: Position, b: Position)
    ensures
        position_order(a, b) == Ordering::Equal <==> a == b,
        position_order(a, b) == Ordering::Less <==> position_order(b, a) == Ordering::Greater,
{
}

/// The order is transitive.
pub proof fn lemma_position_order_transitive(a: Position, b: Position, c: Position)
    requires
        position_order(a, b) == Ordering::Less,
        position_order(b, c) == Ordering::Less,
    ensures
        position_order(a, c) == Ordering::Less,
{
}

} // verus!
