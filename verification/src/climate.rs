//! The calendar: one turn is one month.

use vstd::prelude::*;

verus! {

/// Month (1..=12) of a turn number (turn 1 is the first January).
pub open spec fn spec_month_of(turn: u64) -> int {
    ((turn - 1) % 12) + 1
}

/// Month (1..=12) corresponding to a turn number (1 turn = 1 month).
pub fn month_of(turn: u64) -> (m: u8)
    requires
        turn >= 1,
    ensures
        m == spec_month_of(turn),
        1 <= m <= 12,
{
    (((turn - 1) % 12) + 1) as u8
}

/// Twelve turns later, the month is the same (the calendar is periodic).
pub proof fn lemma_month_periodic(turn: u64)
    requires
        turn >= 1,
        turn + 12 <= u64::MAX,
    ensures
        spec_month_of((turn + 12) as u64) == spec_month_of(turn),
{
    assert(((turn + 12 - 1) as int) % 12 == ((turn - 1) as int) % 12) by (nonlinear_arith)
        requires turn >= 1;
}

} // verus!
