//! Stored spend transactions.

use vstd::prelude::*;
use crate::text::{concat3, decimal, decimal_text};

verus! {

/// A stored spend transaction. `amount` is the positive amount spent, kept
/// as the caller's number type; `accounted` tells whether a report has
/// already included it.
#[derive(Debug)]
pub struct Transaction<A> {
    pub id: i64,
    pub date: String,
    pub description: String,
    pub amount: A,
    pub accounted: bool,
}

impl<A: Copy> Transaction<A> {
    /// A transaction from its stored columns; the `accounted` column holds
    /// an integer, and any value but 0 means accounted.
    pub fn from_columns(
        id: i64,
        date: String,
        description: String,
        amount: A,
        accounted: i64,
    ) -> (t: Self)
        ensures
            t.id == id,
            t.date == date,
            t.description == description,
            t.amount == amount,
            t.accounted == (accounted != 0),
    {
        Transaction { id, date, description, amount, accounted: accounted != 0 }
    }

    /// A copy of the transaction.
    pub fn copied(&self) -> (t: Self)
        ensures
            t == *self,
    {
        Transaction {
            id: self.id,
            date: self.date.clone(),
            description: self.description.clone(),
            amount: self.amount,
            accounted: self.accounted,
        }
    }
}

/// The largest integer that a JavaScript number holds exactly (2^53 - 1).
pub const MAX_SAFE_INTEGER: i64 = 9_007_199_254_740_991;

/// The message for an id too large to hand to JavaScript.
pub open spec fn unsafe_id_message(value: i64) -> Seq<char> {
    "id "@ + decimal_text(value as int) + " exceeds Number.MAX_SAFE_INTEGER (9007199254740991)"@
}

/// An id as it may cross into JavaScript: ids above `MAX_SAFE_INTEGER` are
/// refused with a message, since the number would not survive the trip.
pub fn js_safe_id(value: i64) -> (r: Result<i64, String>)
    ensures
        value > MAX_SAFE_INTEGER ==> (r matches Err(m) && m@ == unsafe_id_message(value)),
        value <= MAX_SAFE_INTEGER ==> r == Ok::<i64, String>(value),
{
    if value > MAX_SAFE_INTEGER {
        let v = decimal(value);
        return Err(
            concat3("id ", v.as_str(), " exceeds Number.MAX_SAFE_INTEGER (9007199254740991)"),
        );
    }
    Ok(value)
}

} // verus!
