//! The two kinds of record that clients sync: habits and their check-ins.
use vstd::prelude::*;

verus! {

/// A habit as the client last wrote it. `updated_at` is the client's clock,
/// `deleted` marks a tombstone, and `seq` is the server's change number.
#[derive(Clone, Debug)]
pub struct Habit {
    pub id: String,
    pub name: String,
    pub schedule: String,
    pub updated_at: u64,
    pub deleted: bool,
    pub seq: u64,
}

/// A check-in of a habit on a calendar day written `YYYY-MM-DD`.
#[derive(Clone, Debug)]
pub struct Checkin {
    pub id: String,
    pub habit_id: String,
    pub date: String,
    pub updated_at: u64,
    pub deleted: bool,
    pub seq: u64,
}

} // verus!
