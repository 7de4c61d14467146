//! The graded-zone replay's ledger: what one in-zone landing records,
//! the walk's tally, the frozen row and its arithmetic, the table the
//! replay page carries, and which files decide a write's policy.

pub mod ledger;
pub mod walk;
