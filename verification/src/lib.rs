//! Verified bookkeeping for Glicko-2 ratings computed from a file of games.
//!
//! The rating arithmetic itself works on machine reals and lives with the
//! caller. This library holds what surrounds it and can be stated exactly:
//! the control of the volatility root search, with its iteration limits;
//! the reading of game records into a roster of competitors and a schedule
//! of games; and the ordering, filtering and numbering of the final table.

pub mod games;
pub mod records;
pub mod roster;
pub mod solver;
pub mod table;
