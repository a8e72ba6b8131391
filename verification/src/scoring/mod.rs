//! Frequency bookkeeping for surprise scoring: property-level tables per
//! pattern (and per pattern and role), and pattern-to-pattern transitions.

pub mod table;
pub mod stu;
pub mod sequential;
pub mod role_conditioned;
pub mod surprise;
