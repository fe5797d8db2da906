//! The Banker's algorithm for deadlock avoidance, with the bookkeeping of a
//! resource table whose processes are admitted only while the system stays safe.

pub mod algo;
pub mod form;
pub mod run;
pub mod sorting;
pub mod table;
