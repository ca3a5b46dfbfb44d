//! What the command line tool computes: everything between reading its files and writing its output.

pub mod bench;
pub mod load;
pub mod run;
pub mod trace;
pub mod verify;
