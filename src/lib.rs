//! Dense linear systems `Ax = b`: the text format of a test instance, the
//! exact integer construction of random solvable instances, and the check
//! of a computed solution against the expected one.

pub mod decimal;
pub mod text;
pub mod generate;
pub mod answer;
