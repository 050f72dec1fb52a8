//! Weekly shift planning: a roster of employees, each with two preferred
//! shifts and a limit on the workload, is assigned to a grid of days and
//! shifts, two employees to a cell, by a greedy pass in shuffled order that
//! is started again, a bounded number of times, when a cell stays short.

pub mod cell;
pub mod day;
pub mod employee;
pub mod engine;
pub mod guarantees;
pub mod headcount;
pub mod roster;
pub mod schedule;
pub mod shuffle;
pub mod week;
