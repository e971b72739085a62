//! Verified core of QOALA, a GRAPE optimal-control package for coupled
//! two-level systems: the integer and text logic that the numerical layers
//! are built around, each function with a contract that Verus checks.

pub mod error;
pub mod types;
pub mod report;
pub mod text;
pub mod rodrigues;
pub mod objfun;
pub mod prop_index;
pub mod optim;
pub mod escalade;
pub mod parallel;
pub mod gui;
pub mod config;
pub mod options;
pub mod spinops;
pub mod penalty;
pub mod drivers;
pub mod gates;
pub mod splittings;

