//! A digital logic circuit simulator: components (gates, clocks, switches,
//! indicators, bus operators) connected into a network of stable integer
//! ids, advanced by an event-driven worklist scheduler one synchronous step
//! per tick.

pub mod component;
pub mod components;
pub mod simulation;
