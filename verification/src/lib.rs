//! A simulator of a Brownian rod in a periodic channel: configuration and case expansion, the motion
//! of the rod, trials and their collection, the scheduling of devices, the reports of workers and
//! the state of the animation windows.
//!
//! Double-precision numbers pass through this crate as bit patterns (`double::Double`), which are
//! classified and compared here. The elementary operations on them are supplied by the caller
//! (`formula::Arithmetic`); the formulas built from them stand here.
//!
//! The modules from `repeat` on hold laws: how results repeat, mirror and scale, and what they come to
//! where no operation rounds.

pub mod double;
pub mod formula;
pub mod text;
pub mod config;
pub mod model;
pub mod cases;
pub mod fraction;
pub mod rng;
pub mod channel;
pub mod histogram;
pub mod simulation;
pub mod passages;
pub mod trial;
pub mod case_run;
pub mod gpu;
pub mod device_run;
pub mod device_course;
pub mod runner;
pub mod renderer;
pub mod cpu_sim;
pub mod animation;
pub mod repeat;
pub mod symmetry;
pub mod scaling;
pub mod operations;
pub mod exact;
pub mod statistics;
pub mod algebra;
pub mod mechanics;
pub mod rods;
pub mod repulsion;
pub mod walls;
pub mod shape;
pub mod bins;
pub mod derived;
pub mod motion;
pub mod display_motion;
pub mod display_walls;
pub mod starts;
pub mod records;
pub mod tallies;
pub mod rod_forces;
pub mod draws;
pub mod windows;
pub mod texts;
pub mod expansions;
pub mod controls;
