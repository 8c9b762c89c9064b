//! Map, configuration and history-simulation logic of the Atlas world
//! generator and history simulator.
pub mod config;
pub mod ui;
pub mod sim;
pub mod map;
pub mod rng;
pub mod io;
pub mod domain;
pub mod worldgen;
pub mod panel;
