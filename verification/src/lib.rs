//! sshboard: the logic of an SSH board shared by a person and an agent.


pub mod text;
pub mod band;
pub mod proxy;
pub mod desktop;
pub mod elevation;
pub mod probes;
pub mod connections;
pub mod agent;
pub mod secrets;
pub mod diag;
pub mod bundle;
pub mod engine;
pub mod pending;
pub mod screen;
