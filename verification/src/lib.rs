//! Controller identity and team assignment for a local multiplayer
//! session: stable device identifiers derived from USB port chains, an
//! interactive engine that binds human names to controllers, an engine
//! that moves named players between teams from directional input, the
//! session-loop dispatch around them, and the persisted bindings file.

pub mod bindings;
pub mod command_server;
pub mod feedback;
pub mod injoy;
pub mod joypaths;
pub mod persist;
pub mod session;
pub mod strutil;
pub mod team_select;
pub mod teams;
