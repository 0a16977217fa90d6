//! Game-server library for the Wyvern map tester: the client wire protocol,
//! command parsing, map construction from map files, path finding and the
//! game and map update rules.

pub mod conn;
pub mod game;
pub mod strmap;
pub mod text;
