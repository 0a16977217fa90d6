//! Messages passed between client connections and the game, and the login
//! record a client sends.

pub mod api;

use vstd::prelude::*;

use crate::strmap::StrMap;

verus! {

/// Identifies a client connection (the peer address of its socket, as the
/// program that runs the server numbers them).
pub type ConnAddr = u64;

/// Messages between a connection and the game loop. A connection's outgoing
/// channel is held by the program that runs the server, keyed by the
/// connection's address.
pub enum Msg {
    Command(ConnAddr, String),
    Connect(ConnAddr),
    Timeout(ConnAddr),
    Login(ConnAddr, Login),
    Image(String),
    Name(String),
    Hp(i32),
    Mana(i32),
    Gold(i32),
    Xp(i32),
    LoginResult(u8, String),
    Quit,
    Shout(String),
    TextOutput(u8, String),
    Tile(i16, String),
    TileMapping(StrMap<i16>),
}

/// The outcome of a step that may have to wait for more input.
pub enum Polled<T> {
    Ready(T),
    NotReady,
}

/// What a client sends to log in.
pub struct Login {
    pub height: i16,
    pub width: i16,
    pub name: String,
    pub password: String,
    pub version: String,
}

impl Login {
    pub fn new(height: i16, width: i16, name: &str, password: &str, version: &str) -> (l: Self)
        ensures
            l.height == height,
            l.width == width,
            l.name@ == name@,
            l.password@ == password@,
            l.version@ == version@,
    {
        Login {
            height,
            width,
            name: name.to_owned(),
            password: password.to_owned(),
            version: version.to_owned(),
        }
    }
}

} // verus!
