//! The characters of the game: players' characters (`Pc`) and the
//! characters the maps control (`Npc`).

use vstd::prelude::*;
use crate::game::camera::Camera;
use crate::game::command::{parse_result, command_readable, Command, CommandError, CommandParser};
use crate::game::map::WorldMap;
use crate::game::Point;
use crate::strmap::StrMap;

verus! {

/// Something that can plan its own moves on a map.
pub trait Character {
    fn build_auto_queue(&mut self, map: &WorldMap);
}

/// A player's character.
pub struct Pc {
    pub id: u128,
    pub name: String,
    pub movement_queue: Vec<Command>,
    pub shoot_queue: Vec<Command>,
    pub chat_queue: Vec<Command>,
    pub camera: Camera,
}

/// What taking a command read as `p` answers: shouts and walks are taken,
/// other commands are not implemented, and a command that does not read
/// gives its error.
pub open spec fn command_taken(p: Result<Command, CommandError>, r: Result<(), CommandError>) -> bool {
    match p {
        Ok(Command::Shout(_)) => r is Ok,
        Ok(Command::Move(_)) => r is Ok,
        Ok(_) => r matches Err(e) && e.message@ == "Not implemented"@,
        Err(e) => r matches Err(x) && x.message@ == e.message@,
    }
}

impl Pc {
    /// A character with no queued commands.
    pub fn new(id: u128, name: &str, camera: Camera) -> (r: Pc)
        ensures
            r.id == id,
            r.name@ == name@,
            r.camera == camera,
            r.movement_queue@.len() == 0,
            r.shoot_queue@.len() == 0,
            r.chat_queue@.len() == 0,
    {
        Pc {
            id: id,
            camera: camera,
            name: name.to_owned(),
            movement_queue: Vec::new(),
            chat_queue: Vec::new(),
            shoot_queue: Vec::new(),
        }
    }

    /// Reads a command from the player and answers whether it is taken (see
    /// `command_taken`).
    pub fn add_command(&self, command: &str) -> (r: Result<(), CommandError>)
        requires
            command_readable(command@),
        ensures
            exists|p: Result<Command, CommandError>| parse_result(command@, p) && command_taken(p, r),
    {
        let parser = CommandParser::new(command);
        let parsed = parser.parse();
        let ghost p = parsed;
        let r = match parsed {
            Ok(Command::Shout(message)) => Ok(()),
            Ok(Command::Move(point)) => Ok(()),
            Ok(_) => Err(CommandError::new("Not implemented")),
            Err(e) => Err(e),
        };
        assert(parse_result(command@, p) && command_taken(p, r));
        r
    }

    /// The next step of the character's walk: none is planned yet.
    pub fn next_movement(&mut self, map: &WorldMap, position: &Point) -> (r: Option<Command>)
        ensures
            r is None,
            *final(self) == *old(self),
    {
        None
    }
}

impl Character for Pc {
    /// Plans nothing yet: the character is left as it is.
    fn build_auto_queue(&mut self, map: &WorldMap)
        ensures
            *final(self) == *old(self),
    {
    }
}

/// How a character the map controls reacts: the command it gives when a
/// player steps on its cell.
pub struct NpcDelegate {
    pub when_activated: Option<Command>,
}

impl NpcDelegate {
    pub fn new(when_activated: Option<Command>) -> (r: NpcDelegate)
        ensures
            r.when_activated == when_activated,
    {
        NpcDelegate { when_activated: when_activated }
    }
}

/// A character the map controls.
pub struct Npc {
    pub name: Option<String>,
    pub path: Option<String>,
    pub location: Point,
    pub delegate: Option<NpcDelegate>,
    /// Queued commands, the next one first.
    pub commands: Vec<Command>,
    pub attributes: StrMap<String>,
}

impl Npc {
    /// A character with no commands and no attributes.
    pub fn new(name: Option<String>, location: &Point, path: Option<String>, delegate: Option<NpcDelegate>) -> (r: Npc)
        ensures
            r.name == name,
            r.location == *location,
            r.path == path,
            r.delegate == delegate,
            r.commands@.len() == 0,
            r.attributes.wf(),
            r.attributes.entries().len() == 0,
    {
        Npc {
            path: path,
            commands: Vec::new(),
            location: *location,
            delegate: delegate,
            attributes: StrMap::new(),
            name: name,
        }
    }

    /// Takes the next queued command.
    pub fn get_next(&mut self) -> (r: Option<Command>)
        ensures
            old(self).commands@.len() == 0 ==> r is None && final(self).commands@ == old(self).commands@,
            old(self).commands@.len() > 0 ==> r == Some(old(self).commands@[0])
                && final(self).commands@ == old(self).commands@.drop_first(),
            final(self).location == old(self).location,
    {
        if self.commands.len() > 0 {
            Some(self.commands.remove(0))
        } else {
            None
        }
    }
}

impl Character for Npc {
    /// Plans nothing yet: the character is left as it is.
    fn build_auto_queue(&mut self, map: &WorldMap)
        ensures
            *final(self) == *old(self),
    {
    }
}

} // verus!
