//! The commands a client sends as text, read into `Command`s.

use vstd::prelude::*;
use crate::game::characters::Direction;
use crate::game::Point;
use crate::text::{
    chars_of, parse_u32, parse_u8_binary, parse_unsigned_spec, push_all, split_words, str_eq,
    string_of, words,
};

verus! {

/// What a client or a map asks for.
pub enum Command {
    /// Walk to a cell.
    Move(Point),
    /// Shoot at a cell: target, hit and damage.
    Shoot(Point, u32, u32),
    /// Attack a character: target, hit and damage.
    Attack(u128, u32, u32),
    /// Say something to everyone.
    Shout(String),
    /// Say something to one player: name and message.
    Whisper(String, String),
    /// A character steps to a cell, facing a direction.
    MoveStep(u128, Point, Direction),
}

impl Command {
    /// A copy of the command.
    pub fn duplicate(&self) -> (r: Command)
        ensures
            r == *self,
    {
        match self {
            Command::Move(p) => Command::Move(*p),
            Command::Shoot(p, hit, damage) => Command::Shoot(*p, *hit, *damage),
            Command::Attack(target, hit, damage) => Command::Attack(*target, *hit, *damage),
            Command::Shout(m) => Command::Shout(m.clone()),
            Command::Whisper(t, m) => Command::Whisper(t.clone(), m.clone()),
            Command::MoveStep(id, p, d) => Command::MoveStep(*id, *p, *d),
        }
    }
}

/// A command read from the text of `command`.
pub struct CommandParser {
    pub command: String,
}

/// Why a command could not be read.
pub struct CommandError {
    pub message: String,
}

impl CommandError {
    pub fn new(message: &str) -> (r: CommandError)
        ensures
            r.message@ == message@,
    {
        CommandError { message: message.to_owned() }
    }

    /// The message.
    pub fn description(&self) -> (r: &str)
        ensures
            r@ == self.message@,
    {
        self.message.as_str()
    }
}

/// The words joined, each after one space.
pub open spec fn spaced(ws: Seq<Seq<char>>) -> Seq<char>
    decreases ws.len(),
{
    if ws.len() == 0 {
        Seq::empty()
    } else {
        spaced(ws.drop_last()) + seq![' '] + ws.last()
    }
}

/// The words joined.
pub open spec fn joined(ws: Seq<Seq<char>>) -> Seq<char>
    decreases ws.len(),
{
    if ws.len() == 0 {
        Seq::empty()
    } else {
        joined(ws.drop_last()) + ws.last()
    }
}

/// A command can be read without a fault: the cell of a click (`mouse x y
/// ...`) is two numbers.
pub open spec fn command_readable(command: Seq<char>) -> bool {
    let ws = words(command);
    ws.len() >= 3 && ws[0] == "mouse"@ ==> parse_unsigned_spec(ws[1], 10, 0xffff_ffff) is Some
        && parse_unsigned_spec(ws[2], 10, 0xffff_ffff) is Some
}

/// What reading a click gives: a shot (button bit 8) or a walk (bit 16) to
/// the cell, from the buttons written in binary after it.
pub open spec fn click_result(ws: Seq<Seq<char>>, r: Result<Command, CommandError>) -> bool {
    let failed = r matches Err(e) && e.message@ == "Could not parse mouse input."@;
    if ws.len() < 3 {
        failed
    } else {
        let x = parse_unsigned_spec(ws[1], 10, 0xffff_ffff).unwrap();
        let y = parse_unsigned_spec(ws[2], 10, 0xffff_ffff).unwrap();
        match parse_unsigned_spec(joined(ws.skip(3)), 2, 0xff) {
            Some(b) => {
                let button = b as u8;
                if button & 8u8 == 8u8 {
                    r matches Ok(Command::Shoot(p, h, d)) && p.x == x && p.y == y && h == 0 && d == 0
                } else if button & 16u8 == 16u8 {
                    r matches Ok(Command::Move(p)) && p.x == x && p.y == y
                } else {
                    failed
                }
            },
            None => failed,
        }
    }
}

/// What reading `command` gives: `shout` and a message, `whisper`, a name
/// and a message, or `mouse` and a click. A message is its words, each after
/// one space.
pub open spec fn parse_result(command: Seq<char>, r: Result<Command, CommandError>) -> bool {
    let ws = words(command);
    if ws.len() == 0 {
        r matches Err(e) && e.message@ == "Invalid Command"@
    } else if ws[0] == "shout"@ {
        r matches Ok(Command::Shout(m)) && m@ == spaced(ws.skip(1))
    } else if ws[0] == "mouse"@ {
        click_result(ws, r)
    } else if ws[0] == "whisper"@ {
        if ws.len() >= 2 {
            r matches Ok(Command::Whisper(t, m)) && t@ == ws[1] && m@ == spaced(ws.skip(2))
        } else {
            r matches Err(e) && e.message@ == "No whisper target"@
        }
    } else {
        r matches Err(e) && e.message@ == "Command "@ + ws[0] + " not recognized"@
    }
}

/// The words from position `from` on, each after one space.
fn spaced_from(ws: &Vec<Vec<char>>, from: usize) -> (r: Vec<char>)
    requires
        from <= ws@.len(),
    ensures
        r@ == spaced(ws@.map_values(|w: Vec<char>| w@).skip(from as int)),
{
    let ghost v = ws@.map_values(|w: Vec<char>| w@);
    let mut out: Vec<char> = Vec::new();
    let mut i: usize = from;
    assert(v.skip(from as int).take(0) =~= Seq::<Seq<char>>::empty());
    while i < ws.len()
        invariant
            from <= i <= ws@.len(),
            v == ws@.map_values(|w: Vec<char>| w@),
            out@ == spaced(v.skip(from as int).take(i - from)),
        decreases ws@.len() - i,
    {
        out.push(' ');
        push_all(&mut out, &ws[i]);
        proof {
            let t = v.skip(from as int).take(i + 1 - from);
            assert(t.drop_last() =~= v.skip(from as int).take(i - from));
            assert(t.last() == ws@[i as int]@);
        }
        i = i + 1;
    }
    assert(v.skip(from as int).take(ws@.len() - from) =~= v.skip(from as int));
    out
}

/// The words from position `from` on, joined.
fn joined_from(ws: &Vec<Vec<char>>, from: usize) -> (r: Vec<char>)
    requires
        from <= ws@.len(),
    ensures
        r@ == joined(ws@.map_values(|w: Vec<char>| w@).skip(from as int)),
{
    let ghost v = ws@.map_values(|w: Vec<char>| w@);
    let mut out: Vec<char> = Vec::new();
    let mut i: usize = from;
    assert(v.skip(from as int).take(0) =~= Seq::<Seq<char>>::empty());
    while i < ws.len()
        invariant
            from <= i <= ws@.len(),
            v == ws@.map_values(|w: Vec<char>| w@),
            out@ == joined(v.skip(from as int).take(i - from)),
        decreases ws@.len() - i,
    {
        push_all(&mut out, &ws[i]);
        proof {
            let t = v.skip(from as int).take(i + 1 - from);
            assert(t.drop_last() =~= v.skip(from as int).take(i - from));
            assert(t.last() == ws@[i as int]@);
        }
        i = i + 1;
    }
    assert(v.skip(from as int).take(ws@.len() - from) =~= v.skip(from as int));
    out
}

impl CommandParser {
    pub fn new(command: &str) -> (r: CommandParser)
        ensures
            r.command@ == command@,
    {
        CommandParser { command: command.to_owned() }
    }

    /// Whether the command can be read without a fault.
    pub fn can_parse(&self) -> (r: bool)
        ensures
            r == command_readable(self.command@),
    {
        proof {
            reveal_strlit("mouse");
        }
        let cv = chars_of(self.command.as_str());
        let parts = split_words(&cv);
        if parts.len() >= 3 && str_eq(string_of(&parts[0]).as_str(), "mouse") {
            assert(parts@[1]@ == words(cv@)[1] && parts@[2]@ == words(cv@)[2]);
            parse_u32(&parts[1]).is_some() && parse_u32(&parts[2]).is_some()
        } else {
            assert(parts@.len() >= 3 ==> parts@[0]@ == words(cv@)[0]);
            true
        }
    }

    /// Reads the command (see `parse_result`).
    pub fn parse(&self) -> (r: Result<Command, CommandError>)
        requires
            command_readable(self.command@),
        ensures
            parse_result(self.command@, r),
    {
        proof {
            reveal_strlit("shout");
            reveal_strlit("mouse");
            reveal_strlit("whisper");
        }
        let cv = chars_of(self.command.as_str());
        let parts = split_words(&cv);
        let ghost ws = words(self.command@);
        if parts.len() == 0 {
            return Err(CommandError::new("Invalid Command"));
        }
        let first = string_of(&parts[0]);
        assert(first@ == ws[0]);
        if str_eq(first.as_str(), "shout") {
            CommandParser::parse_shout(&parts)
        } else if str_eq(first.as_str(), "mouse") {
            CommandParser::parse_mouse(&parts)
        } else if str_eq(first.as_str(), "whisper") {
            CommandParser::parse_whisper(&parts)
        } else {
            let mut msg = chars_of("Command ");
            push_all(&mut msg, &parts[0]);
            push_all(&mut msg, &chars_of(" not recognized"));
            Err(CommandError { message: string_of(&msg) })
        }
    }

    /// Reads a whisper from the words of a `whisper` command: the second
    /// word names the target and the rest, each word after one space, is the
    /// message.
    fn parse_whisper(parts: &Vec<Vec<char>>) -> (r: Result<Command, CommandError>)
        ensures
            ({
                let ws = parts@.map_values(|w: Vec<char>| w@);
                if ws.len() >= 2 {
                    r matches Ok(Command::Whisper(t, m)) && t@ == ws[1] && m@ == spaced(ws.skip(2))
                } else {
                    r matches Err(e) && e.message@ == "No whisper target"@
                }
            }),
    {
        if parts.len() >= 2 {
            let m = spaced_from(parts, 2);
            Ok(Command::Whisper(string_of(&parts[1]), string_of(&m)))
        } else {
            Err(CommandError::new("No whisper target"))
        }
    }

    /// Reads a click from the words of a `mouse` command.
    fn parse_mouse(parts: &Vec<Vec<char>>) -> (r: Result<Command, CommandError>)
        requires
            parts@.len() >= 3 ==> parse_unsigned_spec(parts@[1]@, 10, 0xffff_ffff) is Some
                && parse_unsigned_spec(parts@[2]@, 10, 0xffff_ffff) is Some,
        ensures
            click_result(parts@.map_values(|w: Vec<char>| w@), r),
    {
        let ghost ws = parts@.map_values(|w: Vec<char>| w@);
        if parts.len() >= 3 {
            let x = parse_u32(&parts[1]).unwrap();
            let y = parse_u32(&parts[2]).unwrap();
            let target = Point::new(&x, &y);
            let bits = joined_from(parts, 3);
            match parse_u8_binary(&bits) {
                Some(button) => {
                    if button & 8 == 8 {
                        return Ok(Command::Shoot(target, 0, 0));
                    } else if button & 16 == 16 {
                        return Ok(Command::Move(target));
                    }
                },
                None => {},
            }
        }
        Err(CommandError::new("Could not parse mouse input."))
    }

    /// The message of a `shout`: the words after the first, each after one
    /// space.
    pub fn parse_shout(parts: &Vec<Vec<char>>) -> (r: Result<Command, CommandError>)
        requires
            parts@.len() >= 1,
        ensures
            r matches Ok(Command::Shout(m)) && m@ == spaced(parts@.map_values(|w: Vec<char>| w@).skip(1)),
    {
        let m = spaced_from(parts, 1);
        Ok(Command::Shout(string_of(&m)))
    }
}

} // verus!
