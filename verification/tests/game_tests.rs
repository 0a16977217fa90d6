use map_tester::conn::{Login, Msg};
use map_tester::game::camera::{Camera, MapScreen, ScreenTerrain};
use map_tester::game::characters::{Npc, NpcDelegate, Pc};
use map_tester::game::command::{Command, CommandError, CommandParser};
use map_tester::game::map::WorldMap;
use map_tester::game::{build_mappings, Connection, Game, Point};
use map_tester::strmap::StrMap;

fn parse(c: &str) -> Result<Command, CommandError> {
    let p = CommandParser::new(c);
    assert!(p.can_parse());
    p.parse()
}

fn error_of(c: &str) -> String {
    match parse(c) {
        Err(e) => e.description().to_string(),
        Ok(_) => panic!("expected an error"),
    }
}

#[test]
fn shout_keeps_words_after_one_space() {
    match parse("shout  hello   world") {
        Ok(Command::Shout(m)) => assert_eq!(m, " hello world"),
        _ => panic!("expected a shout"),
    }
    match parse("shout") {
        Ok(Command::Shout(m)) => assert_eq!(m, ""),
        _ => panic!("expected a shout"),
    }
}

#[test]
fn whisper_names_its_target() {
    match parse("whisper bob hi there") {
        Ok(Command::Whisper(t, m)) => {
            assert_eq!(t, "bob");
            assert_eq!(m, " hi there");
        },
        _ => panic!("expected a whisper"),
    }
    match parse("whisper bob") {
        Ok(Command::Whisper(t, m)) => {
            assert_eq!(t, "bob");
            assert_eq!(m, "");
        },
        _ => panic!("expected a whisper"),
    }
    assert_eq!(error_of("whisper"), "No whisper target");
}

#[test]
fn mouse_buttons() {
    match parse("mouse 3 4 1 0 0 0 0") {
        Ok(Command::Move(p)) => assert_eq!(p, Point::new(&3, &4)),
        _ => panic!("expected a move"),
    }
    match parse("mouse 3 4 0 1 0 0 0") {
        Ok(Command::Shoot(p, hit, damage)) => {
            assert_eq!(p, Point::new(&3, &4));
            assert_eq!((hit, damage), (0, 0));
        },
        _ => panic!("expected a shot"),
    }
    assert_eq!(error_of("mouse 3 4"), "Could not parse mouse input.");
    assert_eq!(error_of("mouse 3"), "Could not parse mouse input.");
    assert_eq!(error_of("mouse 3 4 0 0 1"), "Could not parse mouse input.");
    assert!(!CommandParser::new("mouse a 4").can_parse());
}

#[test]
fn unknown_and_empty_commands() {
    assert_eq!(error_of("dance now"), "Command dance not recognized");
    assert_eq!(error_of("   "), "Invalid Command");
    assert_eq!(CommandError::new("x").description(), "x");
}

#[test]
fn parse_shout_from_words() {
    let words = vec![vec!['s'], vec!['a'], vec!['b']];
    match CommandParser::parse_shout(&words) {
        Ok(Command::Shout(m)) => assert_eq!(m, " a b"),
        _ => panic!("expected a shout"),
    }
}

#[test]
fn points_and_indices() {
    let p = Point::from_index(&14, &4);
    assert_eq!((p.x, p.y), (2, 3));
    assert_eq!(p.to_index(&4), 14);
    assert_eq!(Point::from_index(&5, &3).to_index(&3), 5);
    assert_eq!(Connection::new(9).id, 9);
}

#[test]
fn art_numbers_last_listing_wins() {
    let lines = vec![" grass ".to_string(), "wall".to_string(), "grass".to_string()];
    let stems = vec!["players/paladin".to_string()];
    let m = build_mappings(&lines, &stems);
    assert_eq!(m.get("grass"), Some(&2));
    assert_eq!(m.get("wall"), Some(&1));
    assert_eq!(m.get("players/paladin"), Some(&3));
    assert_eq!(m.get(" grass "), None);
    assert_eq!(m.len(), 3);
}

#[test]
fn terrain_priority_and_conversion() {
    let grass = ScreenTerrain::new("terrain/grass".to_string());
    assert_eq!(grass.get_priority(), (2u32 << 17) | (7u32 << 29));
    let lava = ScreenTerrain::new("terrain/lava".to_string());
    assert_eq!(lava.get_priority(), (10000u32 << 17) | (7u32 << 29));
    let plain = ScreenTerrain::new("terrain/sand".to_string());
    assert_eq!(plain.get_priority(), 7u32 << 29);
    let mud = ScreenTerrain::new("terrain/dark_earth".to_string());
    assert_eq!(mud.tile, "terrain/mud");
    let conv = MapScreen::conversion_map();
    assert_eq!(MapScreen::convert_terrain(conv, "scenery/caveE".to_string()), "scenery/cave2");
}

fn world(width: u32, height: u32) -> WorldMap {
    let mut m = WorldMap::new("main");
    m.width = width;
    m.height = height;
    m.modifiers.insert("start_x".to_string(), "1".to_string());
    m.modifiers.insert("start_y".to_string(), "2".to_string());
    m
}

#[test]
fn world_map_players() {
    let mut m = world(3, 3);
    m.add_player(&7);
    assert_eq!(m.find_player(&7), Some(Point::new(&1, &2)));
    m.queue(Command::MoveStep(7, Point::new(&0, &0), map_tester::game::characters::Direction::North));
    let r = m.execute();
    assert!(r.is_empty());
    assert_eq!(m.find_player(&7), Some(Point::new(&0, &0)));
    m.remove_player(&7);
    assert_eq!(m.find_player(&7), None);
}

#[test]
fn world_map_activations() {
    let mut m = world(3, 3);
    m.add_player(&7);
    let d = NpcDelegate::new(Some(Command::Shout("hi".to_string())));
    m.objects.push(Npc::new(None, &Point::new(&1, &2), None, Some(d)));
    m.objects.push(Npc::new(None, &Point::new(&0, &0), None, None));
    assert_eq!(m.activations(), vec![(0, 7)]);
    match m.execute().as_slice() {
        [Command::Shout(s)] => assert_eq!(s, "hi"),
        _ => panic!("expected the reaction"),
    }
}

#[test]
fn npc_commands_in_order() {
    let mut n = Npc::new(Some("guard".to_string()), &Point::new(&1, &1), None, None);
    assert!(n.get_next().is_none());
    n.commands.push(Command::Shout("a".to_string()));
    n.commands.push(Command::Shout("b".to_string()));
    match n.get_next() {
        Some(Command::Shout(s)) => assert_eq!(s, "a"),
        _ => panic!("expected the first command"),
    }
    assert_eq!(n.commands.len(), 1);
}

#[test]
fn pc_takes_shouts_and_walks() {
    let mut pc = Pc::new(5, "bob", Camera::new(&15, &15));
    assert!(pc.add_command("shout hi").is_ok());
    assert!(pc.add_command("mouse 1 1 1 0 0 0 0").is_ok());
    match pc.add_command("whisper x y z") {
        Err(e) => assert_eq!(e.description(), "Not implemented"),
        Ok(_) => panic!("whispers are not taken"),
    }
    match pc.add_command("jump") {
        Err(e) => assert_eq!(e.description(), "Command jump not recognized"),
        Ok(_) => panic!("unknown commands fail"),
    }
    let m = world(3, 3);
    assert!(pc.next_movement(&m, &Point::new(&0, &0)).is_none());
}

#[test]
fn camera_snapshot() {
    let mut m = world(5, 5);
    for i in 0..25 {
        m.tiles.push(map_tester::game::map::MapTile::new(format!("terrain/t{}", i)));
    }
    m.modifiers.insert("start_x".to_string(), "2".to_string());
    m.add_player(&3);
    let pc = Pc::new(3, "bob", Camera::new(&3, &3));
    let s = pc.camera.capture_snapshot(pc_copy(&pc), &m).unwrap();
    assert_eq!((s.width, s.height), (5, 5));
    assert_eq!(s.terrain.len(), 25);
    assert_eq!(s.terrain[0].tile, "terrain/t0");
    let stranger = Pc::new(4, "amy", Camera::new(&3, &3));
    assert!(stranger.camera.capture_snapshot(pc_copy(&stranger), &m).is_none());
}

#[test]
fn the_view_at_the_corner_draws_empty_terrain_off_the_map() {
    let mut m = world(20, 20);
    for i in 0..400 {
        m.tiles.push(map_tester::game::map::MapTile::new(format!("terrain/t{}", i)));
    }
    let s = MapScreen::new(&m, Point::new(&0, &0), 13, 13);
    assert_eq!((s.width, s.height), (15, 15));
    assert_eq!(s.terrain.len(), 225);
    for i in 0..15usize {
        for j in 0..15usize {
            let expected = if i >= 7 && j >= 7 {
                format!("terrain/t{}", (j - 7) * 20 + (i - 7))
            } else {
                "terrain/empty".to_string()
            };
            assert_eq!(s.terrain[i * 15 + j].tile, expected);
        }
    }
}

fn pc_copy(p: &Pc) -> Pc {
    Pc::new(p.id, &p.name, p.camera)
}

fn login(name: &str) -> Login {
    Login::new(15, 15, name, "", "1")
}

#[test]
fn logins_make_take_over_or_refuse_characters() {
    let mut mappings = StrMap::new();
    mappings.insert("grass".to_string(), 0);
    let mut g = Game::new(mappings);

    g.queue = vec![Msg::Connect(1), Msg::Login(1, login("bob"))];
    let out = g.tick().unwrap();
    assert_eq!(out.len(), 1);
    assert_eq!(out[0].0, 1);
    match &out[0].1 {
        Msg::TileMapping(m) => assert_eq!(m.get("grass"), Some(&0)),
        _ => panic!("expected the art numbers"),
    }
    assert_eq!(g.connections.len(), 1);
    assert_eq!(g.pcs.len(), 1);
    let first_id = g.connections.get(&1).unwrap().id;
    assert_eq!(g.pcs.get(&first_id).unwrap().name, "bob");

    // A second connection under a name that is logged in is refused.
    g.queue = vec![Msg::Connect(2), Msg::Login(2, login("bob"))];
    let out = g.tick().unwrap();
    assert_eq!(out.len(), 1);
    assert_eq!(out[0].0, 2);
    match &out[0].1 {
        Msg::LoginResult(3, s) => assert_eq!(s, "User already logged in"),
        _ => panic!("expected a refusal"),
    }
    let second_id = g.connections.get(&2).unwrap().id;
    assert_ne!(first_id, second_id);

    // Once the first connection is gone, the character is taken over.
    g.queue = vec![Msg::Timeout(1), Msg::Login(2, login("bob"))];
    let out = g.tick().unwrap();
    assert_eq!(out.len(), 2);
    assert!(matches!(&out[0].1, Msg::LoginResult(4, s) if s.is_empty()));
    assert!(matches!(&out[1].1, Msg::TileMapping(_)));
    assert_eq!(g.pcs.get(&first_id).unwrap().id, second_id);
    assert_eq!(g.connections.len(), 1);
}

#[test]
fn login_without_connection_is_ignored() {
    let mut g = Game::new(StrMap::new());
    g.queue = vec![Msg::Login(9, login("eve")), Msg::Command(9, "shout hi".to_string())];
    let out = g.tick().unwrap();
    assert!(out.is_empty());
    assert!(g.pcs.is_empty());
}

#[test]
fn new_ids_are_version_four() {
    let mut g = Game::new(StrMap::new());
    g.queue = vec![Msg::Connect(1)];
    g.tick().unwrap();
    let id = g.connections.get(&1).unwrap().id;
    assert_eq!((id >> 76) & 0xf, 4);
    assert_eq!((id >> 62) & 0x3, 2);
}

#[test]
fn the_camera_places_shown_objects_from_the_cell_after_the_corner() {
    let mut m = world(20, 20);
    for i in 0..400 {
        m.tiles.push(map_tester::game::map::MapTile::new(format!("terrain/t{}", i)));
    }
    let places = [(4u32, 4u32), (17, 10), (18, 10), (9, 9)];
    for (k, (x, y)) in places.iter().enumerate() {
        let mut o = Npc::new(None, &Point::new(x, y), Some(format!("scenery/o{}", k)), None);
        if k != 3 {
            o.attributes.insert("visible".to_string(), "true".to_string());
        }
        m.objects.push(o);
    }
    let s = MapScreen::new(&m, Point::new(&10, &10), 13, 13);
    let drawn: Vec<(String, u32, u32)> = s.objects.iter().map(|o| (o.tile.clone(), o.x, o.y)).collect();
    assert_eq!(drawn, vec![("scenery/o0".to_string(), 0, 0), ("scenery/o1".to_string(), 13, 6)]);
}
