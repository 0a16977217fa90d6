use map_tester::game::characters::Controllable;
use map_tester::game::gameloop::{GameLoop, LoopMsg};
use map_tester::game::gamemap::{GameMap, MapObject};
use map_tester::game::mapfile::XmlItem;
use map_tester::strmap::StrMap;

const MAP: &str = r#"<?xml version="1.0"?>
<map>
  <header width="4" height="3">
    <arch name="terrain" path="terrain/grass"/>
    <arch name="oob-terrain" path="terrain/void"/>
    <int name="startX" value="1"/>
    <int name="startY" value="0"/>
  </header>
  <arch path="roads/dirt_road" loc="1 1"/>
  <arch path="roads/dirt_road" loc="2 1"/>
  <arch path="structures/fountain" loc="0 2"/>
  <arch path="terrain/dark_earth" loc="0 0 2 1"/>
  <arch path="special/teleporter" loc="3 2">
    <string name="map" value="cave"/>
    <int name="x" value="2"/>
    <int name="y" value="5"/>
  </arch>
</map>
"#;

fn read(xml: &str) -> Option<Result<GameMap, String>> {
    let known: StrMap<i16> = StrMap::new();
    GameMap::parse_tiles(&xml.as_bytes().to_vec(), &known)
}

fn sample() -> GameMap {
    match read(MAP) {
        Some(Ok(m)) => m,
        _ => panic!("the sample map reads"),
    }
}

fn tile_of(o: &MapObject) -> String {
    match o {
        MapObject::RoadWall(r) => r.tile.clone(),
        MapObject::Item(i) => i.tile.clone(),
        MapObject::Player(p) => p.tile.clone(),
    }
}

#[test]
fn map_file_reads() {
    let m = sample();
    assert_eq!((m.width, m.height), (4, 3));
    assert_eq!((m.start_x, m.start_y), (1, 0));
    assert_eq!(m.tiles.len(), 12);
    assert_eq!(m.tiles[0].tile, "terrain/dark_earth");
    assert_eq!(m.tiles[1].tile, "terrain/dark_earth");
    assert_eq!(m.tiles[2].tile, "terrain/grass");
    assert!(m.tiles.iter().all(|t| !t.blocked));
    assert_eq!(m.objects.len(), 3);
    assert_eq!(tile_of(&m.objects[0]), "roads/dirt_roadE");
    assert_eq!(tile_of(&m.objects[1]), "roads/dirt_roadW");
    assert_eq!(tile_of(&m.objects[2]), "statics/fountain");
    assert_eq!(m.objects[2].get_location(), 8);
    let t = m.teleporter.get(&11).unwrap();
    assert_eq!(t.map, "cave");
    assert_eq!((t.index, t.use_default, t.x, t.y), (11, false, 2, 5));
}

#[test]
fn out_of_bounds_terrain_is_blocked() {
    let xml = r#"<map><header width="2" height="1"><arch name="terrain" path="terrain/void"/><arch name="oob-terrain" path="terrain/void"/></header></map>"#;
    match read(xml) {
        Some(Ok(m)) => assert!(m.tiles.iter().all(|t| t.blocked)),
        _ => panic!("the map reads"),
    }
}

#[test]
fn map_file_errors() {
    assert!(matches!(read(r#"<map><header width="0" height="3"/></map>"#), Some(Err(e)) if e == "Invalid dimensions"));
    assert!(matches!(read(r#"<map><header width="x" height="3"/></map>"#), Some(Err(e)) if e == "Bad Width"));
    assert!(matches!(read(r#"<map><header width="3" height="300"/></map>"#), Some(Err(e)) if e == "Bad Height"));
    // A location that is not a number stops the reading.
    let bad = r#"<map><header width="2" height="2"><arch name="terrain" path="terrain/grass"/></header><arch path="x" loc="a b"/></map>"#;
    assert!(read(bad).is_none());
}

#[test]
fn events_read_like_the_file() {
    let known: StrMap<i16> = StrMap::new();
    let events = vec![
        XmlItem::Start("header".to_string(), vec![("width".to_string(), "1".to_string()), ("height".to_string(), "1".to_string())]),
        XmlItem::Start("arch".to_string(), vec![("name".to_string(), "terrain".to_string()), ("path".to_string(), "terrain/grass".to_string())]),
        XmlItem::End("arch".to_string()),
        XmlItem::End("header".to_string()),
        XmlItem::Other,
    ];
    match GameMap::parse_events(&events, &known) {
        Some(Ok(m)) => {
            assert_eq!(m.tiles.len(), 1);
            assert!(m.objects.is_empty());
        },
        _ => panic!("the events read"),
    }
}

#[test]
fn players_join_act_and_leave() {
    let mut m = sample();
    let before = m.objects.len();
    m.add_player(1, "paladin".to_string(), None);
    assert_eq!(m.objects.len(), before + 1);
    assert_eq!(m.find_player_with_token(1), Some(before));
    assert_eq!(m.objects[before].get_location(), 1);
    assert_eq!(m.get_hp(1), Some(500));
    assert_eq!(m.get_hp(2), None);

    let cmd = "skin wizard".to_string();
    assert!(m.can_push(1, &cmd));
    m.push_command(1, cmd);
    assert!(m.ready());
    let replies = m.execute();
    assert_eq!(replies, vec![(1, 3, "Skin Changed".to_string())]);
    assert_eq!(tile_of(&m.objects[before]), "players/wizard.");

    m.remove_player(1);
    assert_eq!(m.objects.len(), before);
    assert_eq!(m.find_player_with_token(1), None);
}

#[test]
fn clicks_set_a_goal_and_players_walk() {
    let mut m = sample();
    m.add_player(1, "paladin".to_string(), Some((0, 0)));
    let i = m.find_player_with_token(1).unwrap();
    // The player stands in the middle of its view (6, 6): a click at (8, 6)
    // is two cells to its right.
    let click = "mouse 8 6 1 0 0 0 0".to_string();
    assert!(m.can_push(1, &click));
    m.push_command(1, click);
    match &m.objects[i] {
        MapObject::Player(p) => assert!(p.movement.is_some()),
        _ => panic!("expected the player"),
    }
    for _ in 0..12 {
        assert!(m.ready());
        m.execute();
    }
    assert_ne!(m.objects[i].get_location(), 0);
}

#[test]
fn blocked_start_finds_another_cell() {
    let mut m = sample();
    // Items block their cell; roads do not.
    m.add_player(1, "a".to_string(), Some((0, 2)));
    let i = m.find_player_with_token(1).unwrap();
    assert_eq!(m.objects[i].get_location(), 9);
    m.add_player(2, "b".to_string(), Some((2, 1)));
    let j = m.find_player_with_token(2).unwrap();
    assert_eq!(m.objects[j].get_location(), 6);
}

#[test]
fn teleporters_send_players_on() {
    let mut m = sample();
    m.add_player(2, "paladin".to_string(), Some((3, 2)));
    assert_eq!(m.do_teleports(), vec![(2, "cave".to_string(), Some((2, 5)))]);
    m.remove_player(2);
    assert!(m.do_teleports().is_empty());
}

#[test]
fn the_view_around_a_player() {
    let mut m = sample();
    assert!(m.send_portion(1).is_none());
    m.add_player(1, "paladin".to_string(), None);
    assert!(m.can_show(1));
    let s = m.send_portion(1).unwrap();
    assert_eq!((s.width, s.height), (15, 15));
    assert_eq!(s.terrain.len(), 225);
    assert!(!s.objects.is_empty());
}

#[test]
fn a_round_of_the_loop() {
    assert!(GameLoop::path_allowed("caves/deep"));
    assert!(!GameLoop::path_allowed("../secret"));
    assert!(GameLoop::new("../secret", true).is_none());
    assert!(GameLoop::new("main", false).is_none());
    let mut l = GameLoop::new("main", true).unwrap();
    let mut m = sample();

    l.join(1, "paladin".to_string(), None);
    l.join(1, "paladin".to_string(), None);
    l.apply_joins(&mut m);
    assert_eq!(l.connections, vec![1]);
    assert_eq!(m.objects.len(), 4);

    l.send_command(LoopMsg::Command(1, "skin wizard".to_string()));
    l.apply_commands(&mut m);
    assert!(l.command_queue.is_empty());
    let out = l.run_map(&mut m);
    assert_eq!(out.len(), 1);
    assert!(matches!(&out[0], LoopMsg::TextOutput(1, 3, s) if s == "Skin Changed"));
    assert!(l.connections.iter().all(|t| m.can_show(*t)));
    let out = l.send_status(&m);
    assert_eq!(out.len(), 2);
    assert!(matches!(&out[0], LoopMsg::Hp(1, 500)));
    assert!(matches!(&out[1], LoopMsg::Screen(1, _)));
    assert!(l.apply_teleports(&mut m).is_empty());

    l.remove(1);
    l.apply_leaves(&mut m);
    assert!(l.connections.is_empty());
    assert_eq!(m.objects.len(), 3);
}

#[test]
fn teleports_leave_the_loop() {
    let mut l = GameLoop::new("main", true).unwrap();
    let mut m = sample();
    l.join(4, "paladin".to_string(), Some((3, 2)));
    l.apply_joins(&mut m);
    let out = l.apply_teleports(&mut m);
    assert_eq!(out.len(), 1);
    assert!(matches!(&out[0], LoopMsg::Join(4, map, Some((2, 5))) if map == "cave"));
    assert!(l.connections.is_empty());
    assert_eq!(m.objects.len(), 3);
}

#[test]
fn leaving_drops_the_leavers_connection() {
    let mut l = GameLoop::new("main", true).unwrap();
    let mut m = sample();
    l.join(1, "a".to_string(), None);
    l.join(2, "b".to_string(), None);
    l.apply_joins(&mut m);
    assert_eq!(m.objects.len(), 5);
    l.remove(2);
    l.apply_leaves(&mut m);
    assert_eq!(l.connections, vec![1]);
    assert_eq!(m.objects.len(), 4);
    assert!(m.find_player_with_token(1).is_some());
    assert!(m.find_player_with_token(2).is_none());
    // Leaving twice, or leaving without being connected, changes nothing more.
    l.remove(2);
    l.remove(7);
    l.apply_leaves(&mut m);
    assert_eq!(l.connections, vec![1]);
    assert_eq!(m.objects.len(), 4);
}

#[test]
fn a_teleporter_covers_its_rectangle() {
    let xml = r#"<map><header width="3" height="2"><arch name="terrain" path="terrain/grass"/></header><arch path="special/teleporter" loc="0 0 2 2"><string name="map" value="cave"/></arch></map>"#;
    let m = match read(xml) {
        Some(Ok(m)) => m,
        _ => panic!("the map reads"),
    };
    assert_eq!(m.teleporter.len(), 4);
    for cell in [0u32, 1, 3, 4] {
        let t = m.teleporter.get(&cell).unwrap();
        assert_eq!(t.map, "cave");
        assert_eq!(t.index, cell);
    }
    assert!(m.teleporter.get(&2).is_none());
}

#[test]
fn the_view_keeps_to_its_window() {
    // A 20 by 1 map: the player at column 0 sees columns up to 7 of the
    // map (its 15 by 15 window starts 7 columns to its left).
    let xml = r#"<map><header width="20" height="1"><arch name="terrain" path="terrain/grass"/></header><arch path="structures/fountain" loc="5 0"/><arch path="structures/fountain" loc="12 0"/></map>"#;
    let mut m = match read(xml) {
        Some(Ok(m)) => m,
        _ => panic!("the map reads"),
    };
    m.add_player(1, "paladin".to_string(), Some((0, 0)));
    let s = m.send_portion(1).unwrap();
    let xs: Vec<u8> = s.objects.iter().map(|o| o.x).collect();
    assert_eq!(xs, vec![11, 6]);
}

#[test]
fn objects_on_the_windows_first_column_get_255() {
    // A 20 by 1 map: the player at column 8 has its window start at column
    // 1, where a fountain stands.
    let xml = r#"<map><header width="20" height="1"><arch name="terrain" path="terrain/grass"/></header><arch path="structures/fountain" loc="1 0"/></map>"#;
    let mut m = match read(xml) {
        Some(Ok(m)) => m,
        _ => panic!("the map reads"),
    };
    m.add_player(1, "paladin".to_string(), Some((8, 0)));
    let s = m.send_portion(1).unwrap();
    let xs: Vec<u8> = s.objects.iter().map(|o| o.x).collect();
    assert_eq!(xs, vec![255, 6]);
}

#[test]
fn the_view_needs_terrain_only_for_its_window() {
    // A 40 by 1 map whose terrain covers only its first 20 cells: a player
    // at column 3 sees columns up to 10, which have terrain.
    let xml = r#"<map><header width="40" height="1"></header></map>"#;
    let mut m = match read(xml) {
        Some(Ok(m)) => m,
        _ => panic!("the map reads"),
    };
    for _ in 0..20 {
        m.tiles.push(map_tester::game::gamemap::MapTile::new("terrain/grass".to_string()));
    }
    m.add_player(1, "paladin".to_string(), Some((3, 0)));
    assert!(m.can_show(1));
    assert_eq!(m.send_portion(1).unwrap().terrain.len(), 225);
    m.remove_player(1);
    m.add_player(1, "paladin".to_string(), Some((30, 0)));
    assert!(!m.can_show(1));
}
