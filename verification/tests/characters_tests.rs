use map_tester::game::characters::connected::RoadWall;
use map_tester::game::characters::item::Item;
use map_tester::game::characters::player::{reply, Player};
use map_tester::game::characters::projectile::Projectile;
use map_tester::game::characters::teleporter::Teleporter;
use map_tester::game::characters::tower::Tower;
use map_tester::game::characters::{Controllable, ControllableType, Direction};
use map_tester::strmap::StrMap;

fn known(names: &[&str]) -> StrMap<i16> {
    let mut m = StrMap::new();
    for (i, n) in names.iter().enumerate() {
        m.insert(n.to_string(), i as i16);
    }
    m
}

#[test]
fn road_options_in_order() {
    let opts = RoadWall::create_tile_options("roads/dirt_road");
    assert_eq!(opts, vec!["roads/dirt_road", "roads/DirtRoad", "roads/dirtroad", "roads/Dirt_road"]);
}

#[test]
fn wall_options_use_a_folder() {
    let opts = RoadWall::create_tile_options("walls/stone_wall");
    assert_eq!(
        opts,
        vec![
            "walls/stone_wall",
            "walls/stone/stone_wall",
            "walls/stone/StoneWall",
            "walls/stone/stonewall",
            "walls/stone/Stone_wall",
        ]
    );
    let brick = RoadWall::create_tile_options("walls/brick_wall");
    assert_eq!(brick[1], "walls/brickwall/brick_wall");
    let earth = RoadWall::create_tile_options("walls/earth_block");
    assert_eq!(earth[0], "walls/earth_wall");
}

#[test]
fn twisty_road_has_one_option() {
    assert_eq!(RoadWall::create_tile_options("roads/twisty_road"), vec!["roads/TwistyMntRoad"]);
}

#[test]
fn names_that_cannot_be_taken_apart() {
    assert!(RoadWall::tile_options_ok("roads/dirt_road"));
    assert!(!RoadWall::tile_options_ok("road"));
    assert!(!RoadWall::tile_options_ok("walls/stone"));
    assert!(!RoadWall::tile_options_ok("roads/a__b"));
    assert!(!RoadWall::tile_options_ok("roads/"));
}

#[test]
fn corrected_tile_is_the_first_known_option() {
    let tiles = known(&["roads/dirtroad", "roads/DirtRoad"]);
    assert_eq!(RoadWall::find_corrected_tile("roads/dirt_road".to_string(), &tiles), "roads/DirtRoad");
    let none = known(&[]);
    assert_eq!(RoadWall::find_corrected_tile("roads/dirt_road".to_string(), &none), "roads/dirt_road");
    let r = RoadWall::new("roads/dirt_road".to_string(), &tiles, 7);
    assert_eq!(r.tile, "roads/DirtRoad");
    assert_eq!(r.index, 7);
}

#[test]
fn road_links_to_neighbours() {
    let tiles = known(&[]);
    // 3 by 3 grid, road in the middle with roads to the north and west.
    let mut r = RoadWall::new("roads/dirt_road".to_string(), &tiles, 4);
    let marks = vec![false, true, false, true, true, false, false, false, false];
    assert!(r.can_link_now(3, 3, marks.len()));
    r.modify_connected_tiles(3, 3, &marks);
    assert_eq!(r.get_tile(), "roads/dirt_roadNW");
    let mut bridge = RoadWall::new("roads/old_Bridge".to_string(), &tiles, 4);
    bridge.modify_connected_tiles(3, 3, &marks);
    assert_eq!(bridge.get_tile(), "roads/old_Bridge");
    assert!(matches!(r.get_type(), ControllableType::Road));
}

#[test]
fn item_art_renames() {
    let i = Item::new("structures/volcano".to_string(), 3);
    assert_eq!(i.tile, "statics/volcano.1");
    assert_eq!(i.index, 3);
    let w = Item::new("wiz/wyvern/hack/dungeon/well".to_string(), 0);
    assert_eq!(w.tile, "statics/well/well");
}

#[test]
fn teleporter_sends_to_its_map() {
    let t = Teleporter::new("cave".to_string(), 12, false, 4, 5);
    assert_eq!(t.teleport(9), (9, "cave".to_string(), Some((4, 5))));
    let d = Teleporter::new("main".to_string(), 12, true, 4, 5);
    assert_eq!(d.teleport(2), (2, "main".to_string(), None));
}

#[test]
fn new_player_defaults() {
    let p = Player::new("paladin".to_string(), 3);
    assert_eq!(p.tile, "players/paladin.");
    assert_eq!(p.hp, 500);
    assert_eq!(p.token, 3);
    assert_eq!(p.get_tile(), "players/paladin.S");
    assert_eq!(p.get_viewport(), (13, 13));
}

#[test]
fn player_runs_commands_in_order() {
    let mut p = Player::new("paladin".to_string(), 1);
    p.push_command("first".to_string());
    p.push_command("second".to_string());
    assert_eq!(p.get_command(), Some("first".to_string()));
    assert_eq!(p.get_command(), Some("second".to_string()));
    assert_eq!(p.get_command(), None);
}

#[test]
fn player_walks_when_due() {
    let mut p = Player::new("paladin".to_string(), 1);
    p.set_movement(5);
    p.movement_ticks = 10;
    assert_eq!(p.get_command(), Some("end 5".to_string()));
    assert_eq!(p.movement_ticks, 0);
}

#[test]
fn player_update_steps_and_answers() {
    let blocked = vec![false; 9];
    let mut p = Player::new("paladin".to_string(), 1);
    p.set_location(0);
    p.push_command("end 2".to_string());
    assert!(p.command_readable_now());
    let r = p.update(3, 3, &blocked);
    assert!(r.is_none());
    assert_eq!(p.index, 1);
    assert!(matches!(p.direction, Direction::East));

    p.push_command("skin wizard".to_string());
    let r = p.update(3, 3, &blocked);
    assert_eq!(r, Some(vec![(1, 3, "Skin Changed".to_string())]));
    assert_eq!(p.tile, "players/wizard.");

    p.push_command("dance".to_string());
    assert_eq!(p.update(3, 3, &blocked), Some(vec![(1, 5, "Bad command".to_string())]));

    p.push_command("end 40".to_string());
    assert_eq!(p.update(3, 3, &blocked), Some(vec![(1, 5, "No Path Found".to_string())]));
}

#[test]
fn player_reports_blocked_goal() {
    let mut blocked = vec![false; 9];
    blocked[4] = true;
    let mut p = Player::new("paladin".to_string(), 6);
    p.set_location(4);
    p.push_command("end 4".to_string());
    assert_eq!(p.update(3, 3, &blocked), Some(vec![(6, 5, "Path Blocked".to_string())]));
}

#[test]
fn unreadable_end_command_is_seen() {
    let mut p = Player::new("paladin".to_string(), 1);
    p.push_command("end x".to_string());
    assert!(!p.command_readable_now());
}

#[test]
fn reply_is_one_message() {
    assert_eq!(reply(4, 5, "hi"), Some(vec![(4, 5, "hi".to_string())]));
}

#[test]
fn projectile_tracks_its_target() {
    let mut p = Projectile::new(8);
    assert_eq!(p.index, 406);
    for _ in 0..10 {
        assert_eq!(p.get_command(406), None);
    }
    assert_eq!(p.get_command(407), Some("ProjectileFindAndTrack 407 8".to_string()));
    assert_eq!(p.movement_ticks, 0);
    assert!(p.does_move());
    assert_eq!(p.get_tile(), "spells/blizzard/snowball_meteor.S1");
    p.set_direction(Direction::NorthWest);
    assert_eq!(p.get_tile(), "spells/blizzard/snowball_meteor.NW1");
}

#[test]
fn tower_counts_players_in_range() {
    let mut t = Tower::new();
    assert_eq!(t.get_tile(), "statics/soko_tower");
    assert!(!t.does_move());
    t.push_tokens(vec![3, 4]);
    t.push_tokens(vec![3]);
    assert_eq!(t.target_priorities.get(&3), Some(&2));
    assert_eq!(t.target_priorities.get(&4), None);
    assert_eq!(t.get_highest_priority(), Some(3));
}

#[test]
fn tower_shoots_when_loaded() {
    let mut t = Tower::new();
    t.push_tokens(vec![11]);
    t.launch_ticks = 200;
    assert_eq!(t.get_command(), Some("TowerShoot 11".to_string()));
    assert_eq!(t.launch_ticks, 0);
    assert_eq!(t.get_command(), None);
    assert_eq!(t.launch_ticks, 1);
}

#[test]
fn earth_blocks_are_found_as_earth_walls() {
    let tiles = known(&["walls/earth/EarthWall"]);
    assert_eq!(RoadWall::find_corrected_tile("walls/earth_block".to_string(), &tiles), "walls/earth/EarthWall");
    let none = known(&[]);
    assert_eq!(RoadWall::find_corrected_tile("walls/earth_block".to_string(), &none), "walls/earth_block");
}
