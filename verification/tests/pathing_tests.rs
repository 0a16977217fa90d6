use map_tester::game::characters::projectile::Projectile;
use map_tester::game::gamemap::GameMap;
use map_tester::game::pathing::{find_neighbors, path_next};
use map_tester::strmap::StrMap;

#[test]
fn neighbours_west_north_south_east() {
    assert_eq!(find_neighbors(4, 3, 3, &vec![false; 9], false), vec![3, 1, 7, 5]);
    let mut blocked = vec![false; 9];
    blocked[1] = true;
    assert_eq!(find_neighbors(4, 3, 3, &blocked, false), vec![3, 7, 5]);
    assert_eq!(find_neighbors(0, 3, 3, &vec![false; 9], false), vec![3, 1]);
    assert_eq!(find_neighbors(4, 3, 3, &vec![], true), vec![0, 3, 6, 1, 4, 7, 2, 5, 8]);
}

#[test]
fn first_step_of_a_shortest_way() {
    // 3 by 3, a wall in the middle column except the bottom cell:
    //   S # E
    //   . # .
    //   . . .
    let mut blocked = vec![false; 9];
    blocked[1] = true;
    blocked[4] = true;
    assert_eq!(path_next(3, 3, &blocked, false, 0, 2), Some(3));
    assert_eq!(path_next(3, 3, &blocked, false, 3, 2), Some(6));
    assert_eq!(path_next(3, 3, &blocked, false, 8, 2), Some(5));
    assert_eq!(path_next(3, 3, &blocked, false, 0, 0), Some(0));
    // Shut in: no way.
    blocked[3] = true;
    assert_eq!(path_next(3, 3, &blocked, false, 0, 2), None);
    // The goal itself blocked cannot be stepped onto.
    let mut b2 = vec![false; 9];
    b2[2] = true;
    assert_eq!(path_next(3, 3, &b2, false, 0, 2), None);
}

#[test]
fn the_start_may_be_blocked() {
    let mut blocked = vec![false; 4];
    blocked[0] = true;
    assert_eq!(path_next(4, 1, &blocked, false, 0, 3), Some(1));
}

#[test]
fn diagonal_steps_cut_corners() {
    assert_eq!(path_next(3, 3, &vec![], true, 0, 8), Some(4));
    assert_eq!(path_next(3, 3, &vec![], true, 0, 2), Some(1));
}

fn open_map(width: u8, height: u8) -> GameMap {
    let xml = format!(
        r#"<map><header width="{}" height="{}"><arch name="terrain" path="terrain/grass"/></header></map>"#,
        width, height
    );
    let known: StrMap<i16> = StrMap::new();
    match GameMap::parse_tiles(&xml.as_bytes().to_vec(), &known) {
        Some(Ok(m)) => m,
        _ => panic!("the map reads"),
    }
}

#[test]
fn projectiles_take_a_shortest_way() {
    let m = open_map(5, 5);
    // From the corner to the far corner: along the diagonal.
    assert_eq!(Projectile::path_next(&m, 0, 24), Some(6));
    // Four columns away: any step one column nearer is on a shortest way;
    // the first such in the order of `find_neighbors` is taken.
    assert_eq!(Projectile::path_next(&m, 10, 14), Some(6));
    assert_eq!(Projectile::path_next(&m, 7, 7), Some(7));
}
