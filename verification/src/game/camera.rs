//! What a player sees: the window of the map around its character.

use vstd::prelude::*;
use crate::game::characters::{Npc, Pc};
use crate::game::gamemap::{converted, priority_class};
use crate::game::map::WorldMap;
use crate::game::Point;
use crate::strmap::StrMap;
use crate::text::{contains, str_eq};

verus! {

broadcast use vstd::std_specs::hash::group_hash_axioms;

/// The size of a player's view.
#[derive(Clone, Copy, PartialEq, Eq, Structural, Debug)]
pub struct Camera {
    pub width: u32,
    pub height: u32,
}

/// An object as drawn: its art and its column and row on the screen.
pub struct ScreenObject {
    pub tile: String,
    pub x: u32,
    pub y: u32,
}

/// A cell of terrain as drawn.
pub struct ScreenTerrain {
    pub tile: String,
}

/// The view around a cell: the terrain of a window `width` by `height`
/// cells, column by column, the objects to draw, and the art names that
/// differ from the map maker's.
pub struct MapScreen {
    pub width: u32,
    pub height: u32,
    pub conversions: StrMap<String>,
    pub terrain: Vec<ScreenTerrain>,
    pub objects: Vec<ScreenObject>,
}

/// The art names that differ from the map maker's paths.
pub open spec fn is_conversion(m: StrMap<String>) -> bool {
    &&& m.wf()
    &&& forall|k: Seq<char>| #[trigger] m.lookup(k) matches Some(v) ==> v@ == converted(k) && converted(k) != k
    &&& forall|k: Seq<char>| converted(k) != k ==> #[trigger] m.lookup(k) is Some
}

impl Camera {
    pub fn new(width: &u32, height: &u32) -> (r: Camera)
        ensures
            r.width == *width,
            r.height == *height,
    {
        Camera { width: *width, height: *height }
    }

    /// The view of `map` around `player`'s character, if it is on the map.
    pub fn capture_snapshot(&self, player: Pc, map: &WorldMap) -> (r: Option<MapScreen>)
        requires
            map.players@.contains_key(player.id) ==> snapshot_ok(*map, map.players@[player.id], self.width, self.height),
        ensures
            r is Some <==> map.players@.contains_key(player.id),
            r matches Some(s) ==> screen_is(s, *map, map.players@[player.id], self.width, self.height),
    {
        match map.players.get(&player.id) {
            Some(point) => Some(MapScreen::new(map, Point::new(&point.x, &point.y), self.width, self.height)),
            None => None,
        }
    }
}

impl ScreenObject {
    /// The object drawn with art `tile` at `(x, y)`.
    pub fn new(tile: String, x: u32, y: u32) -> (r: ScreenObject)
        ensures
            r.tile@ == converted(tile@),
            r.x == x,
            r.y == y,
    {
        let conversions = MapScreen::conversion_map();
        ScreenObject { tile: MapScreen::convert_terrain(conversions, tile), x: x, y: y }
    }
}

impl ScreenTerrain {
    /// Terrain drawn with art `tile`.
    pub fn new(tile: String) -> (r: ScreenTerrain)
        ensures
            r.tile@ == converted(tile@),
    {
        let conversions = MapScreen::conversion_map();
        ScreenTerrain { tile: MapScreen::convert_terrain(conversions, tile) }
    }

    /// The priority that decides which terrain's border is drawn over its
    /// neighbour's (see `gamemap::ScreenTerrain::get_priority`).
    pub fn get_priority(&self) -> (r: u32)
        ensures
            r == (priority_class(self.tile@) << 17u32) | (7u32 << 29u32),
    {
        let t = self.tile.as_str();
        let priority: u32;
        if contains(t, "grass") {
            priority = 2u32 << 17u32;
        } else if contains(t, "shallow") {
            priority = 1u32 << 17u32;
        } else if contains(t, "water") {
            priority = 3u32 << 17u32;
        } else if contains(t, "trees") || contains(t, "forest") || contains(t, "wall") {
            priority = 4u32 << 17u32;
        } else if contains(t, "lava") {
            priority = 10000u32 << 17u32;
        } else {
            priority = 0u32 << 17u32;
        }
        priority | (7u32 << 29u32)
    }
}

/// The first column (or row) of the window of `size` cells, plus one cell
/// on each side, around column (or row) `c`.
pub open spec fn view_start(c: u32, size: u32) -> int {
    c - (size / 2 + 1)
}

/// The object is drawn: its `visible` attribute is `true`.
pub open spec fn shown(o: Npc) -> bool {
    o.attributes.lookup("visible"@) matches Some(v) && v@ == "true"@
}

/// The object is drawn on a window whose first column and row are `sx` and
/// `sy`, `cols` by `rows` cells, of a map `w` by `h`: it is shown and stands
/// inside the window on the map.
pub open spec fn in_view(o: Npc, w: u32, h: u32, sx: int, sy: int, cols: int, rows: int) -> bool {
    &&& sx <= o.location.x < sx + cols
    &&& o.location.x < w
    &&& sy <= o.location.y < sy + rows
    &&& o.location.y < h
    &&& shown(o)
}

/// The terrain drawn for cell `(cx, cy)`: empty terrain off the map.
pub open spec fn view_cell(map: WorldMap, cx: int, cy: int) -> Seq<char> {
    if 0 <= cx < map.width && 0 <= cy < map.height {
        converted(map.tiles@[cy * map.width + cx].tile@)
    } else {
        "terrain/empty"@
    }
}

/// The terrain drawn for a window starting at `(sx, sy)`, column by column.
pub open spec fn view_terrain(map: WorldMap, sx: int, sy: int, cols: int, rows: int) -> Seq<Seq<char>> {
    Seq::new((cols * rows) as nat, |k: int| view_cell(map, sx + k / rows, sy + k % rows))
}

/// The objects drawn for a window starting at `(sx, sy)`, `cols` by `rows`
/// cells: each object in view (see `in_view`), its place counted from the
/// cell after the window's corner.
pub open spec fn view_objects(objs: Seq<Npc>, w: u32, h: u32, sx: int, sy: int, cols: int, rows: int) -> Seq<(Seq<char>, u32, u32)>
    decreases objs.len(),
{
    if objs.len() == 0 {
        Seq::empty()
    } else {
        let rest = view_objects(objs.drop_last(), w, h, sx, sy, cols, rows);
        let o = objs.last();
        if in_view(o, w, h, sx, sy, cols, rows) {
            let art = match o.path {
                Some(p) => p@,
                None => Seq::empty(),
            };
            rest.push((converted(art), (o.location.x - sx - 1) as u32, (o.location.y - sy - 1) as u32))
        } else {
            rest
        }
    }
}

/// The view around `center` can be drawn without a fault: the window's size
/// with its border fits in 32 bits, its cells on the map have terrain, the
/// objects' settings are well formed, and no object in view stands on the
/// window's first column or row (its place, counted from the cell after
/// those, would fall below zero).
pub open spec fn snapshot_ok(map: WorldMap, center: Point, size_x: u32, size_y: u32) -> bool {
    let sx = view_start(center.x, size_x);
    let sy = view_start(center.y, size_y);
    &&& size_x + 2 <= u32::MAX && size_y + 2 <= u32::MAX
    &&& (map.width > center.x && map.height > center.y) ==> forall|i: int, j: int|
        0 <= i < size_x + 2 && 0 <= j < size_y + 2 && 0 <= sx + i < map.width && 0 <= sy + j < map.height
            ==> #[trigger] ((sy + j) * map.width + sx + i) < map.tiles@.len()
    &&& forall|k: int| 0 <= k < map.objects@.len() ==> (#[trigger] map.objects@[k]).attributes.wf()
    &&& forall|k: int|
        0 <= k < map.objects@.len() && in_view(#[trigger] map.objects@[k], map.width, map.height, sx, sy, size_x + 2,
            size_y + 2) ==> sx < map.objects@[k].location.x && sy < map.objects@[k].location.y
}

/// `s` is the view of `map` around `center` for a window `size_x` by
/// `size_y` and one more cell on each side.
pub open spec fn screen_is(s: MapScreen, map: WorldMap, center: Point, size_x: u32, size_y: u32) -> bool {
    let sx = view_start(center.x, size_x);
    let sy = view_start(center.y, size_y);
    &&& s.width == size_x + 2
    &&& s.height == size_y + 2
    &&& is_conversion(s.conversions)
    &&& s.terrain@.map_values(|t: ScreenTerrain| t.tile@) == (if map.width > center.x && map.height > center.y {
        view_terrain(map, sx, sy, size_x + 2, size_y + 2)
    } else {
        Seq::empty()
    })
    &&& s.objects@.map_values(|o: ScreenObject| (o.tile@, o.x, o.y)) == view_objects(map.objects@, map.width, map.height, sx, sy,
        size_x + 2, size_y + 2)
}

impl MapScreen {
    /// The view of `map` around `center` (see `screen_is`). The terrain is
    /// drawn only when `center` is on the map.
    pub fn new(map: &WorldMap, center: Point, size_x: u32, size_y: u32) -> (r: MapScreen)
        requires
            snapshot_ok(*map, center, size_x, size_y),
        ensures
            screen_is(r, *map, center, size_x, size_y),
    {
        proof {
            reveal_strlit("visible");
            reveal_strlit("true");
        }
        let startx: i64 = center.x as i64 - (size_x as i64 / 2 + 1);
        let starty: i64 = center.y as i64 - (size_y as i64 / 2 + 1);
        let ghost gsx = view_start(center.x, size_x);
        let ghost gsy = view_start(center.y, size_y);
        let cols: i64 = size_x as i64 + 2;
        let rows: i64 = size_y as i64 + 2;
        let w = map.width as i64;
        let h = map.height as i64;
        let mut ter: Vec<ScreenTerrain> = Vec::new();
        let mut obj: Vec<ScreenObject> = Vec::new();
        if map.width > center.x && map.height > center.y {
            let mut i: i64 = 0;
            while i < cols
                invariant
                    0 <= i <= cols,
                    cols == size_x + 2,
                    rows == size_y + 2,
                    startx == gsx,
                    starty == gsy,
                    w == map.width,
                    h == map.height,
                    snapshot_ok(*map, center, size_x, size_y),
                    gsx == view_start(center.x, size_x),
                    gsy == view_start(center.y, size_y),
                    map.width > center.x && map.height > center.y,
                    ter@.map_values(|t: ScreenTerrain| t.tile@) == view_terrain(*map, gsx, gsy, i as int, rows as int),
                decreases cols - i,
            {
                let mut j: i64 = 0;
                while j < rows
                    invariant
                        0 <= i < cols,
                        0 <= j <= rows,
                        cols == size_x + 2,
                        rows == size_y + 2,
                        startx == gsx,
                        starty == gsy,
                        w == map.width,
                        h == map.height,
                        snapshot_ok(*map, center, size_x, size_y),
                        gsx == view_start(center.x, size_x),
                        gsy == view_start(center.y, size_y),
                        map.width > center.x && map.height > center.y,
                        ter@.map_values(|t: ScreenTerrain| t.tile@) == view_terrain(*map, gsx, gsy, i as int, rows as int)
                            + Seq::new(j as nat, |k: int| view_cell(*map, gsx + i, gsy + k)),
                    decreases rows - j,
                {
                    let ghost before = ter@.map_values(|t: ScreenTerrain| t.tile@);
                    let cx = startx + i;
                    let cy = starty + j;
                    let st = if 0 <= cx && cx < w && 0 <= cy && cy < h {
                        assert(((gsy + j) * map.width + gsx + i) < map.tiles@.len());
                        assert(0 <= cy * w) by (nonlinear_arith)
                            requires
                                0 <= cy,
                                0 <= w,
                        ;
                        assert(cy * w + cx == (gsy + j) * map.width + gsx + i);
                        let tl = map.tiles.len();
                        let index = (cy as usize) * (w as usize) + (cx as usize);
                        ScreenTerrain::new(map.tiles[index].tile.clone())
                    } else {
                        proof {
                            reveal_strlit("terrain/empty");
                            reveal_strlit("scenery/sign1");
                            reveal_strlit("scenery/caveE");
                            reveal_strlit("terrain/dark_earth");
                            assert("terrain/empty"@[0] != "scenery/sign1"@[0]);
                            assert("terrain/empty"@[0] != "scenery/caveE"@[0]);
                            assert("terrain/empty"@.len() != "terrain/dark_earth"@.len());
                        }
                        ScreenTerrain::new("terrain/empty".to_owned())
                    };
                    assert(st.tile@ == view_cell(*map, gsx + i, gsy + j));
                    ter.push(st);
                    proof {
                        let f = |k: int| view_cell(*map, gsx + i, gsy + k);
                        assert(ter@.map_values(|t: ScreenTerrain| t.tile@) =~= before.push(view_cell(*map, gsx + i, gsy + j)));
                        assert(Seq::new(j as nat, f).push(view_cell(*map, gsx + i, gsy + j)) =~= Seq::new((j + 1) as nat, f));
                        assert(view_terrain(*map, gsx, gsy, i as int, rows as int) + Seq::new(j as nat, f).push(view_cell(*map, gsx + i, gsy + j))
                            =~= (view_terrain(*map, gsx, gsy, i as int, rows as int) + Seq::new(j as nat, f)).push(view_cell(*map, gsx + i, gsy + j)));
                    }
                    j = j + 1;
                }
                proof {
                    let a = view_terrain(*map, gsx, gsy, i as int, rows as int);
                    let b = Seq::new(rows as nat, |k: int| view_cell(*map, gsx + i, gsy + k));
                    let c = view_terrain(*map, gsx, gsy, i + 1, rows as int);
                    let r = rows as int;
                    let ii = i as int;
                    assert((ii + 1) * r == ii * r + r) by (nonlinear_arith);
                    assert(0 <= ii * r) by (nonlinear_arith)
                        requires
                            0 <= ii,
                            0 <= r,
                    ;
                    assert forall|k: int| 0 <= k < c.len() implies #[trigger] c[k] == (a + b)[k] by {
                        if k >= ii * r {
                            let m = k - ii * r;
                            vstd::arithmetic::div_mod::lemma_fundamental_div_mod_converse(k, r, ii, m);
                        } else {
                            assert(0 <= k < ii * r);
                        }
                    }
                    assert(c =~= a + b);
                }
                i = i + 1;
            }
        }
        let n = map.objects.len();
        let mut k: usize = 0;
        while k < n
            invariant
                n == map.objects@.len(),
                k <= n,
                startx == gsx,
                starty == gsy,
                cols == size_x + 2,
                rows == size_y + 2,
                snapshot_ok(*map, center, size_x, size_y),
                gsx == view_start(center.x, size_x),
                gsy == view_start(center.y, size_y),
                obj@.map_values(|o: ScreenObject| (o.tile@, o.x, o.y)) == view_objects(map.objects@.take(k as int), map.width,
                    map.height, gsx, gsy, cols as int, rows as int),
            decreases n - k,
        {
            let object = &map.objects[k];
            let ghost before = obj@.map_values(|o: ScreenObject| (o.tile@, o.x, o.y));
            proof {
                let t = map.objects@.take(k + 1);
                assert(t.drop_last() =~= map.objects@.take(k as int));
                assert(t.last() == map.objects@[k as int]);
            }
            let location = object.location;
            let visible = match object.attributes.get("visible") {
                Some(v) => str_eq(v.as_str(), "true"),
                None => false,
            };
            let lx = location.x as i64;
            let ly = location.y as i64;
            if lx >= startx && lx < startx + cols && location.x < map.width && ly >= starty && ly < starty + rows
                && location.y < map.height && visible {
                assert(in_view(map.objects@[k as int], map.width, map.height, gsx, gsy, cols as int, rows as int));
                assert(lx > startx && ly > starty);
                let path = match &object.path {
                    Some(p) => p.clone(),
                    None => String::new(),
                };
                let so = ScreenObject::new(path, (lx - startx - 1) as u32, (ly - starty - 1) as u32);
                obj.push(so);
                assert(obj@.map_values(|o: ScreenObject| (o.tile@, o.x, o.y)) =~= before.push(
                    (so.tile@, so.x, so.y),
                ));
            }
            k = k + 1;
        }
        assert(map.objects@.take(n as int) =~= map.objects@);
        let r = MapScreen {
            width: size_x + 2,
            height: size_y + 2,
            conversions: MapScreen::conversion_map(),
            terrain: ter,
            objects: obj,
        };
        assert(r.objects@.map_values(|o: ScreenObject| (o.tile@, o.x, o.y)) == view_objects(map.objects@, map.width, map.height,
            gsx, gsy, size_x + 2, size_y + 2));
        assert(r.terrain@.map_values(|t: ScreenTerrain| t.tile@) == (if map.width > center.x && map.height > center.y {
            view_terrain(*map, gsx, gsy, size_x + 2, size_y + 2)
        } else {
            Seq::empty()
        }));
        r
    }

    /// The art names that differ from the map maker's paths (see
    /// `gamemap::converted`).
    pub fn conversion_map() -> (r: StrMap<String>)
        ensures
            is_conversion(r),
    {
        proof {
            reveal_strlit("scenery/sign1");
            reveal_strlit("scenery/caveE");
            reveal_strlit("terrain/dark_earth");
            reveal_strlit("indoor/sign1");
            reveal_strlit("scenery/cave2");
            reveal_strlit("terrain/mud");
        }
        let mut conversion: StrMap<String> = StrMap::new();
        conversion.insert("scenery/sign1".to_owned(), "indoor/sign1".to_owned());
        conversion.insert("scenery/caveE".to_owned(), "scenery/cave2".to_owned());
        conversion.insert("terrain/dark_earth".to_owned(), "terrain/mud".to_owned());
        proof {
            assert("scenery/sign1"@ != "scenery/caveE"@) by {
                assert("scenery/sign1"@[8] != "scenery/caveE"@[8]);
            }
            assert("scenery/sign1"@ != "terrain/dark_earth"@) by {
                assert("scenery/sign1"@.len() != "terrain/dark_earth"@.len());
            }
            assert("scenery/caveE"@ != "terrain/dark_earth"@) by {
                assert("scenery/caveE"@.len() != "terrain/dark_earth"@.len());
            }
            assert("indoor/sign1"@ != "scenery/sign1"@) by {
                assert("indoor/sign1"@.len() != "scenery/sign1"@.len());
            }
            assert("scenery/cave2"@ != "scenery/caveE"@) by {
                assert("scenery/cave2"@[12] != "scenery/caveE"@[12]);
            }
            assert("terrain/mud"@ != "terrain/dark_earth"@) by {
                assert("terrain/mud"@.len() != "terrain/dark_earth"@.len());
            }
            assert forall|k: Seq<char>| converted(k) != k implies #[trigger] conversion.lookup(k) is Some by {}
        }
        conversion
    }

    /// The art for `tile`: its conversion, if `conversion_map` has one.
    pub fn convert_terrain(conversion_map: StrMap<String>, tile: String) -> (r: String)
        requires
            conversion_map.wf(),
        ensures
            r@ == (match conversion_map.lookup(tile@) {
                Some(v) => v@,
                None => tile@,
            }),
    {
        match conversion_map.get(tile.as_str()) {
            Some(converted) => converted.clone(),
            None => tile,
        }
    }
}

} // verus!
