//! Map files: the XML that the map maker writes, read into a `GameMap`.
//!
//! The reading is a pass over the XML events that keeps what it has built
//! so far (a `Build`): the header gives the size and fills the terrain, the
//! `arch` elements after it paint terrain, place roads, walls and items or
//! open a teleporter, whose `int`, `string` and `boolean` children give its
//! target. When all events are read, roads and walls take the art that fits
//! their neighbours.

use vstd::prelude::*;
use crate::game::characters::connected::{corrected_tile, keeps_art, link_suffix, neighbor, tile_options};
use crate::game::characters::item::item_art;
use crate::game::characters::connected::RoadWall;
use crate::game::characters::item::Item;
use crate::game::characters::teleporter::Teleporter;
use crate::game::characters::{Controllable, ControllableType};
use crate::game::gamemap::{GameMap, MapObject, MapTile};
use crate::strmap::StrMap;
use std::collections::HashMap;
use crate::text::{chars_of, contains, has_sub, parse_u8, parse_unsigned_spec, split_char, split_on, str_eq};

verus! {

/// One event of an XML document: an element's start with its local name
/// and its attributes (local name and value), an element's end, or anything
/// else.
pub enum XmlItem {
    Start(String, Vec<(String, String)>),
    End(String),
    Other,
}

/// The events that the `xml` crate reads from a document, up to the end of
/// the document or the first error.
pub uninterp spec fn xml_items(bytes: Seq<u8>) -> Seq<XmlItem>;

/// Reads the events of an XML document with `xml::reader::EventReader`.
/// The events are what that reader yields, each start and end with the
/// local names, and any other event (an error included, after which the
/// reader stops) as `Other`; the contract names them `xml_items`.
#[verifier::external_body]
pub(crate) fn read_xml(bytes: &Vec<u8>) -> (r: Vec<XmlItem>)
    ensures
        r@ == xml_items(bytes@),
{
    let mut out = Vec::new();
    for event in xml::reader::EventReader::new(bytes.as_slice()) {
        out.push(match event {
            Ok(xml::reader::XmlEvent::StartElement { name, attributes, .. }) => XmlItem::Start(
                name.local_name,
                attributes.into_iter().map(|a| (a.name.local_name, a.value)).collect(),
            ),
            Ok(xml::reader::XmlEvent::EndElement { name }) => XmlItem::End(name.local_name),
            _ => XmlItem::Other,
        });
    }
    out
}

/// An attribute list by its characters.
pub open spec fn attrs_of(a: Seq<(String, String)>) -> Seq<(Seq<char>, Seq<char>)> {
    a.map_values(|p: (String, String)| (p.0@, p.1@))
}

/// What the pass over a map file has built so far.
#[verifier::ext_equal]
pub struct Build {
    /// Terrain art and blocked flag of each cell.
    pub tiles: Seq<(Seq<char>, bool)>,
    /// Objects: whether it is a road or wall (else an item), its art, its cell.
    pub objects: Seq<(bool, Seq<char>, u32)>,
    /// Teleporters by cell: target map, cell, whether the map's own start
    /// is used, landing column and row.
    pub teleporters: Map<u32, (Seq<char>, u32, bool, u8, u8)>,
    pub width: u8,
    pub height: u8,
    pub start_x: u8,
    pub start_y: u8,
    /// Inside the header.
    pub header: bool,
    /// The terrain art that marks cells off the map.
    pub oob: Seq<char>,
    /// Inside a teleporter, and what it has given so far.
    pub tele: bool,
    pub tele_index: u32,
    pub tele_default: bool,
    pub tele_x: u8,
    pub tele_y: u8,
    pub tele_h: u8,
    pub tele_w: u8,
    pub tele_map: Seq<char>,
}

/// Where the pass stands: going on, stopped with an error message, or at a
/// fault (where the reading would panic: a number that does not read, a
/// cell off the terrain, an art name that cannot be taken apart).
pub enum Step {
    Go(Build),
    Stop(Seq<char>),
    Fault,
}

/// The build before any event.
pub open spec fn empty_build() -> Build {
    Build {
        tiles: Seq::empty(),
        objects: Seq::empty(),
        teleporters: Map::empty(),
        width: 0,
        height: 0,
        start_x: 0,
        start_y: 0,
        header: false,
        oob: Seq::empty(),
        tele: false,
        tele_index: 0,
        tele_default: false,
        tele_x: 0,
        tele_y: 0,
        tele_h: 1,
        tele_w: 1,
        tele_map: Seq::empty(),
    }
}

/// `u8` read from decimal text.
pub open spec fn read_u8(v: Seq<char>) -> Option<u8> {
    match parse_unsigned_spec(v, 10, 255) {
        Some(n) => Some(n as u8),
        None => None,
    }
}

/// The header's size after its attributes, or the error for the first
/// `width` or `height` that does not read.
pub open spec fn header_size(w: u8, h: u8, attrs: Seq<(Seq<char>, Seq<char>)>) -> Result<(u8, u8), Seq<char>>
    decreases attrs.len(),
{
    if attrs.len() == 0 {
        Ok((w, h))
    } else {
        match header_size(w, h, attrs.drop_last()) {
            Err(e) => Err(e),
            Ok((w1, h1)) => {
                let (n, v) = attrs.last();
                if n == "width"@ {
                    match read_u8(v) {
                        Some(x) => Ok((x, h1)),
                        None => Err("Bad Width"@),
                    }
                } else if n == "height"@ {
                    match read_u8(v) {
                        Some(x) => Ok((w1, x)),
                        None => Err("Bad Height"@),
                    }
                } else {
                    Ok((w1, h1))
                }
            },
        }
    }
}

/// A `boolean` inside a teleporter asks for the map's own start.
pub open spec fn asks_default(d: bool, attrs: Seq<(Seq<char>, Seq<char>)>) -> bool
    decreases attrs.len(),
{
    if attrs.len() == 0 {
        d
    } else {
        asks_default(d, attrs.drop_last()) || attrs.last() == ("name"@, "ask-map"@)
    }
}

/// A `string` inside a teleporter: whether it names the map, and its value.
pub open spec fn string_attrs(attrs: Seq<(Seq<char>, Seq<char>)>) -> (bool, Seq<char>)
    decreases attrs.len(),
{
    if attrs.len() == 0 {
        (false, Seq::empty())
    } else {
        let (is_map, value) = string_attrs(attrs.drop_last());
        let (n, v) = attrs.last();
        if n == "name"@ && v == "map"@ {
            (true, value)
        } else if n == "value"@ {
            (is_map, v)
        } else {
            (is_map, value)
        }
    }
}

/// An `arch` inside the header: its art, whether it is the terrain, whether
/// it is the terrain off the map.
pub open spec fn header_arch_attrs(attrs: Seq<(Seq<char>, Seq<char>)>) -> (Seq<char>, bool, bool)
    decreases attrs.len(),
{
    if attrs.len() == 0 {
        (Seq::empty(), false, false)
    } else {
        let (t, is_t, is_o) = header_arch_attrs(attrs.drop_last());
        let (n, v) = attrs.last();
        if n == "name"@ && v == "terrain"@ {
            (t, true, is_o)
        } else if n == "path"@ {
            (v, is_t, is_o)
        } else if n == "name"@ && v == "oob-terrain"@ {
            (t, is_t, true)
        } else {
            (t, is_t, is_o)
        }
    }
}

/// An `int`: its name and value, or `None` where the value does not read.
pub open spec fn int_attrs(attrs: Seq<(Seq<char>, Seq<char>)>) -> Option<(Seq<char>, u8)>
    decreases attrs.len(),
{
    if attrs.len() == 0 {
        Some((Seq::empty(), 0))
    } else {
        match int_attrs(attrs.drop_last()) {
            None => None,
            Some((nm, val)) => {
                let (n, v) = attrs.last();
                if n == "name"@ {
                    Some((v, val))
                } else if n == "value"@ {
                    match read_u8(v) {
                        Some(x) => Some((nm, x)),
                        None => None,
                    }
                } else {
                    Some((nm, val))
                }
            },
        }
    }
}

/// An `arch` after the header: its art and its rectangle (column, row,
/// width, height), or `None` where a number of its `loc` does not read. A
/// `loc` of two numbers is one cell.
pub open spec fn body_arch_attrs(attrs: Seq<(Seq<char>, Seq<char>)>) -> Option<(Seq<char>, u8, u8, u8, u8)>
    decreases attrs.len(),
{
    if attrs.len() == 0 {
        Some((Seq::empty(), 0, 0, 0, 0))
    } else {
        match body_arch_attrs(attrs.drop_last()) {
            None => None,
            Some((t, x, y, w, h)) => {
                let (n, v) = attrs.last();
                if n == "path"@ {
                    Some((v, x, y, w, h))
                } else if n == "loc"@ {
                    let parts = split_on(v, ' ');
                    if parts.len() == 4 {
                        match (read_u8(parts[0]), read_u8(parts[1]), read_u8(parts[2]), read_u8(parts[3])) {
                            (Some(a), Some(b), Some(c), Some(d)) => Some((t, a, b, c, d)),
                            _ => None,
                        }
                    } else if parts.len() == 2 {
                        match (read_u8(parts[0]), read_u8(parts[1])) {
                            (Some(a), Some(b)) => Some((t, a, b, 1, 1)),
                            _ => None,
                        }
                    } else {
                        Some((t, x, y, w, h))
                    }
                }
                else {
                    Some((t, x, y, w, h))
                }
            },
        }
    }
}

/// The cells of a rectangle on a map `w` wide, column by column.
pub open spec fn rect_cells(w: u8, rx: u8, ry: u8, rw: u8, rh: u8) -> Seq<int> {
    Seq::new((rw * rh) as nat, |k: int| (ry + k % (rh as int)) * w + rx + k / (rh as int))
}

/// Counting through the rectangle's columns and rows stays within `u8`.
pub open spec fn rect_counts(rx: u8, ry: u8, rw: u8, rh: u8) -> bool {
    rx + rw <= 255 && (rw > 0 ==> ry + rh <= 255)
}

/// Every cell of the rectangle has terrain.
pub open spec fn rect_on_tiles(b: Build, rx: u8, ry: u8, rw: u8, rh: u8) -> bool {
    forall|k: int| 0 <= k < rw * rh ==> #[trigger] rect_cells(b.width, rx, ry, rw, rh)[k] < b.tiles.len()
}

/// The terrain with the cells of a rectangle painted with `art`.
pub open spec fn paint(tiles: Seq<(Seq<char>, bool)>, cells: Seq<int>, art: Seq<char>) -> Seq<(Seq<char>, bool)> {
    Seq::new(tiles.len(), |c: int| if cells.contains(c) { (art, false) } else { tiles[c] })
}

/// The terrain with the cells of a rectangle opened (not blocked).
pub open spec fn open_cells(tiles: Seq<(Seq<char>, bool)>, cells: Seq<int>) -> Seq<(Seq<char>, bool)> {
    Seq::new(tiles.len(), |c: int| if cells.contains(c) { (tiles[c].0, false) } else { tiles[c] })
}

/// The object that a map maker's path `tile` places on cell `c`.
pub open spec fn placed(tile: Seq<char>, known: StrMap<i16>, c: int) -> (bool, Seq<char>, u32) {
    if has_sub(tile, "roads"@) || has_sub(tile, "walls"@) {
        (true, corrected_tile(tile, known), c as u32)
    } else {
        (false, item_art(tile), c as u32)
    }
}

/// An `arch` after the header with art `tile` on the given rectangle.
pub open spec fn body_arch(b: Build, tile: Seq<char>, rx: u8, ry: u8, rw: u8, rh: u8, known: StrMap<i16>) -> Step {
    let cells = rect_cells(b.width, rx, ry, rw, rh);
    if has_sub(tile, "terrain"@) {
        if !rect_counts(rx, ry, rw, rh) || !rect_on_tiles(b, rx, ry, rw, rh) {
            Step::Fault
        } else {
            Step::Go(Build { tiles: paint(b.tiles, cells, tile), ..b })
        }
    } else if tile == "special/teleporter"@ {
        Step::Go(Build {
            tele: true,
            tele_index: (ry * b.width + rx) as u32,
            tele_h: rh,
            tele_w: rw,
            ..b
        })
    } else {
        let road_wall = has_sub(tile, "roads"@) || has_sub(tile, "walls"@);
        let main_road = has_sub(tile, "main_road"@);
        if !rect_counts(rx, ry, rw, rh) || (main_road && !rect_on_tiles(b, rx, ry, rw, rh))
            || (road_wall && rw * rh > 0 && tile_options(tile) is None) {
            Step::Fault
        } else {
            Step::Go(Build {
                tiles: if main_road { open_cells(b.tiles, cells) } else { b.tiles },
                objects: b.objects + cells.map_values(|c: int| placed(tile, known, c)),
                ..b
            })
        }
    }
}

/// The build after the start of an element named `name`.
pub open spec fn on_start(b: Build, name: Seq<char>, attrs: Seq<(Seq<char>, Seq<char>)>, known: StrMap<i16>) -> Step {
    if name == "header"@ {
        match header_size(b.width, b.height, attrs) {
            Err(e) => Step::Stop(e),
            Ok((w, h)) => if h > 0 && w > 0 {
                Step::Go(Build { header: true, width: w, height: h, ..b })
            } else {
                Step::Stop("Invalid dimensions"@)
            },
        }
    } else if name == "boolean"@ {
        if b.tele {
            Step::Go(Build { tele_default: asks_default(b.tele_default, attrs), ..b })
        } else {
            Step::Go(b)
        }
    } else if name == "string"@ {
        let (is_map, value) = string_attrs(attrs);
        if b.tele && is_map {
            Step::Go(Build { tele_map: value, ..b })
        } else {
            Step::Go(b)
        }
    } else if name == "arch"@ {
        if b.header {
            let (t, is_t, is_o) = header_arch_attrs(attrs);
            if is_t {
                Step::Go(Build { tiles: b.tiles + Seq::new((b.width * b.height) as nat, |k: int| (t, false)), ..b })
            } else if is_o {
                Step::Go(Build { oob: t, ..b })
            } else {
                Step::Go(b)
            }
        } else {
            match body_arch_attrs(attrs) {
                None => Step::Fault,
                Some((t, rx, ry, rw, rh)) => body_arch(b, t, rx, ry, rw, rh, known),
            }
        }
    } else if name == "int"@ {
        match int_attrs(attrs) {
            None => Step::Fault,
            Some((nm, val)) => if b.tele && nm == "x"@ {
                Step::Go(Build { tele_x: val, ..b })
            } else if b.tele && nm == "y"@ {
                Step::Go(Build { tele_y: val, ..b })
            } else if has_sub(nm, "startX"@) {
                Step::Go(Build { start_x: val, ..b })
            } else if has_sub(nm, "startY"@) {
                Step::Go(Build { start_y: val, ..b })
            } else {
                Step::Go(b)
            },
        }
    } else {
        Step::Go(b)
    }
}

/// The cell `dx` columns and `dy` rows from the open teleporter's first cell.
pub open spec fn tele_cell_at(b: Build, dx: int, dy: int) -> int {
    let tx = b.tele_index % (b.width as u32);
    let ty = b.tele_index / (b.width as u32);
    (ty + dy) * b.width + tx + dx
}

/// Cell `c` is one of the open teleporter's rectangle that comes before
/// column `x`, row `y` (columns first, then rows within a column).
pub open spec fn region_done(b: Build, x: int, y: int, c: int) -> bool {
    exists|dx: int, dy: int|
        #![trigger tele_cell_at(b, dx, dy)]
        0 <= dx && 0 <= dy < b.tele_h && (dx < x || (dx == x && dy < y)) && c == tele_cell_at(b, dx, dy)
}

/// The teleporters once those cells of the open teleporter's rectangle are
/// recorded, each keyed by its own cell.
pub open spec fn with_region(b: Build, x: int, y: int) -> Map<u32, (Seq<char>, u32, bool, u8, u8)> {
    Map::new(
        |c: u32| b.teleporters.contains_key(c) || region_done(b, x, y, c as int),
        |c: u32| if region_done(b, x, y, c as int) {
            (b.tele_map, c, b.tele_default, b.tele_x, b.tele_y)
        } else {
            b.teleporters[c]
        },
    )
}

/// The build after the end of an element named `name`. The end of the header
/// blocks the cells with the off-map terrain; the end of a teleporter's
/// `arch` records a teleporter on every cell of its rectangle (see
/// `with_region`) and resets its values.
pub open spec fn on_end(b: Build, name: Seq<char>) -> Step {
    if name == "header"@ {
        Step::Go(Build {
            header: false,
            tiles: Seq::new(b.tiles.len(), |c: int| (b.tiles[c].0, b.tiles[c].1 || b.tiles[c].0 == b.oob)),
            ..b
        })
    } else if name == "arch"@ && b.tele {
        if b.width == 0 {
            Step::Fault
        } else {
            Step::Go(Build {
                teleporters: with_region(b, b.tele_w as int, 0),
                tele: false,
                tele_index: 0,
                tele_default: false,
                tele_x: 1,
                tele_y: 1,
                tele_h: 1,
                tele_w: 1,
                tele_map: Seq::empty(),
                ..b
            })
        }
    } else {
        Step::Go(b)
    }
}

/// The pass after one event.
pub open spec fn on_event(b: Build, e: XmlItem, known: StrMap<i16>) -> Step {
    match e {
        XmlItem::Start(name, attrs) => on_start(b, name@, attrs_of(attrs@), known),
        XmlItem::End(name) => on_end(b, name@),
        XmlItem::Other => Step::Go(b),
    }
}

/// The pass over the events.
pub open spec fn run_events(events: Seq<XmlItem>, known: StrMap<i16>) -> Step
    decreases events.len(),
{
    if events.len() == 0 {
        Step::Go(empty_build())
    } else {
        match run_events(events.drop_last(), known) {
            Step::Go(b) => on_event(b, events.last(), known),
            s => s,
        }
    }
}

/// Roads (or walls, `road` false) on each cell.
pub open spec fn link_flags(b: Build, road: bool) -> Seq<bool> {
    Seq::new(b.tiles.len(), |c: int| exists|k: int| 0 <= k < b.objects.len() && (#[trigger] b.objects[k]).0
        && has_sub(b.objects[k].1, "roads"@) == road && b.objects[k].2 == c)
}

/// The object `o` can take its neighbours' art without a fault.
pub open spec fn can_relink(b: Build, o: (bool, Seq<char>, u32)) -> bool {
    &&& (o.2 as int) < b.tiles.len()
    &&& keeps_art(o.1) || (b.width > 0 && forall|dx: int, dy: int|
        #![trigger neighbor(b.width, b.height, o.2 as int, dx, dy)]
        (-1 <= dx <= 1 && -1 <= dy <= 1 && neighbor(b.width, b.height, o.2 as int, dx, dy) is Some)
            ==> neighbor(b.width, b.height, o.2 as int, dx, dy).unwrap() < b.tiles.len())
}

/// A road's or wall's art after it takes its neighbours into account.
pub open spec fn relinked(b: Build, o: (bool, Seq<char>, u32)) -> (bool, Seq<char>, u32) {
    if o.0 && !keeps_art(o.1) {
        (true, o.1 + link_suffix(b.width, b.height, link_flags(b, has_sub(o.1, "roads"@)), o.2 as int), o.2)
    } else {
        o
    }
}

/// The build when all events are read: roads and walls take their
/// neighbours' art.
pub open spec fn finish_build(b: Build) -> Step {
    if exists|k: int| 0 <= k < b.objects.len() && (#[trigger] b.objects[k]).0 && !can_relink(b, b.objects[k]) {
        Step::Fault
    } else {
        Step::Go(Build { objects: b.objects.map_values(|o: (bool, Seq<char>, u32)| relinked(b, o)), ..b })
    }
}

/// What reading a map file with events `events` gives.
pub open spec fn map_outcome(events: Seq<XmlItem>, known: StrMap<i16>) -> Step {
    match run_events(events, known) {
        Step::Go(b) => finish_build(b),
        s => s,
    }
}


proof fn lemma_attrs_step(a: Seq<(String, String)>, i: int)
    requires
        0 <= i < a.len(),
    ensures
        attrs_of(a).take(i + 1).drop_last() == attrs_of(a).take(i),
        attrs_of(a).take(i + 1).last() == (a[i].0@, a[i].1@),
        attrs_of(a).take(i + 1).len() == i + 1,
{
    assert(attrs_of(a).take(i + 1).drop_last() =~= attrs_of(a).take(i));
}

proof fn lemma_attrs_all(a: Seq<(String, String)>)
    ensures
        attrs_of(a).take(a.len() as int) == attrs_of(a),
{
    assert(attrs_of(a).take(a.len() as int) =~= attrs_of(a));
}

/// `u8` read from decimal text.
fn read_u8_exec(v: &String) -> (r: Option<u8>)
    ensures
        r == read_u8(v@),
{
    match parse_u8(&chars_of(v.as_str())) {
        Some(x) => Some(x),
        None => None,
    }
}

/// `header_size`.
fn header_size_exec(w: u8, h: u8, attrs: &Vec<(String, String)>) -> (r: Result<(u8, u8), String>)
    ensures
        match header_size(w, h, attrs_of(attrs@)) {
            Ok(p) => r == Ok::<(u8, u8), String>(p),
            Err(e) => r matches Err(m) && m@ == e,
        },
{
    proof {
        reveal_strlit("width");
        reveal_strlit("height");
        reveal_strlit("Bad Width");
        reveal_strlit("Bad Height");
    }
    let mut ww = w;
    let mut hh = h;
    let mut i: usize = 0;
    while i < attrs.len()
        invariant
            i <= attrs@.len(),
            header_size(w, h, attrs_of(attrs@).take(i as int)) == Ok::<(u8, u8), Seq<char>>((ww, hh)),
        decreases attrs@.len() - i,
    {
        proof {
            lemma_attrs_step(attrs@, i as int);
        }
        let (n, v) = (&attrs[i].0, &attrs[i].1);
        if str_eq(n.as_str(), "width") {
            match read_u8_exec(v) {
                Some(x) => {
                    ww = x;
                },
                None => {
                    proof {
                        lemma_header_size_err(w, h, attrs_of(attrs@), i as int + 1);
                    }
                    return Err("Bad Width".to_owned());
                },
            }
        } else if str_eq(n.as_str(), "height") {
            match read_u8_exec(v) {
                Some(x) => {
                    hh = x;
                },
                None => {
                    proof {
                        lemma_header_size_err(w, h, attrs_of(attrs@), i as int + 1);
                    }
                    return Err("Bad Height".to_owned());
                },
            }
        }
        i = i + 1;
    }
    proof {
        lemma_attrs_all(attrs@);
    }
    Ok((ww, hh))
}

proof fn lemma_header_size_err(w: u8, h: u8, a: Seq<(Seq<char>, Seq<char>)>, i: int)
    requires
        0 <= i <= a.len(),
        header_size(w, h, a.take(i)) is Err,
    ensures
        header_size(w, h, a) == header_size(w, h, a.take(i)),
    decreases a.len() - i,
{
    if i < a.len() {
        assert(a.take(i + 1).drop_last() =~= a.take(i));
        lemma_header_size_err(w, h, a, i + 1);
    } else {
        assert(a.take(i) =~= a);
    }
}

proof fn lemma_int_attrs_none(a: Seq<(Seq<char>, Seq<char>)>, i: int)
    requires
        0 <= i <= a.len(),
        int_attrs(a.take(i)) is None,
    ensures
        int_attrs(a) is None,
    decreases a.len() - i,
{
    if i < a.len() {
        assert(a.take(i + 1).drop_last() =~= a.take(i));
        lemma_int_attrs_none(a, i + 1);
    } else {
        assert(a.take(i) =~= a);
    }
}

proof fn lemma_body_attrs_none(a: Seq<(Seq<char>, Seq<char>)>, i: int)
    requires
        0 <= i <= a.len(),
        body_arch_attrs(a.take(i)) is None,
    ensures
        body_arch_attrs(a) is None,
    decreases a.len() - i,
{
    if i < a.len() {
        assert(a.take(i + 1).drop_last() =~= a.take(i));
        lemma_body_attrs_none(a, i + 1);
    } else {
        assert(a.take(i) =~= a);
    }
}

/// `asks_default`.
fn asks_default_exec(d: bool, attrs: &Vec<(String, String)>) -> (r: bool)
    ensures
        r == asks_default(d, attrs_of(attrs@)),
{
    let mut r = d;
    let mut i: usize = 0;
    while i < attrs.len()
        invariant
            i <= attrs@.len(),
            r == asks_default(d, attrs_of(attrs@).take(i as int)),
        decreases attrs@.len() - i,
    {
        proof {
            lemma_attrs_step(attrs@, i as int);
        }
        if str_eq(attrs[i].0.as_str(), "name") && str_eq(attrs[i].1.as_str(), "ask-map") {
            r = true;
        }
        i = i + 1;
    }
    proof {
        lemma_attrs_all(attrs@);
    }
    r
}

/// `string_attrs`.
fn string_attrs_exec(attrs: &Vec<(String, String)>) -> (r: (bool, String))
    ensures
        (r.0, r.1@) == string_attrs(attrs_of(attrs@)),
{
    let mut is_map = false;
    let mut value = String::new();
    let mut i: usize = 0;
    while i < attrs.len()
        invariant
            i <= attrs@.len(),
            (is_map, value@) == string_attrs(attrs_of(attrs@).take(i as int)),
        decreases attrs@.len() - i,
    {
        proof {
            lemma_attrs_step(attrs@, i as int);
        }
        if str_eq(attrs[i].0.as_str(), "name") && str_eq(attrs[i].1.as_str(), "map") {
            is_map = true;
        } else if str_eq(attrs[i].0.as_str(), "value") {
            value = attrs[i].1.clone();
        }
        i = i + 1;
    }
    proof {
        lemma_attrs_all(attrs@);
    }
    (is_map, value)
}

/// `header_arch_attrs`.
fn header_arch_attrs_exec(attrs: &Vec<(String, String)>) -> (r: (String, bool, bool))
    ensures
        (r.0@, r.1, r.2) == header_arch_attrs(attrs_of(attrs@)),
{
    let mut terrain = String::new();
    let mut is_terrain = false;
    let mut is_oob = false;
    let mut i: usize = 0;
    while i < attrs.len()
        invariant
            i <= attrs@.len(),
            (terrain@, is_terrain, is_oob) == header_arch_attrs(attrs_of(attrs@).take(i as int)),
        decreases attrs@.len() - i,
    {
        proof {
            lemma_attrs_step(attrs@, i as int);
        }
        if str_eq(attrs[i].0.as_str(), "name") && str_eq(attrs[i].1.as_str(), "terrain") {
            is_terrain = true;
        } else if str_eq(attrs[i].0.as_str(), "path") {
            terrain = attrs[i].1.clone();
        } else if str_eq(attrs[i].0.as_str(), "name") && str_eq(attrs[i].1.as_str(), "oob-terrain") {
            is_oob = true;
        }
        i = i + 1;
    }
    proof {
        lemma_attrs_all(attrs@);
    }
    (terrain, is_terrain, is_oob)
}

/// `int_attrs`.
fn int_attrs_exec(attrs: &Vec<(String, String)>) -> (r: Option<(String, u8)>)
    ensures
        match int_attrs(attrs_of(attrs@)) {
            Some((n, v)) => r matches Some(p) && p.0@ == n && p.1 == v,
            None => r is None,
        },
{
    let mut name = String::new();
    let mut val: u8 = 0;
    let mut i: usize = 0;
    while i < attrs.len()
        invariant
            i <= attrs@.len(),
            int_attrs(attrs_of(attrs@).take(i as int)) == Some((name@, val)),
        decreases attrs@.len() - i,
    {
        proof {
            lemma_attrs_step(attrs@, i as int);
        }
        if str_eq(attrs[i].0.as_str(), "name") {
            name = attrs[i].1.clone();
        } else if str_eq(attrs[i].0.as_str(), "value") {
            match read_u8_exec(&attrs[i].1) {
                Some(x) => {
                    val = x;
                },
                None => {
                    proof {
                        lemma_int_attrs_none(attrs_of(attrs@), i as int + 1);
                    }
                    return None;
                },
            }
        }
        i = i + 1;
    }
    proof {
        lemma_attrs_all(attrs@);
    }
    Some((name, val))
}

/// `body_arch_attrs`.
fn body_arch_attrs_exec(attrs: &Vec<(String, String)>) -> (r: Option<(String, u8, u8, u8, u8)>)
    ensures
        match body_arch_attrs(attrs_of(attrs@)) {
            Some((t, x, y, w, h)) => r matches Some(p) && p.0@ == t && p.1 == x && p.2 == y && p.3 == w && p.4 == h,
            None => r is None,
        },
{
    let mut tile = String::new();
    let mut rx: u8 = 0;
    let mut ry: u8 = 0;
    let mut rw: u8 = 0;
    let mut rh: u8 = 0;
    let mut i: usize = 0;
    while i < attrs.len()
        invariant
            i <= attrs@.len(),
            body_arch_attrs(attrs_of(attrs@).take(i as int)) == Some((tile@, rx, ry, rw, rh)),
        decreases attrs@.len() - i,
    {
        proof {
            lemma_attrs_step(attrs@, i as int);
        }
        if str_eq(attrs[i].0.as_str(), "path") {
            tile = attrs[i].1.clone();
        } else if str_eq(attrs[i].0.as_str(), "loc") {
            let parts = split_char(&chars_of(attrs[i].1.as_str()), ' ');
            let ghost ps = split_on(attrs@[i as int].1@, ' ');
            assert(parts@.len() == ps.len());
            if parts.len() == 4 {
                assert(parts@[0]@ == ps[0] && parts@[1]@ == ps[1] && parts@[2]@ == ps[2] && parts@[3]@ == ps[3]);
                let a = parse_u8(&parts[0]);
                let b = parse_u8(&parts[1]);
                let c = parse_u8(&parts[2]);
                let d = parse_u8(&parts[3]);
                if a.is_none() || b.is_none() || c.is_none() || d.is_none() {
                    proof {
                        lemma_body_attrs_none(attrs_of(attrs@), i as int + 1);
                    }
                    return None;
                }
                rx = a.unwrap();
                ry = b.unwrap();
                rw = c.unwrap();
                rh = d.unwrap();
            } else if parts.len() == 2 {
                assert(parts@[0]@ == ps[0] && parts@[1]@ == ps[1]);
                let a = parse_u8(&parts[0]);
                let b = parse_u8(&parts[1]);
                if a.is_none() || b.is_none() {
                    proof {
                        lemma_body_attrs_none(attrs_of(attrs@), i as int + 1);
                    }
                    return None;
                }
                rx = a.unwrap();
                ry = b.unwrap();
                rw = 1;
                rh = 1;
            }
        }
        i = i + 1;
    }
    proof {
        lemma_attrs_all(attrs@);
    }
    Some((tile, rx, ry, rw, rh))
}


/// What a step of the pass returns: go on, stop with an error message, or
/// a fault.
pub enum Flow {
    Go,
    Stop(String),
    Fault,
}

/// The step `r` and the build `b` after it are what `s` says.
pub open spec fn flow_is(s: Step, r: Flow, b: Build) -> bool {
    match s {
        Step::Go(nb) => r is Go && b == nb,
        Step::Stop(m) => r matches Flow::Stop(x) && x@ == m,
        Step::Fault => r is Fault,
    }
}

/// Terrain by its art and blocked flags.
pub open spec fn tiles_view(t: Seq<MapTile>) -> Seq<(Seq<char>, bool)> {
    t.map_values(|m: MapTile| (m.tile@, m.blocked))
}

/// An object by whether it is a road or wall, its art and its cell. (A map
/// file places no players, so a player is seen by these alone.)
pub open spec fn object_view(o: MapObject) -> (bool, Seq<char>, u32) {
    match o {
        MapObject::RoadWall(r) => (true, r.tile@, r.index),
        MapObject::Item(i) => (false, i.tile@, i.index),
        MapObject::Player(p) => (false, p.tile@, p.index),
    }
}

pub open spec fn objects_view(s: Seq<MapObject>) -> Seq<(bool, Seq<char>, u32)> {
    s.map_values(|o: MapObject| object_view(o))
}

/// Teleporters by their target, cell, default flag and landing place.
pub open spec fn teleporters_view(m: Map<u32, Teleporter>) -> Map<u32, (Seq<char>, u32, bool, u8, u8)> {
    m.map_values(|t: Teleporter| (t.map@, t.index, t.use_default, t.x, t.y))
}

/// The pass over a map file, as it goes.
pub struct MapBuilder {
    pub tiles: Vec<MapTile>,
    pub objects: Vec<MapObject>,
    pub teleporters: HashMap<u32, Teleporter>,
    pub width: u8,
    pub height: u8,
    pub start_x: u8,
    pub start_y: u8,
    pub header: bool,
    pub oob: String,
    pub tele: bool,
    pub tele_index: u32,
    pub tele_default: bool,
    pub tele_x: u8,
    pub tele_y: u8,
    pub tele_h: u8,
    pub tele_w: u8,
    pub tele_map: String,
}

impl View for MapBuilder {
    type V = Build;

    /// The pass so far, as plain values.
    open spec fn view(&self) -> Build {
        Build {
            tiles: tiles_view(self.tiles@),
            objects: objects_view(self.objects@),
            teleporters: teleporters_view(self.teleporters@),
            width: self.width,
            height: self.height,
            start_x: self.start_x,
            start_y: self.start_y,
            header: self.header,
            oob: self.oob@,
            tele: self.tele,
            tele_index: self.tele_index,
            tele_default: self.tele_default,
            tele_x: self.tele_x,
            tele_y: self.tele_y,
            tele_h: self.tele_h,
            tele_w: self.tele_w,
            tele_map: self.tele_map@,
        }
    }
}

impl MapBuilder {
    /// No object is a player.
    pub open spec fn no_players(&self) -> bool {
        forall|k: int| 0 <= k < self.objects@.len() ==> !(#[trigger] self.objects@[k] is Player)
    }

    /// The pass before any event.
    pub fn new() -> (r: MapBuilder)
        ensures
            r.view() == empty_build(),
            r.no_players(),
    {
        let r = MapBuilder {
            tiles: Vec::new(),
            objects: Vec::new(),
            teleporters: HashMap::new(),
            width: 0,
            height: 0,
            start_x: 0,
            start_y: 0,
            header: false,
            oob: String::new(),
            tele: false,
            tele_index: 0,
            tele_default: false,
            tele_x: 0,
            tele_y: 0,
            tele_h: 1,
            tele_w: 1,
            tele_map: String::new(),
        };
        assert(r.view() =~= empty_build());
        r
    }
}


/// The cell at column `x` and row `y` of a rectangle comes at position
/// `(x - rx) * rh + (y - ry)` of its cells.
proof fn lemma_rect_cell(w: u8, rx: u8, ry: u8, rw: u8, rh: u8, x: int, y: int)
    requires
        rx <= x < rx + rw,
        ry <= y < ry + rh,
    ensures
        0 <= (x - rx) * rh + (y - ry) < rw * rh,
        rect_cells(w, rx, ry, rw, rh)[(x - rx) * rh + (y - ry)] == y * w + x,
{
    let k = (x - rx) * (rh as int) + (y - ry);
    assert(0 <= k < rw * rh) by (nonlinear_arith)
        requires
            k == (x - rx) * (rh as int) + (y - ry),
            0 <= x - rx < rw,
            0 <= y - ry < rh,
    ;
    vstd::arithmetic::div_mod::lemma_fundamental_div_mod_converse(k, rh as int, x - rx, y - ry);
}

proof fn lemma_take_contains(cells: Seq<int>, k: int, c: int)
    requires
        0 <= k < cells.len(),
    ensures
        cells.take(k + 1).contains(c) <==> (cells.take(k).contains(c) || c == cells[k]),
{
    if cells.take(k + 1).contains(c) {
        let j = choose|j: int| 0 <= j < k + 1 && #[trigger] cells.take(k + 1)[j] == c;
        if j < k {
            assert(cells.take(k)[j] == c);
        }
    }
    if cells.take(k).contains(c) {
        let j = choose|j: int| 0 <= j < k && #[trigger] cells.take(k)[j] == c;
        assert(cells.take(k + 1)[j] == c);
    }
    if c == cells[k] {
        assert(cells.take(k + 1)[k] == c);
    }
}

/// Paints the cells of a rectangle with `art`; `false` where a cell has no
/// terrain.
fn paint_cells(tiles: &mut Vec<MapTile>, w: u8, art: &String, rx: u8, ry: u8, rw: u8, rh: u8) -> (r: bool)
    requires
        rect_counts(rx, ry, rw, rh),
    ensures
        r == (forall|k: int| 0 <= k < rw * rh ==> #[trigger] rect_cells(w, rx, ry, rw, rh)[k] < old(tiles)@.len()),
        r ==> tiles_view(final(tiles)@) == paint(tiles_view(old(tiles)@), rect_cells(w, rx, ry, rw, rh), art@),
{
    let ghost t0 = tiles_view(tiles@);
    let ghost cells = rect_cells(w, rx, ry, rw, rh);
    let ghost n = rw * rh;
    let len = tiles.len();
    let wu = w as usize;
    let xe: u16 = rx as u16 + rw as u16;
    let ye: u16 = ry as u16 + rh as u16;
    let mut x: u16 = rx as u16;
    let ghost mut k: int = 0;
    while x < xe
        invariant
            rx <= x <= xe,
            xe == rx + rw,
            ye == ry + rh,
            rect_counts(rx, ry, rw, rh),
            len == tiles@.len(),
            len == t0.len(),
            t0 == tiles_view(old(tiles)@),
            wu == w,
            cells == rect_cells(w, rx, ry, rw, rh),
            n == rw * rh,
            k == (x - rx) * rh,
            0 <= k <= n,
            forall|j: int| 0 <= j < k ==> #[trigger] cells[j] < len,
            tiles_view(tiles@) == paint(t0, cells.take(k), art@),
        decreases xe - x,
    {
        let mut y: u16 = ry as u16;
        assert(k + rh <= n) by (nonlinear_arith)
            requires
                k == (x - rx) * rh,
                x < rx + rw,
                n == rw * rh,
        ;
        while y < ye
            invariant
                rx <= x < xe,
                ry <= y <= ye,
                xe == rx + rw,
                ye == ry + rh,
                rect_counts(rx, ry, rw, rh),
                len == tiles@.len(),
                len == t0.len(),
                t0 == tiles_view(old(tiles)@),
                wu == w,
                cells == rect_cells(w, rx, ry, rw, rh),
                n == rw * rh,
                k == (x - rx) * rh + (y - ry),
                0 <= k <= n,
                k + (ye - y) <= n,
                forall|j: int| 0 <= j < k ==> #[trigger] cells[j] < len,
                tiles_view(tiles@) == paint(t0, cells.take(k), art@),
            decreases ye - y,
        {
            proof {
                lemma_rect_cell(w, rx, ry, rw, rh, x as int, y as int);
            }
            assert(y * wu + x < 256 * 256) by (nonlinear_arith)
                requires
                    y < 256,
                    x < 256,
                    wu < 256,
            ;
            let index = y as usize * wu + x as usize;
            assert(cells[k] == index);
            if index >= len {
                assert(0 <= k < rw * rh);
                assert(rect_cells(w, rx, ry, rw, rh)[k] >= old(tiles)@.len());
                return false;
            }
            let ghost before = tiles_view(tiles@);
            tiles.set(index, MapTile { tile: art.clone(), blocked: false });
            proof {
                assert forall|c: int| 0 <= c < len implies #[trigger] tiles_view(tiles@)[c] == paint(t0, cells.take(k + 1), art@)[c] by {
                    lemma_take_contains(cells, k, c);
                    if c != index {
                        assert(tiles_view(tiles@)[c] == before[c]);
                    }
                }
                assert(tiles_view(tiles@) =~= paint(t0, cells.take(k + 1), art@));
                k = k + 1;
            }
            y = y + 1;
        }
        x = x + 1;
        proof {
            assert(k == (x - rx) * rh) by (nonlinear_arith)
                requires
                    k == (x - 1 - rx) * rh + (ye - ry),
                    ye == ry + rh,
            ;
        }
    }
    proof {
        assert(k == n) by (nonlinear_arith)
            requires
                k == (x - rx) * rh,
                x == rx + rw,
                n == rw * rh,
        ;
        assert(cells.take(n) =~= cells);
    }
    true
}


/// Places the objects of path `tile` on the cells of a rectangle, column by
/// column, opening the cells first for a main road; `false` where a main
/// road's cell has no terrain.
fn place_cells(
    tiles: &mut Vec<MapTile>,
    objects: &mut Vec<MapObject>,
    w: u8,
    tile: &String,
    rx: u8,
    ry: u8,
    rw: u8,
    rh: u8,
    known: &StrMap<i16>,
    main_road: bool,
) -> (r: bool)
    requires
        rect_counts(rx, ry, rw, rh),
        known.wf(),
        main_road == has_sub(tile@, "main_road"@),
        (has_sub(tile@, "roads"@) || has_sub(tile@, "walls"@)) && rw * rh > 0 ==> tile_options(tile@) is Some,
        forall|k: int| 0 <= k < old(objects)@.len() ==> !(#[trigger] old(objects)@[k] is Player),
    ensures
        r == (!main_road || forall|k: int| 0 <= k < rw * rh ==> #[trigger] rect_cells(w, rx, ry, rw, rh)[k] < old(tiles)@.len()),
        r ==> tiles_view(final(tiles)@) == (if main_road {
            open_cells(tiles_view(old(tiles)@), rect_cells(w, rx, ry, rw, rh))
        } else {
            tiles_view(old(tiles)@)
        }),
        r ==> objects_view(final(objects)@) == objects_view(old(objects)@) + rect_cells(w, rx, ry, rw, rh).map_values(
            |c: int| placed(tile@, *known, c),
        ),
        r ==> forall|k: int| 0 <= k < final(objects)@.len() ==> !(#[trigger] final(objects)@[k] is Player),
{
    proof {
        reveal_strlit("roads");
        reveal_strlit("walls");
    }
    let road_wall = contains(tile.as_str(), "roads") || contains(tile.as_str(), "walls");
    let ghost t0 = tiles_view(tiles@);
    let ghost o0 = objects_view(objects@);
    let ghost cells = rect_cells(w, rx, ry, rw, rh);
    let ghost n = rw * rh;
    let ghost f = |c: int| placed(tile@, *known, c);
    let len = tiles.len();
    let wu = w as usize;
    let xe: u16 = rx as u16 + rw as u16;
    let ye: u16 = ry as u16 + rh as u16;
    let mut x: u16 = rx as u16;
    let ghost mut k: int = 0;
    while x < xe
        invariant
            rx <= x <= xe,
            xe == rx + rw,
            ye == ry + rh,
            rect_counts(rx, ry, rw, rh),
            known.wf(),
            main_road == has_sub(tile@, "main_road"@),
            road_wall == (has_sub(tile@, "roads"@) || has_sub(tile@, "walls"@)),
            road_wall && rw * rh > 0 ==> tile_options(tile@) is Some,
            len == tiles@.len(),
            len == t0.len(),
            t0 == tiles_view(old(tiles)@),
            o0 == objects_view(old(objects)@),
            f == (|c: int| placed(tile@, *known, c)),
            wu == w,
            cells == rect_cells(w, rx, ry, rw, rh),
            n == rw * rh,
            k == (x - rx) * rh,
            0 <= k <= n,
            main_road ==> forall|j: int| 0 <= j < k ==> #[trigger] cells[j] < len,
            tiles_view(tiles@) == (if main_road { open_cells(t0, cells.take(k)) } else { t0 }),
            objects_view(objects@) == o0 + cells.take(k).map_values(f),
            forall|j: int| 0 <= j < objects@.len() ==> !(#[trigger] objects@[j] is Player),
        decreases xe - x,
    {
        let mut y: u16 = ry as u16;
        assert(k + rh <= n) by (nonlinear_arith)
            requires
                k == (x - rx) * rh,
                x < rx + rw,
                n == rw * rh,
        ;
        while y < ye
            invariant
                rx <= x < xe,
                ry <= y <= ye,
                xe == rx + rw,
                ye == ry + rh,
                rect_counts(rx, ry, rw, rh),
                known.wf(),
                main_road == has_sub(tile@, "main_road"@),
                road_wall == (has_sub(tile@, "roads"@) || has_sub(tile@, "walls"@)),
                road_wall && rw * rh > 0 ==> tile_options(tile@) is Some,
                len == tiles@.len(),
                len == t0.len(),
                t0 == tiles_view(old(tiles)@),
                o0 == objects_view(old(objects)@),
                f == (|c: int| placed(tile@, *known, c)),
                wu == w,
                cells == rect_cells(w, rx, ry, rw, rh),
                n == rw * rh,
                k == (x - rx) * rh + (y - ry),
                0 <= k <= n,
                k + (ye - y) <= n,
                main_road ==> forall|j: int| 0 <= j < k ==> #[trigger] cells[j] < len,
                tiles_view(tiles@) == (if main_road { open_cells(t0, cells.take(k)) } else { t0 }),
                objects_view(objects@) == o0 + cells.take(k).map_values(f),
                forall|j: int| 0 <= j < objects@.len() ==> !(#[trigger] objects@[j] is Player),
            decreases ye - y,
        {
            proof {
                lemma_rect_cell(w, rx, ry, rw, rh, x as int, y as int);
            }
            assert(y * wu + x < 256 * 256) by (nonlinear_arith)
                requires
                    y < 256,
                    x < 256,
                    wu < 256,
            ;
            let index = y as usize * wu + x as usize;
            assert(cells[k] == index);
            if main_road {
                if index >= len {
                    assert(0 <= k < rw * rh);
                    assert(rect_cells(w, rx, ry, rw, rh)[k] >= old(tiles)@.len());
                    return false;
                }
                let ghost before = tiles_view(tiles@);
                let art = tiles[index].tile.clone();
                tiles.set(index, MapTile { tile: art, blocked: false });
                proof {
                    assert forall|c: int| 0 <= c < len implies #[trigger] tiles_view(tiles@)[c] == open_cells(t0, cells.take(k + 1))[c] by {
                        lemma_take_contains(cells, k, c);
                        if c != index {
                            assert(tiles_view(tiles@)[c] == before[c]);
                        }
                    }
                    assert(tiles_view(tiles@) =~= open_cells(t0, cells.take(k + 1)));
                }
            }
            let ghost before_objects = objects@;
            let o = if road_wall {
                MapObject::RoadWall(RoadWall::new(tile.clone(), known, index as u32))
            } else {
                MapObject::Item(Item::new(tile.clone(), index as u32))
            };
            assert(object_view(o) == f(cells[k]));
            objects.push(o);
            proof {
                assert(cells.take(k + 1).map_values(f) =~= cells.take(k).map_values(f).push(f(cells[k])));
                assert(objects_view(objects@) =~= objects_view(before_objects).push(object_view(o)));
                assert(objects_view(objects@) =~= o0 + cells.take(k + 1).map_values(f));
                assert forall|j: int| 0 <= j < objects@.len() implies !(#[trigger] objects@[j] is Player) by {
                    if j < before_objects.len() {
                        assert(objects@[j] == before_objects[j]);
                    }
                }
                k = k + 1;
            }
            y = y + 1;
        }
        x = x + 1;
        proof {
            assert(k == (x - rx) * rh) by (nonlinear_arith)
                requires
                    k == (x - 1 - rx) * rh + (ye - ry),
                    ye == ry + rh,
            ;
        }
    }
    proof {
        assert(k == n) by (nonlinear_arith)
            requires
                k == (x - rx) * rh,
                x == rx + rw,
                n == rw * rh,
        ;
        assert(cells.take(n) =~= cells);
    }
    true
}


impl MapBuilder {
    /// An `arch` after the header (see `body_arch`).
    fn body_arch_exec(&mut self, tile: String, rx: u8, ry: u8, rw: u8, rh: u8, known: &StrMap<i16>) -> (r: Flow)
        requires
            known.wf(),
            old(self).no_players(),
        ensures
            flow_is(body_arch(old(self).view(), tile@, rx, ry, rw, rh, *known), r, final(self).view()),
            r is Go ==> final(self).no_players(),
            r is Go ==> final(self).tele_index == old(self).tele_index || final(self).tele_index <= 65535,
    {
        proof {
            reveal_strlit("terrain");
            reveal_strlit("special/teleporter");
            reveal_strlit("roads");
            reveal_strlit("walls");
            reveal_strlit("main_road");
        }
        let counts_ok = (rx as u16 + rw as u16) <= 255 && (rw == 0 || (ry as u16 + rh as u16) <= 255);
        if contains(tile.as_str(), "terrain") {
            if !counts_ok {
                return Flow::Fault;
            }
            let mut tiles: Vec<MapTile> = Vec::new();
            std::mem::swap(&mut tiles, &mut self.tiles);
            let ok = paint_cells(&mut tiles, self.width, &tile, rx, ry, rw, rh);
            self.tiles = tiles;
            if !ok {
                return Flow::Fault;
            }
            assert(self.view() =~= Build {
                tiles: paint(old(self).view().tiles, rect_cells(self.width, rx, ry, rw, rh), tile@),
                ..old(self).view()
            });
            Flow::Go
        } else if str_eq(tile.as_str(), "special/teleporter") {
            assert(ry as int * self.width as int + rx as int <= 65535) by (nonlinear_arith)
                requires
                    ry <= 255,
                    self.width <= 255,
                    rx <= 255,
            ;
            self.tele = true;
            self.tele_index = ry as u32 * self.width as u32 + rx as u32;
            self.tele_h = rh;
            self.tele_w = rw;
            assert(self.view() =~= Build {
                tele: true,
                tele_index: (ry * old(self).width + rx) as u32,
                tele_h: rh,
                tele_w: rw,
                ..old(self).view()
            });
            Flow::Go
        } else {
            let road_wall = contains(tile.as_str(), "roads") || contains(tile.as_str(), "walls");
            let main_road = contains(tile.as_str(), "main_road");
            if !counts_ok {
                return Flow::Fault;
            }
            if road_wall && rw > 0 && rh > 0 && !RoadWall::tile_options_ok(tile.as_str()) {
                assert(rw * rh > 0) by (nonlinear_arith)
                    requires
                        rw > 0,
                        rh > 0,
                ;
                return Flow::Fault;
            }
            assert(road_wall && rw * rh > 0 ==> tile_options(tile@) is Some) by {
                if rw * rh > 0 {
                    assert(rw > 0 && rh > 0) by (nonlinear_arith)
                        requires
                            rw * rh > 0,
                    ;
                }
            }
            let mut tiles: Vec<MapTile> = Vec::new();
            std::mem::swap(&mut tiles, &mut self.tiles);
            let mut objects: Vec<MapObject> = Vec::new();
            std::mem::swap(&mut objects, &mut self.objects);
            let ok = place_cells(&mut tiles, &mut objects, self.width, &tile, rx, ry, rw, rh, known, main_road);
            self.tiles = tiles;
            self.objects = objects;
            if !ok {
                return Flow::Fault;
            }
            assert(self.view() =~= Build {
                tiles: if main_road {
                    open_cells(old(self).view().tiles, rect_cells(self.width, rx, ry, rw, rh))
                } else {
                    old(self).view().tiles
                },
                objects: old(self).view().objects + rect_cells(self.width, rx, ry, rw, rh).map_values(
                    |c: int| placed(tile@, *known, c),
                ),
                ..old(self).view()
            });
            Flow::Go
        }
    }

    /// The start of an element (see `on_start`).
    pub fn start_element(&mut self, name: &String, attrs: &Vec<(String, String)>, known: &StrMap<i16>) -> (r: Flow)
        requires
            known.wf(),
            old(self).no_players(),
            old(self).tele_index <= 65535,
        ensures
            flow_is(on_start(old(self).view(), name@, attrs_of(attrs@), *known), r, final(self).view()),
            r is Go ==> final(self).no_players(),
            r is Go ==> final(self).tele_index <= 65535,
    {
        proof {
            reveal_strlit("Invalid dimensions");
        }
        let n = name.as_str();
        if str_eq(n, "header") {
            match header_size_exec(self.width, self.height, attrs) {
                Err(e) => Flow::Stop(e),
                Ok((w, h)) => {
                    if h > 0 && w > 0 {
                        self.header = true;
                        self.width = w;
                        self.height = h;
                        assert(self.view() =~= Build { header: true, width: w, height: h, ..old(self).view() });
                        Flow::Go
                    } else {
                        Flow::Stop("Invalid dimensions".to_owned())
                    }
                },
            }
        } else if str_eq(n, "boolean") {
            if self.tele {
                self.tele_default = asks_default_exec(self.tele_default, attrs);
                assert(self.view() =~= Build { tele_default: asks_default(old(self).tele_default, attrs_of(attrs@)), ..old(self).view() });
            }
            Flow::Go
        } else if str_eq(n, "string") {
            let (is_map, value) = string_attrs_exec(attrs);
            if self.tele && is_map {
                self.tele_map = value;
                assert(self.view() =~= Build { tele_map: string_attrs(attrs_of(attrs@)).1, ..old(self).view() });
            }
            Flow::Go
        } else if str_eq(n, "arch") {
            if self.header {
                let (t, is_t, is_o) = header_arch_attrs_exec(attrs);
                if is_t {
                    assert(self.width as int * self.height as int <= 255 * 255) by (nonlinear_arith)
                        requires
                            self.width <= 255,
                            self.height <= 255,
                    ;
                    let size: u32 = self.width as u32 * self.height as u32;
                    let ghost base = tiles_view(self.tiles@);
                    let mut k: u32 = 0;
                    while k < size
                        invariant
                            k <= size,
                            size == self.width as int * self.height as int,
                            tiles_view(self.tiles@) == base + Seq::new(k as nat, |j: int| (t@, false)),
                            self.objects == old(self).objects,
                            self.teleporters == old(self).teleporters,
                            self.width == old(self).width,
                            self.height == old(self).height,
                            self.start_x == old(self).start_x,
                            self.start_y == old(self).start_y,
                            self.header == old(self).header,
                            self.oob == old(self).oob,
                            self.tele == old(self).tele,
                            self.tele_index == old(self).tele_index,
                            self.tele_default == old(self).tele_default,
                            self.tele_x == old(self).tele_x,
                            self.tele_y == old(self).tele_y,
                            self.tele_h == old(self).tele_h,
                            self.tele_w == old(self).tele_w,
                            self.tele_map == old(self).tele_map,
                            base == old(self).view().tiles,
                        decreases size - k,
                    {
                        let ghost before = tiles_view(self.tiles@);
                        self.tiles.push(MapTile::new(t.clone()));
                        assert(tiles_view(self.tiles@) =~= before.push((t@, false)));
                        assert(Seq::new((k + 1) as nat, |j: int| (t@, false)) =~= Seq::new(k as nat, |j: int| (t@, false)).push((t@, false)));
                        assert(tiles_view(self.tiles@) =~= base + Seq::new((k + 1) as nat, |j: int| (t@, false)));
                        k = k + 1;
                    }
                    assert(self.view() =~= Build {
                        tiles: old(self).view().tiles + Seq::new((self.width * self.height) as nat, |j: int| (t@, false)),
                        ..old(self).view()
                    });
                } else if is_o {
                    self.oob = t;
                    assert(self.view() =~= Build { oob: header_arch_attrs(attrs_of(attrs@)).0, ..old(self).view() });
                }
                Flow::Go
            } else {
                match body_arch_attrs_exec(attrs) {
                    None => Flow::Fault,
                    Some((t, rx, ry, rw, rh)) => self.body_arch_exec(t, rx, ry, rw, rh, known),
                }
            }
        } else if str_eq(n, "int") {
            match int_attrs_exec(attrs) {
                None => Flow::Fault,
                Some((nm, val)) => {
                    let m = nm.as_str();
                    if self.tele && str_eq(m, "x") {
                        self.tele_x = val;
                        assert(self.view() =~= Build { tele_x: val, ..old(self).view() });
                    } else if self.tele && str_eq(m, "y") {
                        self.tele_y = val;
                        assert(self.view() =~= Build { tele_y: val, ..old(self).view() });
                    } else if contains(m, "startX") {
                        self.start_x = val;
                        assert(self.view() =~= Build { start_x: val, ..old(self).view() });
                    } else if contains(m, "startY") {
                        self.start_y = val;
                        assert(self.view() =~= Build { start_y: val, ..old(self).view() });
                    }
                    Flow::Go
                },
            }
        } else {
            Flow::Go
        }
    }

    /// The end of an element (see `on_end`).
    pub fn end_element(&mut self, name: &String) -> (r: Flow)
        requires
            old(self).tele_index <= 65535,
        ensures
            flow_is(on_end(old(self).view(), name@), r, final(self).view()),
            r is Go ==> final(self).objects == old(self).objects,
            r is Go ==> final(self).tele_index <= 65535,
    {
        let n = name.as_str();
        if str_eq(n, "header") {
            self.header = false;
            let len = self.tiles.len();
            let ghost t0 = tiles_view(self.tiles@);
            let ghost oob = self.oob@;
            let mut c: usize = 0;
            while c < len
                invariant
                    c <= len,
                    len == self.tiles@.len(),
                    len == t0.len(),
                    oob == self.oob@,
                    tiles_view(self.tiles@) == Seq::new(len as nat, |i: int| (t0[i].0, t0[i].1 || (i < c && t0[i].0 == oob))),
                    self.objects == old(self).objects,
                    self.teleporters == old(self).teleporters,
                    self.width == old(self).width,
                    self.height == old(self).height,
                    self.start_x == old(self).start_x,
                    self.start_y == old(self).start_y,
                    !self.header,
                    self.oob == old(self).oob,
                    self.tele == old(self).tele,
                    self.tele_index == old(self).tele_index,
                    self.tele_default == old(self).tele_default,
                    self.tele_x == old(self).tele_x,
                    self.tele_y == old(self).tele_y,
                    self.tele_h == old(self).tele_h,
                    self.tele_w == old(self).tele_w,
                    self.tele_map == old(self).tele_map,
                    t0 == old(self).view().tiles,
                decreases len - c,
            {
                let ghost before = tiles_view(self.tiles@);
                assert(before[c as int] == (t0[c as int].0, t0[c as int].1));
                if str_eq(self.tiles[c].tile.as_str(), self.oob.as_str()) {
                    let art = self.tiles[c].tile.clone();
                    self.tiles.set(c, MapTile { tile: art, blocked: true });
                }
                assert forall|i: int| 0 <= i < len implies #[trigger] tiles_view(self.tiles@)[i] == (t0[i].0, t0[i].1 || (i < c + 1 && t0[i].0 == oob)) by {
                    if i != c {
                        assert(tiles_view(self.tiles@)[i] == before[i]);
                    }
                }
                assert(tiles_view(self.tiles@) =~= Seq::new(len as nat, |i: int| (t0[i].0, t0[i].1 || (i < c + 1 && t0[i].0 == oob))));
                c = c + 1;
            }
            assert(self.view() =~= Build {
                header: false,
                tiles: Seq::new(t0.len(), |i: int| (t0[i].0, t0[i].1 || t0[i].0 == oob)),
                ..old(self).view()
            });
            Flow::Go
        } else if str_eq(n, "arch") && self.tele {
            if self.width == 0 {
                return Flow::Fault;
            }
            let w = self.width as u32;
            let tx = self.tele_index % w;
            let ty = self.tele_index / w;
            assert(ty <= 65535) by (nonlinear_arith)
                requires
                    ty == self.tele_index / w,
                    w >= 1,
                    self.tele_index <= 65535,
            ;
            let ghost b = old(self).view();
            let tw = self.tele_w;
            let th = self.tele_h;
            let mut x: u8 = 0;
            assert(teleporters_view(self.teleporters@) =~= with_region(b, 0, 0));
            while x < tw
                invariant
                    x <= tw,
                    tw == b.tele_w,
                    th == b.tele_h,
                    w == b.width,
                    w >= 1,
                    tx == b.tele_index % w,
                    ty == b.tele_index / w,
                    ty <= 65535,
                    tx < w,
                    w <= 255,
                    b == old(self).view(),
                    self.tele_map@ == b.tele_map,
                    self.tele_default == b.tele_default,
                    self.tele_x == b.tele_x,
                    self.tele_y == b.tele_y,
                    teleporters_view(self.teleporters@) == with_region(b, x as int, 0),
                    self.tiles == old(self).tiles,
                    self.objects == old(self).objects,
                    self.width == old(self).width,
                    self.height == old(self).height,
                    self.start_x == old(self).start_x,
                    self.start_y == old(self).start_y,
                    self.header == old(self).header,
                    self.oob == old(self).oob,
                    self.tele == old(self).tele,
                    self.tele_index == old(self).tele_index,
                    self.tele_h == old(self).tele_h,
                    self.tele_w == old(self).tele_w,
                decreases tw - x,
            {
                let mut y: u8 = 0;
                while y < th
                    invariant
                        x < tw,
                        y <= th,
                        tw == b.tele_w,
                        th == b.tele_h,
                        w == b.width,
                        w >= 1,
                        tx == b.tele_index % w,
                        ty == b.tele_index / w,
                        ty <= 65535,
                        tx < w,
                        w <= 255,
                        b == old(self).view(),
                        self.tele_map@ == b.tele_map,
                        self.tele_default == b.tele_default,
                        self.tele_x == b.tele_x,
                        self.tele_y == b.tele_y,
                        teleporters_view(self.teleporters@) == with_region(b, x as int, y as int),
                        self.tiles == old(self).tiles,
                        self.objects == old(self).objects,
                        self.width == old(self).width,
                        self.height == old(self).height,
                        self.start_x == old(self).start_x,
                        self.start_y == old(self).start_y,
                        self.header == old(self).header,
                        self.oob == old(self).oob,
                        self.tele == old(self).tele,
                        self.tele_index == old(self).tele_index,
                        self.tele_h == old(self).tele_h,
                        self.tele_w == old(self).tele_w,
                    decreases th - y,
                {
                    assert((ty + y) * w + tx + x < 0x1_0000_0000 && (ty + y) * w <= 65790 * 255) by (nonlinear_arith)
                        requires
                            ty <= 65535,
                            tx < w,
                            w <= 255,
                            y < 255,
                            x < 255,
                    ;
                    let idx = (ty + y as u32) * w + tx + x as u32;
                    assert(idx == tele_cell_at(b, x as int, y as int));
                    let t = Teleporter::new(self.tele_map.clone(), idx, self.tele_default, self.tele_x, self.tele_y);
                    let ghost before = teleporters_view(self.teleporters@);
                    self.teleporters.insert(idx, t);
                    proof {
                        assert forall|c: u32| #![trigger region_done(b, x as int, y + 1, c as int)]
                            region_done(b, x as int, y + 1, c as int) == (region_done(b, x as int, y as int, c as int) || c == idx) by {
                            if c == idx {
                                assert(tele_cell_at(b, x as int, y as int) == idx);
                            }
                            if region_done(b, x as int, y + 1, c as int) {
                                let (dx, dy) = choose|dx: int, dy: int|
                                    #![trigger tele_cell_at(b, dx, dy)]
                                    0 <= dx && 0 <= dy < b.tele_h && (dx < x || (dx == x && dy < y + 1))
                                        && c == tele_cell_at(b, dx, dy);
                                if !(dx == x && dy == y) {
                                    assert(region_done(b, x as int, y as int, c as int));
                                }
                            }
                            if region_done(b, x as int, y as int, c as int) {
                                let (dx, dy) = choose|dx: int, dy: int|
                                    #![trigger tele_cell_at(b, dx, dy)]
                                    0 <= dx && 0 <= dy < b.tele_h && (dx < x || (dx == x && dy < y))
                                        && c == tele_cell_at(b, dx, dy);
                                assert(tele_cell_at(b, dx, dy) == c);
                            }
                        }
                        let after = before.insert(idx, (b.tele_map, idx, b.tele_default, b.tele_x, b.tele_y));
                        assert(teleporters_view(self.teleporters@) =~= after);
                        let goal = with_region(b, x as int, y + 1);
                        assert forall|c: u32| #[trigger] after.contains_key(c) == goal.contains_key(c) by {
                            assert(region_done(b, x as int, y + 1, c as int) == (region_done(b, x as int, y as int, c as int) || c == idx));
                        }
                        assert forall|c: u32| #[trigger] after.contains_key(c) implies after[c] == goal[c] by {
                            assert(region_done(b, x as int, y + 1, c as int) == (region_done(b, x as int, y as int, c as int) || c == idx));
                        }
                        assert(after =~= goal);
                    }
                    y = y + 1;
                }
                proof {
                    assert forall|c: u32| #![trigger region_done(b, x + 1, 0, c as int)]
                        region_done(b, x + 1, 0, c as int) == region_done(b, x as int, th as int, c as int) by {
                        if region_done(b, x + 1, 0, c as int) {
                            let (dx, dy) = choose|dx: int, dy: int|
                                #![trigger tele_cell_at(b, dx, dy)]
                                0 <= dx && 0 <= dy < b.tele_h && (dx < x + 1 || (dx == x + 1 && dy < 0))
                                    && c == tele_cell_at(b, dx, dy);
                            assert(tele_cell_at(b, dx, dy) == c);
                        }
                        if region_done(b, x as int, th as int, c as int) {
                            let (dx, dy) = choose|dx: int, dy: int|
                                #![trigger tele_cell_at(b, dx, dy)]
                                0 <= dx && 0 <= dy < b.tele_h && (dx < x || (dx == x && dy < th))
                                    && c == tele_cell_at(b, dx, dy);
                            assert(tele_cell_at(b, dx, dy) == c);
                        }
                    }
                    assert(with_region(b, x as int, th as int) =~= with_region(b, x + 1, 0));
                }
                x = x + 1;
            }
            self.tele = false;
            self.tele_index = 0;
            self.tele_default = false;
            self.tele_x = 1;
            self.tele_y = 1;
            self.tele_h = 1;
            self.tele_w = 1;
            self.tele_map = String::new();
            assert(self.view() =~= Build {
                teleporters: with_region(b, b.tele_w as int, 0),
                tele: false,
                tele_index: 0,
                tele_default: false,
                tele_x: 1,
                tele_y: 1,
                tele_h: 1,
                tele_w: 1,
                tele_map: Seq::empty(),
                ..b
            });
            Flow::Go
        } else {
            Flow::Go
        }
    }
}


/// Every teleporter recorded so far sits on the cell it is keyed by.
pub open spec fn teleporters_on_cells(b: Build) -> bool {
    forall|c: u32| #[trigger] b.teleporters.contains_key(c) ==> b.teleporters[c].1 == c
}

proof fn lemma_run_teleporters_on_cells(es: Seq<XmlItem>, known: StrMap<i16>)
    ensures
        run_events(es, known) matches Step::Go(b) ==> teleporters_on_cells(b),
    decreases es.len(),
{
    if es.len() > 0 {
        lemma_run_teleporters_on_cells(es.drop_last(), known);
        match run_events(es.drop_last(), known) {
            Step::Go(b) => {
                match es.last() {
                    XmlItem::Start(name, attrs) => {
                        match on_start(b, name@, attrs_of(attrs@), known) {
                            Step::Go(b2) => {
                                assert(b2.teleporters == b.teleporters);
                            },
                            _ => {},
                        }
                    },
                    _ => {},
                }
            },
            _ => {},
        }
    }
}

/// `asks_default` is the flag as it was, or an attribute `name="ask-map"`.
proof fn lemma_asks_default_contains(d: bool, attrs: Seq<(Seq<char>, Seq<char>)>)
    ensures
        asks_default(d, attrs) == (d || attrs.contains(("name"@, "ask-map"@))),
    decreases attrs.len(),
{
    if attrs.len() > 0 {
        lemma_asks_default_contains(d, attrs.drop_last());
        let p = ("name"@, "ask-map"@);
        if attrs.drop_last().contains(p) {
            let j = choose|j: int| 0 <= j < attrs.drop_last().len() && attrs.drop_last()[j] == p;
            assert(attrs[j] == p);
        }
        if attrs.contains(p) && attrs.last() != p {
            let j = choose|j: int| 0 <= j < attrs.len() && attrs[j] == p;
            assert(j < attrs.len() - 1);
            assert(attrs.drop_last()[j] == p);
        }
        if attrs.last() == p {
            assert(attrs[attrs.len() - 1] == p);
        }
    }
}

/// Inside a teleporter, a `boolean` element with `name="ask-map"` makes the
/// teleporter send players to the map's own start; a `boolean` without it
/// leaves that choice as it was, and nothing else changes.
pub proof fn lemma_ask_map_sets_default(b: Build, attrs: Seq<(Seq<char>, Seq<char>)>, known: StrMap<i16>)
    requires
        b.tele,
    ensures
        on_start(b, "boolean"@, attrs, known) == Step::Go(
            Build { tele_default: b.tele_default || attrs.contains(("name"@, "ask-map"@)), ..b },
        ),
{
    reveal_strlit("boolean");
    reveal_strlit("header");
    assert("boolean"@ != "header"@) by {
        assert("boolean"@[0] != "header"@[0]);
    }
    lemma_asks_default_contains(b.tele_default, attrs);
}

/// The end of a teleporter's `arch` records, on the first cell of its
/// rectangle, a teleporter with the map, the choice of the map's own start,
/// and the landing cell read inside it.
pub proof fn lemma_teleporter_end_records(b: Build)
    requires
        b.tele,
        b.width > 0,
        b.tele_w > 0,
        b.tele_h > 0,
    ensures
        on_end(b, "arch"@) matches Step::Go(b2) && b2.teleporters.contains_key(b.tele_index)
            && b2.teleporters[b.tele_index] == (b.tele_map, b.tele_index, b.tele_default, b.tele_x, b.tele_y),
{
    reveal_strlit("arch");
    reveal_strlit("header");
    assert("arch"@ != "header"@) by {
        assert("arch"@[0] != "header"@[0]);
    }
    let w = b.width as u32;
    let tx = b.tele_index % w;
    let ty = b.tele_index / w;
    assert(ty * w + tx == b.tele_index) by (nonlinear_arith)
        requires
            w > 0,
            tx == b.tele_index % w,
            ty == b.tele_index / w,
    ;
    assert(tele_cell_at(b, 0, 0) == b.tele_index);
    assert(region_done(b, b.tele_w as int, 0, b.tele_index as int));
}

/// A map read from a file has each teleporter on the cell it is keyed by:
/// a teleporter's rectangle puts one on every cell of it.
pub proof fn lemma_teleporters_on_their_cells(events: Seq<XmlItem>, known: StrMap<i16>)
    ensures
        map_outcome(events, known) matches Step::Go(b) ==> teleporters_on_cells(b),
{
    lemma_run_teleporters_on_cells(events, known);
}

/// Once the pass has stopped or hit a fault, later events change nothing.
proof fn lemma_run_halts(es: Seq<XmlItem>, i: int, known: StrMap<i16>)
    requires
        0 <= i <= es.len(),
        !(run_events(es.take(i), known) is Go),
    ensures
        run_events(es, known) == run_events(es.take(i), known),
    decreases es.len() - i,
{
    if i < es.len() {
        assert(es.take(i + 1).drop_last() =~= es.take(i));
        lemma_run_halts(es, i + 1, known);
    } else {
        assert(es.take(i) =~= es);
    }
}

/// `m` is the map that the build `b` describes: terrain, roads, walls and
/// items (no players), teleporters, size and start.
pub open spec fn map_is(m: GameMap, b: Build) -> bool {
    &&& tiles_view(m.tiles@) == b.tiles
    &&& objects_view(m.objects@) == b.objects
    &&& forall|k: int| 0 <= k < m.objects@.len() ==> !(#[trigger] m.objects@[k] is Player)
    &&& teleporters_view(m.teleporter@) == b.teleporters
    &&& m.width == b.width
    &&& m.height == b.height
    &&& m.start_x == b.start_x
    &&& m.start_y == b.start_y
}

proof fn lemma_can_link_relink(b: Build, r: RoadWall)
    requires
        (r.index as int) < b.tiles.len(),
    ensures
        r.can_link(b.width, b.height, b.tiles.len()) == can_relink(b, (true, r.tile@, r.index)),
{
}

impl MapBuilder {
    /// The map when all events are read (see `finish_build`); `None` at a
    /// fault.
    pub fn finish(self) -> (r: Option<GameMap>)
        requires
            self.no_players(),
        ensures
            match finish_build(self.view()) {
                Step::Go(b) => r matches Some(m) && map_is(m, b),
                _ => r is None,
            },
    {
        proof {
            reveal_strlit("roads");
        }
        let ghost b = self.view();
        let mut this = self;
        let len = this.tiles.len();
        let w = this.width;
        let h = this.height;
        let n = this.objects.len();
        let mut roads: Vec<bool> = Vec::new();
        let mut walls: Vec<bool> = Vec::new();
        while roads.len() < len
            invariant
                roads@.len() == walls@.len(),
                roads@.len() <= len,
                forall|c: int| 0 <= c < roads@.len() ==> !roads@[c] && !walls@[c],
            decreases len - roads@.len(),
        {
            roads.push(false);
            walls.push(false);
        }
        let mut k: usize = 0;
        while k < n
            invariant
                n == this.objects@.len(),
                len == this.tiles@.len(),
                b == this.view(),
                b == self.view(),
                k <= n,
                roads@.len() == len,
                walls@.len() == len,
                forall|j: int| 0 <= j < k && (#[trigger] b.objects[j]).0 ==> (b.objects[j].2 as int) < len,
                forall|c: int| 0 <= c < len ==> roads@[c] == (exists|j: int| 0 <= j < k && (#[trigger] b.objects[j]).0
                    && has_sub(b.objects[j].1, "roads"@) && b.objects[j].2 == c),
                forall|c: int| 0 <= c < len ==> walls@[c] == (exists|j: int| 0 <= j < k && (#[trigger] b.objects[j]).0
                    && !has_sub(b.objects[j].1, "roads"@) && b.objects[j].2 == c),
            decreases n - k,
        {
            assert(b.objects[k as int] == object_view(this.objects@[k as int]));
            match &this.objects[k] {
                MapObject::RoadWall(rw) => {
                    let loc = rw.index;
                    if loc as usize >= len {
                        assert(b.objects[k as int].0 && !can_relink(b, b.objects[k as int]));
                        assert(finish_build(b) is Fault);
                        return None;
                    }
                    if contains(rw.tile.as_str(), "roads") {
                        roads.set(loc as usize, true);
                    } else {
                        walls.set(loc as usize, true);
                    }
                },
                _ => {},
            }
            k = k + 1;
        }
        assert(roads@ =~= link_flags(b, true));
        assert(walls@ =~= link_flags(b, false));
        let mut k: usize = 0;
        while k < n
            invariant
                n == this.objects@.len(),
                len == this.tiles@.len(),
                b == this.view(),
                b == self.view(),
                w == b.width,
                h == b.height,
                k <= n,
                forall|j: int| 0 <= j < n && (#[trigger] b.objects[j]).0 ==> (b.objects[j].2 as int) < len,
                forall|j: int| 0 <= j < k && (#[trigger] b.objects[j]).0 ==> can_relink(b, b.objects[j]),
            decreases n - k,
        {
            assert(b.objects[k as int] == object_view(this.objects@[k as int]));
            match &this.objects[k] {
                MapObject::RoadWall(rw) => {
                    if !rw.can_link_now(w, h, len) {
                        proof {
                            lemma_can_link_relink(b, *rw);
                        }
                        assert(b.objects[k as int].0 && !can_relink(b, b.objects[k as int]));
                        assert(finish_build(b) is Fault);
                        return None;
                    }
                },
                _ => {},
            }
            k = k + 1;
        }
        assert(!exists|j: int| 0 <= j < b.objects.len() && (#[trigger] b.objects[j]).0 && !can_relink(b, b.objects[j]));
        let ghost objs0 = this.objects@;
        let ghost f = |o: (bool, Seq<char>, u32)| relinked(b, o);
        let mut k: usize = 0;
        while k < n
            invariant
                n == this.objects@.len(),
                n == objs0.len(),
                len == this.tiles@.len(),
                w == b.width,
                h == b.height,
                b.objects == objects_view(objs0),
                b == self.view(),
                tiles_view(this.tiles@) == b.tiles,
                teleporters_view(this.teleporters@) == b.teleporters,
                this.width == b.width,
                this.height == b.height,
                this.start_x == b.start_x,
                this.start_y == b.start_y,
                k <= n,
                roads@ == link_flags(b, true),
                walls@ == link_flags(b, false),
                roads@.len() == len,
                walls@.len() == len,
                forall|j: int| 0 <= j < n && (#[trigger] b.objects[j]).0 ==> can_relink(b, b.objects[j]),
                forall|j: int| 0 <= j < n ==> !(#[trigger] objs0[j] is Player),
                forall|j: int| k <= j < n ==> #[trigger] this.objects@[j] == objs0[j],
                forall|j: int| 0 <= j < k ==> #[trigger] object_view(this.objects@[j]) == relinked(b, b.objects[j]),
                forall|j: int| 0 <= j < n ==> !(#[trigger] this.objects@[j] is Player),
            decreases n - k,
        {
            let ghost before = this.objects@;
            assert(b.objects[k as int] == object_view(objs0[k as int]));
            let kind = this.objects[k].get_type();
            match kind {
                ControllableType::Road => {
                    this.objects[k].modify_connected_tiles(w, h, &roads);
                },
                ControllableType::Wall => {
                    this.objects[k].modify_connected_tiles(w, h, &walls);
                },
                _ => {},
            }
            proof {
                assert forall|j: int| 0 <= j < n && j != k implies #[trigger] this.objects@[j] == before[j] by {}
            }
            k = k + 1;
        }
        proof {
            assert(objects_view(this.objects@) =~= b.objects.map_values(f));
        }
        Some(GameMap {
            width: this.width,
            height: this.height,
            tiles: this.tiles,
            objects: this.objects,
            teleporter: this.teleporters,
            start_x: this.start_x,
            start_y: this.start_y,
        })
    }
}

impl GameMap {
    /// Reads a map from the events of its file (see `map_outcome`): the map,
    /// or the error that stopped the reading, or `None` where the reading
    /// hits a fault.
    pub fn parse_events(events: &Vec<XmlItem>, known: &StrMap<i16>) -> (r: Option<Result<GameMap, String>>)
        requires
            known.wf(),
        ensures
            match map_outcome(events@, *known) {
                Step::Go(b) => r matches Some(Ok(m)) && map_is(m, b),
                Step::Stop(e) => r matches Some(Err(x)) && x@ == e,
                Step::Fault => r is None,
            },
    {
        let mut b = MapBuilder::new();
        let mut i: usize = 0;
        assert(events@.take(0) =~= Seq::<XmlItem>::empty());
        while i < events.len()
            invariant
                i <= events@.len(),
                known.wf(),
                b.no_players(),
                b.tele_index <= 65535,
                run_events(events@.take(i as int), *known) == Step::Go(b.view()),
            decreases events@.len() - i,
        {
            proof {
                assert(events@.take(i + 1).drop_last() =~= events@.take(i as int));
                assert(events@.take(i + 1).last() == events@[i as int]);
            }
            let flow = match &events[i] {
                XmlItem::Start(n, a) => b.start_element(n, a, known),
                XmlItem::End(n) => b.end_element(n),
                XmlItem::Other => Flow::Go,
            };
            match flow {
                Flow::Go => {},
                Flow::Stop(m) => {
                    proof {
                        lemma_run_halts(events@, i + 1, *known);
                    }
                    return Some(Err(m));
                },
                Flow::Fault => {
                    proof {
                        lemma_run_halts(events@, i + 1, *known);
                    }
                    return None;
                },
            }
            i = i + 1;
        }
        assert(events@.take(events@.len() as int) =~= events@);
        match b.finish() {
            Some(m) => Some(Ok(m)),
            None => None,
        }
    }

    /// Reads a map from the bytes of its file, with `known` the names of the
    /// art that exists (see `parse_events`; the events are what the `xml`
    /// crate reads from the bytes).
    pub fn parse_tiles(bytes: &Vec<u8>, known: &StrMap<i16>) -> (r: Option<Result<GameMap, String>>)
        requires
            known.wf(),
        ensures
            match map_outcome(xml_items(bytes@), *known) {
                Step::Go(b) => r matches Some(Ok(m)) && map_is(m, b),
                Step::Stop(e) => r matches Some(Err(x)) && x@ == e,
                Step::Fault => r is None,
            },
    {
        let events = read_xml(bytes);
        GameMap::parse_events(&events, known)
    }
}

} // verus!
