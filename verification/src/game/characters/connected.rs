//! Roads and walls: their art depends on the roads or walls next to them.

use vstd::prelude::*;
use crate::game::characters::{Controllable, ControllableType, Response, Token};
use crate::game::gamemap::GameMap;
use crate::strmap::StrMap;
use crate::text::{
    ascii_upper, ascii_upper_of, before_first, char_index_at_byte, char_pred, chars_of, contains,
    contains_chars, has_sub, lemma_run_until_bound, lowercase_of, push_all, replace_chars, replaced,
    run_until, split_at_byte,
    split_char, split_on, str_eq, string_of, take_before, to_lowercase,
};

verus! {

/// `str::split_at(1)` succeeds on `w`: its first character takes one byte.
pub open spec fn splits_at_one(w: Seq<char>) -> bool {
    w.len() > 0 && (w[0] as u32) < 0x80
}

/// `w` with its first (ASCII) character in upper case.
pub open spec fn capital_first(w: Seq<char>) -> Seq<char> {
    seq![ascii_upper(w[0])] + w.skip(1)
}

/// The words, each with its first character in upper case, joined.
pub open spec fn join_capitalized(ws: Seq<Seq<char>>) -> Seq<char>
    decreases ws.len(),
{
    if ws.len() == 0 {
        Seq::empty()
    } else {
        join_capitalized(ws.drop_last()) + capital_first(ws.last())
    }
}

/// The words joined.
pub open spec fn join_words(ws: Seq<Seq<char>>) -> Seq<char>
    decreases ws.len(),
{
    if ws.len() == 0 {
        Seq::empty()
    } else {
        join_words(ws.drop_last()) + ws.last()
    }
}

/// The part of a wall's name that names its folder.
pub open spec fn wall_folder(temp: Seq<char>) -> Option<Seq<char>> {
    if has_sub(temp, "brick_"@) {
        Some("brickwall"@)
    } else if has_sub(temp, "_"@) {
        Some(before_first(temp, "_"@))
    } else if has_sub(temp, "wall"@) {
        Some(before_first(temp, "wall"@))
    } else {
        None
    }
}

/// The art names to try for the map maker's path `tile`, in order, or
/// `None` where the name cannot be taken apart (the path is shorter than six
/// bytes, a wall's name has no folder part, or a word of the name is empty or
/// starts with a character beyond ASCII).
///
/// After the first six bytes (the folder, `roads/` or `walls/`) the name is
/// tried as it is, in a folder of its own for walls, with its words
/// capitalized or joined, and with its first letter capitalized.
pub open spec fn tile_options(tile: Seq<char>) -> Option<Seq<Seq<char>>> {
    if tile == "roads/twisty_road"@ {
        Some(seq!["roads/TwistyMntRoad"@])
    } else {
        let t = replaced(tile, "earth_block"@, "earth_wall"@);
        match char_index_at_byte(t, 6) {
            None => None,
            Some(k) => {
                let root = t.take(k as int);
                let temp = t.skip(k as int);
                let walls = has_sub(t, "walls/"@);
                let underscore = has_sub(temp, "_"@);
                let words = split_on(temp, '_');
                if walls && wall_folder(temp) is None {
                    None
                } else if underscore && !(forall|i: int| 0 <= i < words.len() ==> splits_at_one(#[trigger] words[i])) {
                    None
                } else if !splits_at_one(temp) {
                    None
                } else {
                    let r = if walls { root + wall_folder(temp).unwrap() + "/"@ } else { root };
                    let first = if walls { seq![t, r + temp] } else { seq![t] };
                    let mid = if underscore {
                        seq![r + join_capitalized(words), r + join_words(words)]
                    } else {
                        Seq::empty()
                    };
                    Some(first + mid + seq![r + capital_first(temp)])
                }
            },
        }
    }
}

/// The first of `opts` that `known` has as a key, or `tile` when none is.
pub open spec fn first_known(opts: Seq<Seq<char>>, known: StrMap<i16>, tile: Seq<char>) -> Seq<char>
    decreases opts.len(),
{
    if opts.len() == 0 {
        tile
    } else if known.lookup(opts[0]) is Some {
        opts[0]
    } else {
        first_known(opts.drop_first(), known, tile)
    }
}

/// The art of a road or wall with the map maker's path `tile`, given the
/// names of the art that exists.
pub open spec fn corrected_tile(tile: Seq<char>, known: StrMap<i16>) -> Seq<char> {
    first_known(tile_options(tile).unwrap(), known, tile)
}

/// Every character of `s` is an ASCII character.
pub open spec fn all_ascii(s: Seq<char>) -> bool {
    forall|i: int| 0 <= i < s.len() ==> (#[trigger] s[i] as u32) < 0x80
}

/// In an ASCII string the character at byte `n` is the `n`-th.
proof fn lemma_ascii_char_index(s: Seq<char>, n: int)
    requires
        all_ascii(s),
        0 <= n <= s.len(),
    ensures
        char_index_at_byte(s, n) == Some(n as nat),
    decreases s.len(),
{
    if n > 0 {
        assert((s[0] as u32) < 0x80);
        assert(all_ascii(s.drop_first())) by {
            assert forall|i: int| 0 <= i < s.drop_first().len() implies (#[trigger] s.drop_first()[i] as u32) < 0x80 by {
                assert(s.drop_first()[i] == s[i + 1]);
            }
        }
        lemma_ascii_char_index(s.drop_first(), n - 1);
    }
}

/// Renaming `earth_block` to `earth_wall` keeps a name ASCII and keeps at
/// least ten of every eleven characters.
proof fn lemma_earth_wall_rename(s: Seq<char>)
    requires
        all_ascii(s),
    ensures
        all_ascii(replaced(s, "earth_block"@, "earth_wall"@)),
        replaced(s, "earth_block"@, "earth_wall"@).len() * 11 >= s.len() * 10,
    decreases s.len(),
{
    reveal_strlit("earth_block");
    reveal_strlit("earth_wall");
    let p = "earth_block"@;
    let r = "earth_wall"@;
    let out = replaced(s, p, r);
    if s.len() < p.len() {
    } else if s.take(p.len() as int) == p {
        let rest = s.skip(p.len() as int);
        assert(all_ascii(rest)) by {
            assert forall|i: int| 0 <= i < rest.len() implies (#[trigger] rest[i] as u32) < 0x80 by {
                assert(rest[i] == s[i + 11]);
            }
        }
        lemma_earth_wall_rename(rest);
        let tail = replaced(rest, p, r);
        assert(out == r + tail);
        assert forall|i: int| 0 <= i < out.len() implies (#[trigger] out[i] as u32) < 0x80 by {
            if i < 10 {
                assert(out[i] == r[i]);
            } else {
                assert(out[i] == tail[i - 10]);
            }
        }
    } else {
        let rest = s.skip(1);
        assert(all_ascii(rest)) by {
            assert forall|i: int| 0 <= i < rest.len() implies (#[trigger] rest[i] as u32) < 0x80 by {
                assert(rest[i] == s[i + 1]);
            }
        }
        lemma_earth_wall_rename(rest);
        let tail = replaced(rest, p, r);
        assert(out == seq![s[0]] + tail);
        assert forall|i: int| 0 <= i < out.len() implies (#[trigger] out[i] as u32) < 0x80 by {
            if i == 0 {
                assert(out[i] == s[0]);
            } else {
                assert(out[i] == tail[i - 1]);
            }
        }
    }
}

/// The words of an ASCII string are ASCII, and the first word is a prefix of
/// the string.
proof fn lemma_split_on_ascii(s: Seq<char>, c: char)
    requires
        all_ascii(s),
    ensures
        split_on(s, c).len() >= 1,
        split_on(s, c)[0].len() <= s.len(),
        split_on(s, c)[0].len() > 0 ==> split_on(s, c)[0][0] == s[0],
        forall|i: int| 0 <= i < split_on(s, c).len() ==> all_ascii(#[trigger] split_on(s, c)[i]),
    decreases s.len(),
{
    let k = run_until(s, char_pred(c));
    lemma_run_until_bound(s, char_pred(c));
    let ws = split_on(s, c);
    if k < s.len() {
        let rest = s.skip(k + 1 as int);
        assert(all_ascii(rest)) by {
            assert forall|i: int| 0 <= i < rest.len() implies (#[trigger] rest[i] as u32) < 0x80 by {
                assert(rest[i] == s[i + k + 1]);
            }
        }
        lemma_split_on_ascii(rest, c);
        let tail = split_on(rest, c);
        assert(ws == seq![s.take(k as int)] + tail);
        assert forall|i: int| 0 <= i < ws.len() implies all_ascii(#[trigger] ws[i]) by {
            if i == 0 {
                assert forall|j: int| 0 <= j < ws[0].len() implies (#[trigger] ws[0][j] as u32) < 0x80 by {
                    assert(ws[0][j] == s[j]);
                }
            } else {
                assert(ws[i] == tail[i - 1]);
            }
        }
    }
}

/// A road or wall path that `find_corrected_tile` can take apart: an ASCII
/// path longer than six characters whose name after the folder (with
/// `earth_block` renamed `earth_wall`) has no empty word between
/// underscores and, for a wall, a folder part. For such a path the result is
/// the first of its options that exists, else the path itself
/// (`corrected_tile`).
pub proof fn lemma_tile_options_of_ascii(tile: Seq<char>)
    requires
        all_ascii(tile),
        tile.len() > 6,
        ({
            let t = replaced(tile, "earth_block"@, "earth_wall"@);
            let temp = t.skip(6);
            &&& forall|i: int| 0 <= i < split_on(temp, '_').len() ==> (#[trigger] split_on(temp, '_')[i]).len() > 0
            &&& has_sub(t, "walls/"@) ==> wall_folder(temp) is Some
        }),
    ensures
        tile_options(tile) is Some,
{
    let t = replaced(tile, "earth_block"@, "earth_wall"@);
    lemma_earth_wall_rename(tile);
    assert(t.len() >= 7);
    lemma_ascii_char_index(t, 6);
    let temp = t.skip(6);
    assert(all_ascii(temp)) by {
        assert forall|i: int| 0 <= i < temp.len() implies (#[trigger] temp[i] as u32) < 0x80 by {
            assert(temp[i] == t[i + 6]);
        }
    }
    lemma_split_on_ascii(temp, '_');
    let words = split_on(temp, '_');
    assert(words[0].len() > 0);
    assert(splits_at_one(temp));
    assert forall|i: int| 0 <= i < words.len() implies splits_at_one(#[trigger] words[i]) by {
        assert(words[i].len() > 0);
        assert(all_ascii(words[i]));
        assert((words[i][0] as u32) < 0x80);
    }
}

/// The cell `dx`, `dy` away from cell `index` on a grid `w` wide and `h`
/// high, if it is on the grid.
pub open spec fn neighbor(w: u8, h: u8, index: int, dx: int, dy: int) -> Option<int> {
    let x = index % (w as int) + dx;
    let y = index / (w as int) + dy;
    if 0 <= x < w && 0 <= y < h {
        Some(y * (w as int) + x)
    } else {
        None
    }
}

/// There is a road or wall of the same kind on the cell `dx`, `dy` away
/// from cell `index`.
pub open spec fn linked(w: u8, h: u8, objects: Seq<bool>, index: int, dx: int, dy: int) -> bool {
    neighbor(w, h, index, dx, dy) matches Some(i) && objects[i]
}

/// Bridges and doors keep their art whatever is next to them.
pub open spec fn keeps_art(tile: Seq<char>) -> bool {
    has_sub(lowercase_of(tile), "bridge"@) || has_sub(lowercase_of(tile), "door"@)
}

/// The letters appended to the art of a road or wall on cell `index`: `N`,
/// `S`, `E`, `W` for the neighbours of its kind, in that order.
pub open spec fn link_suffix(w: u8, h: u8, objects: Seq<bool>, index: int) -> Seq<char> {
    (if linked(w, h, objects, index, 0, -1) { seq!['N'] } else { Seq::empty() })
        + (if linked(w, h, objects, index, 0, 1) { seq!['S'] } else { Seq::empty() })
        + (if linked(w, h, objects, index, 1, 0) { seq!['E'] } else { Seq::empty() })
        + (if linked(w, h, objects, index, -1, 0) { seq!['W'] } else { Seq::empty() })
}

/// A road (its path holds `roads`) or a wall.
#[derive(Clone)]
pub struct RoadWall {
    pub tile: String,
    pub index: u32,
}

impl RoadWall {
    /// A road or wall on cell `index`, with the art that `tiles` knows for
    /// the map maker's path `tile`.
    pub fn new(tile: String, tiles: &StrMap<i16>, index: u32) -> (r: RoadWall)
        requires
            tiles.wf(),
            tile_options(tile@) is Some,
        ensures
            r.tile@ == corrected_tile(tile@, *tiles),
            r.index == index,
    {
        RoadWall { tile: RoadWall::find_corrected_tile(tile, tiles), index: index }
    }

    /// The first art name to try for `tile` that `tiles` knows, or `tile`.
    pub fn find_corrected_tile(tile: String, tiles: &StrMap<i16>) -> (r: String)
        requires
            tiles.wf(),
            tile_options(tile@) is Some,
        ensures
            r@ == corrected_tile(tile@, *tiles),
    {
        let options = RoadWall::create_tile_options(tile.as_str());
        let ghost opts = tile_options(tile@).unwrap();
        let mut i: usize = 0;
        assert(opts.skip(0) =~= opts);
        while i < options.len()
            invariant
                i <= options@.len(),
                options@.map_values(|s: String| s@) == opts,
                opts == tile_options(tile@).unwrap(),
                tiles.wf(),
                first_known(opts, *tiles, tile@) == first_known(opts.skip(i as int), *tiles, tile@),
            decreases options@.len() - i,
        {
            let option = &options[i];
            proof {
                assert(opts.skip(i as int)[0] == option@);
                assert(opts.skip(i as int).drop_first() =~= opts.skip(i + 1));
            }
            match tiles.get(option.as_str()) {
                Some(_) => {
                    assert(tiles.lookup(opts.skip(i as int)[0]) is Some);
                    assert(first_known(opts.skip(i as int), *tiles, tile@) == option@);
                    return option.clone();
                },
                None => {},
            }
            i = i + 1;
        }
        assert(opts.skip(i as int).len() == 0);
        tile
    }

    /// Whether `tile_options` can take `tile` apart.
    pub fn tile_options_ok(tile: &str) -> (r: bool)
        ensures
            r == tile_options(tile@) is Some,
    {
        proof {
            reveal_strlit("roads/twisty_road");
            reveal_strlit("earth_block");
            reveal_strlit("earth_wall");
            reveal_strlit("walls/");
            reveal_strlit("brick_");
            reveal_strlit("_");
            reveal_strlit("wall");
        }
        if str_eq(tile, "roads/twisty_road") {
            return true;
        }
        let tv = chars_of(tile);
        let t = replace_chars(&tv, &chars_of("earth_block"), &chars_of("earth_wall"));
        let (root, temp) = match split_at_byte(&t, 6) {
            Some(p) => p,
            None => {
                return false;
            },
        };
        let walls = contains_chars(&t, &chars_of("walls/"));
        let brick = contains_chars(&temp, &chars_of("brick_"));
        let underscore = contains_chars(&temp, &chars_of("_"));
        let wall = contains_chars(&temp, &chars_of("wall"));
        if walls && !brick && !underscore && !wall {
            return false;
        }
        let ghost ws = split_on(temp@, '_');
        assert(tile_options(tile@) is Some <==> ((underscore ==> forall|j: int| 0 <= j < ws.len() ==> splits_at_one(#[trigger] ws[j])) && splits_at_one(temp@)));
        if underscore {
            let words = split_char(&temp, '_');
            let mut i: usize = 0;
            while i < words.len()
                invariant
                    i <= words@.len(),
                    tile_options(tile@) is Some <==> ((forall|j: int| 0 <= j < ws.len() ==> splits_at_one(#[trigger] ws[j])) && splits_at_one(temp@)),
                    words@.map_values(|w: Vec<char>| w@) == ws,
                    forall|j: int| 0 <= j < i ==> splits_at_one(#[trigger] ws[j]),
                decreases words@.len() - i,
            {
                assert(ws[i as int] == words@[i as int]@);
                if words[i].len() == 0 || (words[i][0] as u32) >= 0x80 {
                    return false;
                }
                i = i + 1;
            }
        }
        temp.len() > 0 && (temp[0] as u32) < 0x80
    }

    /// Whether taking the neighbours' art from `len` flags runs without a
    /// fault (see `Controllable::can_link`).
    pub fn can_link_now(&self, width: u8, height: u8, len: usize) -> (r: bool)
        ensures
            r == self.can_link(width, height, len as nat),
    {
        proof {
            reveal_strlit("bridge");
            reveal_strlit("door");
        }
        let lower = to_lowercase(self.tile.as_str());
        if contains(lower.as_str(), "bridge") || contains(lower.as_str(), "door") {
            return true;
        }
        if width == 0 {
            return false;
        }
        let w = width as u64;
        let h = height as u64;
        let i = self.index as u64;
        let x = i % w;
        let y = i / w;
        let ghost wi = width as int;
        let ghost idx = i as int;
        assert(idx == y * wi + x && x < wi) by (nonlinear_arith)
            requires
                wi > 0,
                x == idx % wi,
                y == idx / wi,
        ;
        let len64 = len as u64;
        let mut ok = true;
        let mut dx: i64 = -1;
        proof {
            assert((y - 1) * wi + x == idx - wi) by (nonlinear_arith)
                requires
                    idx == y * wi + x,
            ;
            assert((y + 1) * wi + x == idx + wi) by (nonlinear_arith)
                requires
                    idx == y * wi + x,
            ;
            assert((y + 1) * wi + (x + 1) == idx + wi + 1) by (nonlinear_arith)
                requires
                    idx == y * wi + x,
            ;
            assert((y - 1) * wi + (x - 1) == idx - wi - 1) by (nonlinear_arith)
                requires
                    idx == y * wi + x,
            ;
            assert((y - 1) * wi + (x + 1) == idx - wi + 1) by (nonlinear_arith)
                requires
                    idx == y * wi + x,
            ;
            assert((y + 1) * wi + (x - 1) == idx + wi - 1) by (nonlinear_arith)
                requires
                    idx == y * wi + x,
            ;
        }
        while dx <= 1
            invariant
                -1 <= dx <= 2,
                wi == width as int,
                wi > 0,
                idx == self.index as int,
                idx == y * wi + x,
                0 <= x < wi,
                w == width,
                h == height,
                len64 == len,
                y <= 0xffff_ffff,
                x == idx % wi,
                y == idx / wi,
                ok == (forall|ddx: int, ddy: int|
                    #![trigger neighbor(width, height, idx, ddx, ddy)]
                    (-1 <= ddx < dx && -1 <= ddy <= 1 && neighbor(width, height, idx, ddx, ddy) is Some)
                        ==> neighbor(width, height, idx, ddx, ddy).unwrap() < len),
            decreases 2 - dx,
        {
            let mut dy: i64 = -1;
            let ok_before = ok;
            while dy <= 1
                invariant
                    -1 <= dx <= 1,
                    -1 <= dy <= 2,
                    wi == width as int,
                    wi > 0,
                    idx == self.index as int,
                    idx == y * wi + x,
                    0 <= x < wi,
                    w == width,
                    h == height,
                    len64 == len,
                    y <= 0xffff_ffff,
                    x == idx % wi,
                    y == idx / wi,
                    ok_before == (forall|ddx: int, ddy: int|
                        #![trigger neighbor(width, height, idx, ddx, ddy)]
                        (-1 <= ddx < dx && -1 <= ddy <= 1 && neighbor(width, height, idx, ddx, ddy) is Some)
                            ==> neighbor(width, height, idx, ddx, ddy).unwrap() < len),
                    ok == (ok_before && forall|ddy: int|
                        #![trigger neighbor(width, height, idx, dx as int, ddy)]
                        (-1 <= ddy < dy && neighbor(width, height, idx, dx as int, ddy) is Some)
                            ==> neighbor(width, height, idx, dx as int, ddy).unwrap() < len),
                decreases 2 - dy,
            {
                let nx = x as i64 + dx;
                let ny = y as i64 + dy;
                if y <= 0x1_0000 && nx >= 0 && (nx as u64) < w && ny >= 0 && (ny as u64) < h {
                    assert(ny * w + nx < 0x1_0000_0000) by (nonlinear_arith)
                        requires
                            0 <= ny <= 0x1_0001,
                            0 <= nx < w,
                            w <= 255,
                    ;
                    let c = (ny as u64) * w + (nx as u64);
                    assert(c == (y + dy) * wi + (x + dx)) by (nonlinear_arith)
                        requires
                            c == ny * wi + nx,
                            ny == y + dy,
                            nx == x + dx,
                    ;
                    assert(neighbor(width, height, idx, dx as int, dy as int) == Some(c as int));
                    if c >= len64 {
                        ok = false;
                    }
                } else {
                    assert(neighbor(width, height, idx, dx as int, dy as int) is None);
                }
                dy = dy + 1;
            }
            dx = dx + 1;
        }
        ok
    }

    /// The art names to try for `tile`, as `tile_options` lists them.
    pub fn create_tile_options(tile: &str) -> (r: Vec<String>)
        requires
            tile_options(tile@) is Some,
        ensures
            r@.map_values(|s: String| s@) == tile_options(tile@).unwrap(),
    {
        proof {
            reveal_strlit("roads/twisty_road");
            reveal_strlit("roads/TwistyMntRoad");
            reveal_strlit("earth_block");
            reveal_strlit("earth_wall");
            reveal_strlit("walls/");
            reveal_strlit("brick_");
            reveal_strlit("brickwall");
            reveal_strlit("_");
            reveal_strlit("wall");
            reveal_strlit("/");
        }
        if str_eq(tile, "roads/twisty_road") {
            let mut one: Vec<String> = Vec::new();
            one.push("roads/TwistyMntRoad".to_owned());
            assert(one@.map_values(|s: String| s@) =~= seq!["roads/TwistyMntRoad"@]);
            return one;
        }
        let mut options: Vec<String> = Vec::new();
        let tv = chars_of(tile);
        let t = replace_chars(&tv, &chars_of("earth_block"), &chars_of("earth_wall"));
        options.push(string_of(&t));
        let (root, temp) = match split_at_byte(&t, 6) {
            Some(p) => p,
            None => {
                return options;
            },
        };
        let ghost words_spec = split_on(temp@, '_');
        let mut r = root;
        let walls = contains_chars(&t, &chars_of("walls/"));
        let underscore = contains_chars(&temp, &chars_of("_"));
        if walls {
            let part = if contains_chars(&temp, &chars_of("brick_")) {
                chars_of("brickwall")
            } else if underscore {
                take_before(&temp, &chars_of("_"))
            } else {
                take_before(&temp, &chars_of("wall"))
            };
            push_all(&mut r, &part);
            r.push('/');
            assert(r@ =~= root@ + wall_folder(temp@).unwrap() + "/"@);
            let mut both = r.clone();
            push_all(&mut both, &temp);
            options.push(string_of(&both));
        }
        let ghost first_spec = options@.map_values(|s: String| s@);
        assert(first_spec =~= (if walls { seq![t@, r@ + temp@] } else { seq![t@] }));
        if underscore {
            let words = split_char(&temp, '_');
            let mut cap: Vec<char> = Vec::new();
            let mut low: Vec<char> = Vec::new();
            let mut i: usize = 0;
            while i < words.len()
                invariant
                    i <= words@.len(),
                    words@.map_values(|w: Vec<char>| w@) == words_spec,
                    forall|j: int| 0 <= j < words_spec.len() ==> splits_at_one(#[trigger] words_spec[j]),
                    cap@ == join_capitalized(words_spec.take(i as int)),
                    low@ == join_words(words_spec.take(i as int)),
                decreases words@.len() - i,
            {
                let word = &words[i];
                assert(words_spec[i as int] == word@);
                assert(splits_at_one(words_spec[i as int]));
                let c = ascii_upper_of(word[0]);
                cap.push(c);
                let mut k: usize = 1;
                while k < word.len()
                    invariant
                        1 <= k <= word@.len(),
                        cap@ == join_capitalized(words_spec.take(i as int)) + seq![ascii_upper(word@[0])] + word@.subrange(1, k as int),
                    decreases word@.len() - k,
                {
                    cap.push(word[k]);
                    k = k + 1;
                    assert(cap@ =~= join_capitalized(words_spec.take(i as int)) + seq![ascii_upper(word@[0])] + word@.subrange(1, k as int));
                }
                push_all(&mut low, word);
                proof {
                    let nt = words_spec.take(i + 1);
                    assert(nt.drop_last() =~= words_spec.take(i as int));
                    assert(nt.last() == word@);
                    assert(word@.subrange(1, word@.len() as int) =~= word@.skip(1));
                    assert(cap@ =~= join_capitalized(nt));
                }
                i = i + 1;
            }
            assert(words_spec.take(words_spec.len() as int) =~= words_spec);
            let mut a = r.clone();
            push_all(&mut a, &cap);
            options.push(string_of(&a));
            let mut b = r.clone();
            push_all(&mut b, &low);
            options.push(string_of(&b));
        }
        let ghost mid_spec = options@.map_values(|s: String| s@);
        let mut built = r.clone();
        built.push(ascii_upper_of(temp[0]));
        let mut k: usize = 1;
        while k < temp.len()
            invariant
                1 <= k <= temp@.len(),
                built@ == r@ + seq![ascii_upper(temp@[0])] + temp@.subrange(1, k as int),
            decreases temp@.len() - k,
        {
            built.push(temp[k]);
            k = k + 1;
            assert(built@ =~= r@ + seq![ascii_upper(temp@[0])] + temp@.subrange(1, k as int));
        }
        assert(temp@.subrange(1, temp@.len() as int) =~= temp@.skip(1));
        assert(built@ =~= r@ + capital_first(temp@));
        options.push(string_of(&built));
        assert(options@.map_values(|s: String| s@) =~= mid_spec.push(built@));
        options
    }
}

impl Controllable for RoadWall {
    open spec fn location(&self) -> u32 {
        self.index
    }

    open spec fn can_update(&self, width: u8, height: u8, len: nat) -> bool {
        true
    }

    open spec fn can_link(&self, width: u8, height: u8, len: nat) -> bool {
        keeps_art(self.tile@) || (width > 0 && forall|dx: int, dy: int|
            #![trigger neighbor(width, height, self.index as int, dx, dy)]
            (-1 <= dx <= 1 && -1 <= dy <= 1 && neighbor(width, height, self.index as int, dx, dy) is Some) ==> neighbor(width, height, self.index as int, dx, dy).unwrap() < len)
    }

    open spec fn can_hurt(&self, damage: i32) -> bool {
        true
    }

    fn update(&mut self, width: u8, height: u8, blocked: &Vec<bool>) -> (r: Option<Vec<Response>>)
        ensures
            r is None,
            *final(self) == *old(self),
    {
        None
    }

    fn get_location(&self) -> (r: u32) {
        self.index
    }

    fn get_tile(&self) -> (r: String)
        ensures
            r@ == self.tile@,
    {
        self.tile.clone()
    }

    /// Appends `N`, `S`, `E`, `W` for the neighbouring cells marked in
    /// `roadwalls`; bridges and doors keep their art.
    fn modify_connected_tiles(&mut self, width: u8, height: u8, roadwalls: &Vec<bool>)
        ensures
            final(self).index == old(self).index,
            final(self).tile@ == (if keeps_art(old(self).tile@) {
                old(self).tile@
            } else {
                old(self).tile@ + link_suffix(width, height, roadwalls@, old(self).index as int)
            }),
    {
        proof {
            reveal_strlit("bridge");
            reveal_strlit("door");
        }
        let lower = to_lowercase(self.tile.as_str());
        if contains(lower.as_str(), "bridge") || contains(lower.as_str(), "door") {
            return;
        }
        let w = width as u32;
        let h = height as u32;
        let i = self.index;
        let x = i % w;
        let y = i / w;
        let ghost wi = width as int;
        let ghost idx = i as int;
        assert(idx == y * wi + x && x < wi) by (nonlinear_arith)
            requires
                wi > 0,
                x == idx % wi,
                y == idx / wi,
        ;
        let ghost nn = neighbor(width, height, idx, 0, -1);
        let ghost ns = neighbor(width, height, idx, 0, 1);
        let ghost ne = neighbor(width, height, idx, 1, 0);
        let ghost nw = neighbor(width, height, idx, -1, 0);
        proof {
            assert((y - 1) * wi + x == idx - wi) by (nonlinear_arith)
                requires
                    idx == y * wi + x,
            ;
            assert((y + 1) * wi + x == idx + wi) by (nonlinear_arith)
                requires
                    idx == y * wi + x,
            ;
            assert(y + 1 < h ==> idx + wi < 255 * 256) by (nonlinear_arith)
                requires
                    idx == y * wi + x,
                    x < wi,
                    wi <= 255,
                    h <= 255,
            ;
            assert(y < h ==> idx + 1 < 255 * 256) by (nonlinear_arith)
                requires
                    idx == y * wi + x,
                    x < wi,
                    wi <= 255,
                    h <= 255,
            ;
        }
        let north = y > 0 && y - 1 < h && roadwalls[(i - w) as usize];
        let south = y < h && y + 1 < h && roadwalls[(i + w) as usize];
        let east = y < h && x + 1 < w && roadwalls[(i + 1) as usize];
        let west = y < h && x > 0 && roadwalls[(i - 1) as usize];
        let mut suffix: Vec<char> = Vec::new();
        if north {
            suffix.push('N');
        }
        if south {
            suffix.push('S');
        }
        if east {
            suffix.push('E');
        }
        if west {
            suffix.push('W');
        }
        proof {
            assert(north == linked(width, height, roadwalls@, idx, 0, -1));
            assert(south == linked(width, height, roadwalls@, idx, 0, 1));
            assert(east == linked(width, height, roadwalls@, idx, 1, 0));
            assert(west == linked(width, height, roadwalls@, idx, -1, 0));
            assert(suffix@ =~= link_suffix(width, height, roadwalls@, idx));
        }
        let mut tile = chars_of(self.tile.as_str());
        push_all(&mut tile, &suffix);
        self.tile = string_of(&tile);
    }

    fn get_type(&self) -> (r: ControllableType)
        ensures
            r == (if has_sub(self.tile@, "roads"@) { ControllableType::Road } else { ControllableType::Wall }),
    {
        if contains(self.tile.as_str(), "roads") {
            ControllableType::Road
        } else {
            ControllableType::Wall
        }
    }

    fn get_size(&self) -> (r: (u32, u32))
        ensures
            r == (1u32, 1u32),
    {
        (1, 1)
    }

    fn get_token(&self) -> (r: Option<Token>)
        ensures
            r is None,
    {
        None
    }

    fn get_hp(&self) -> (r: Option<i32>)
        ensures
            r is None,
    {
        None
    }

    fn set_location(&mut self, index: u32)
        ensures
            final(self).tile == old(self).tile,
    {
        self.index = index;
    }

    /// A wall blocks its own cell unless it is a door; roads block nothing.
    fn does_block_index(&self, index: u32) -> (r: bool)
        ensures
            r == (self.index == index && !has_sub(self.tile@, "roads"@) && !has_sub(self.tile@, "door"@)
                && !has_sub(self.tile@, "Door"@)),
    {
        if self.index == index {
            match self.get_type() {
                ControllableType::Wall => !contains(self.tile.as_str(), "door") && !contains(
                    self.tile.as_str(),
                    "Door",
                ),
                _ => false,
            }
        } else {
            false
        }
    }

    fn is_visible(&self, map: &GameMap) -> (r: bool)
        ensures
            r,
    {
        true
    }

    fn hurt(&mut self, damage: i32)
        ensures
            *final(self) == *old(self),
    {
    }

    fn push_command(&mut self, command: String)
        ensures
            *final(self) == *old(self),
    {
    }

    fn set_movement(&mut self, end: u32)
        ensures
            *final(self) == *old(self),
    {
    }

    fn get_viewport(&self) -> (r: (u8, u8))
        ensures
            r == (0u8, 0u8),
    {
        (0, 0)
    }
}

} // verus!
