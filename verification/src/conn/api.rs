//! The Wyvern client protocol: big- and little-endian numbers, length-prefixed
//! strings, the server's messages, and the framing of what clients send.

use vstd::prelude::*;
use vstd::utf8::{decode_utf8, encode_utf8, valid_utf8};

use bytes::BytesMut;
use std::io::Write;

use crate::conn::{ConnAddr, Login, Msg, Polled};
use crate::strmap::{StrMap, distinct_keys};
use crate::text;

verus! {

// ---------------------------------------------------------------------------
// Byte layouts
// ---------------------------------------------------------------------------

/// Big-endian bytes of a 16-bit value.
pub open spec fn be16(v: u16) -> Seq<u8> {
    seq![(v >> 8u16) as u8, v as u8]
}

/// Big-endian bytes of a 32-bit value.
pub open spec fn be32(v: u32) -> Seq<u8> {
    seq![(v >> 24u32) as u8, (v >> 16u32) as u8, (v >> 8u32) as u8, v as u8]
}

/// Big-endian bytes of a 64-bit value.
pub open spec fn be64(v: u64) -> Seq<u8> {
    seq![
        (v >> 56u64) as u8,
        (v >> 48u64) as u8,
        (v >> 40u64) as u8,
        (v >> 32u64) as u8,
        (v >> 24u64) as u8,
        (v >> 16u64) as u8,
        (v >> 8u64) as u8,
        v as u8,
    ]
}

/// The value of big-endian bytes.
pub open spec fn be_value(b: Seq<u8>) -> nat
    decreases b.len(),
{
    if b.len() == 0 {
        0
    } else {
        be_value(b.drop_last()) * 256 + b.last() as nat
    }
}

/// A message header: the code, then the low three bytes of the length,
/// big-endian.
pub open spec fn header(code: u8, length: i32) -> Seq<u8> {
    seq![code] + be32(length as u32).skip(1)
}

/// UTF-8 bytes of a string.
pub open spec fn utf8(s: Seq<char>) -> Seq<u8> {
    encode_utf8(s)
}

/// A string on the wire: its byte length (low 16 bits) big-endian, then its
/// UTF-8 bytes.
pub open spec fn wire_string(s: Seq<char>) -> Seq<u8> {
    be16((utf8(s).len() % 0x10000) as u16) + utf8(s)
}

/// Milliseconds since the epoch for a clock reading, with the arithmetic of
/// 64-bit integers wrapping.
pub open spec fn timestamp_millis(sec: i64, nsec: i32) -> i64 {
    sec.wrapping_mul(1000).wrapping_add((nsec as i64 / 1_000_000) as i64)
}

/// Reading a big-endian 16-bit value gives back what was written.
pub proof fn lemma_be16_roundtrip(v: u16)
    ensures
        be_value(be16(v)) == v,
{
    let b = be16(v);
    reveal_with_fuel(be_value, 3);
    assert(b.drop_last().drop_last() =~= Seq::<u8>::empty());
    let hi = (v >> 8u16) as u8;
    let lo = v as u8;
    assert(hi as nat * 256 + lo as nat == v) by (bit_vector)
        requires
            hi == (v >> 8u16) as u8,
            lo == v as u8,
    ;
}

/// Reading a big-endian 32-bit value gives back what was written.
pub proof fn lemma_be32_roundtrip(v: u32)
    ensures
        be_value(be32(v)) == v,
{
    let b = be32(v);
    let b0 = (v >> 24u32) as u8;
    let b1 = (v >> 16u32) as u8;
    let b2 = (v >> 8u32) as u8;
    let b3 = v as u8;
    reveal_with_fuel(be_value, 5);
    assert(b.drop_last().drop_last().drop_last().drop_last() =~= Seq::<u8>::empty());
    assert(b.drop_last().drop_last().drop_last() =~= seq![b0]);
    assert(b.drop_last().drop_last() =~= seq![b0, b1]);
    assert(b.drop_last() =~= seq![b0, b1, b2]);
    assert(((b0 as nat * 256 + b1 as nat) * 256 + b2 as nat) * 256 + b3 as nat == v) by (bit_vector)
        requires
            b0 == (v >> 24u32) as u8,
            b1 == (v >> 16u32) as u8,
            b2 == (v >> 8u32) as u8,
            b3 == v as u8,
    ;
}


// ---------------------------------------------------------------------------
// The server's messages
// ---------------------------------------------------------------------------

/// Byte length of a string's UTF-8 encoding.
pub open spec fn blen(s: Seq<char>) -> nat {
    utf8(s).len()
}

/// Connection result: protocol version 1.1, the result code, and for result
/// 4 the message's bytes.
pub open spec fn conn_result_msg(result: u8, message: Seq<char>) -> Seq<u8> {
    header(2, 5) + be16(1) + be16(1) + seq![result] + (if result == 4 {
        utf8(message)
    } else {
        Seq::<u8>::empty()
    })
}

/// The quit indication.
pub open spec fn quit_msg() -> Seq<u8> {
    header(13, 0)
}

/// A line of text in the given style.
pub open spec fn text_out_msg(style: u8, message: Seq<char>) -> Seq<u8> {
    header(11, (blen(message) + 3) as i32) + seq![style] + wire_string(message)
}

/// The player's name.
pub open spec fn stat_name_msg(name: Seq<char>) -> Seq<u8> {
    header(106, (2 + (blen(name) as i32)) as i32) + wire_string(name)
}

/// One stat value.
pub open spec fn stat_msg(stat: Stat, amount: i32) -> Seq<u8> {
    header(stat_code(stat), 4) + be32(amount as u32)
}

/// Level and experience.
pub open spec fn stat_level_msg(level: u8, xp: i32) -> Seq<u8> {
    header(105, 5) + seq![level] + be32(xp as u32)
}

/// All stats at once.
pub open spec fn stat_all_msg(v: Seq<i32>) -> Seq<u8>
    recommends
        v.len() == 9,
{
    header(120, 36) + be32(v[0] as u32) + be32(v[1] as u32) + be32(v[2] as u32) + be32(
        v[3] as u32,
    ) + be32(v[4] as u32) + be32(v[5] as u32) + be32(v[6] as u32) + be32(v[7] as u32) + be32(
        v[8] as u32,
    )
}

/// An item on the ground (code 80) or in the inventory (code 70).
pub open spec fn item_add_msg(
    code: u8,
    name: Seq<char>,
    commands: Seq<char>,
    tile: i16,
    index: i16,
    offsets: i16,
) -> Seq<u8> {
    header(code, (10 + blen(name) + blen(commands)) as i32) + wire_string(name) + wire_string(
        commands,
    ) + be16(tile as u16) + be16(index as u16) + be16(offsets as u16)
}

/// A tile image path with the time it was sent.
pub open spec fn tile_msg(tile: i16, path: Seq<char>, ts: i64) -> Seq<u8> {
    header(16, (12 + (blen(path) as i32)) as i32) + be16(tile as u16) + wire_string(path) + be64(
        ts as u64,
    )
}

/// An image: its name, its bytes and the time it was sent.
pub open spec fn image_msg(image: Seq<char>, data: Seq<u8>, ts: i64) -> Seq<u8> {
    header(17, (blen(image) + 4 + data.len() + 8) as i32) + wire_string(image) + be32(
        (data.len() as i32) as u32,
    ) + data + be64(ts as u64)
}

/// The uncompressed body of the tile mappings: for each entry its number and
/// its trimmed name.
pub open spec fn mappings_body(e: Seq<(String, i16)>) -> Seq<u8>
    decreases e.len(),
{
    if e.len() == 0 {
        Seq::<u8>::empty()
    } else {
        mappings_body(e.drop_last()) + be16(e.last().1 as u16) + wire_string(
            text::trimmed(e.last().0@),
        )
    }
}

/// The tile mappings message: compressed and uncompressed lengths, then the
/// zlib-compressed body.
pub open spec fn tile_mappings_msg(e: Seq<(String, i16)>) -> Seq<u8> {
    let u = mappings_body(e);
    let z = zlib_compressed(u);
    header(8, (z.len() + 8) as i32) + be32((z.len() as i32) as u32) + be32((u.len() as i32) as u32)
        + z
}


// ---------------------------------------------------------------------------
// What clients send
// ---------------------------------------------------------------------------

/// A length-prefixed byte string starting at `at`: its bytes and the position
/// after it, or `None` when the input is too short.
pub open spec fn wire_bytes_at(r: Seq<u8>, at: int) -> Option<(Seq<u8>, int)> {
    if 0 <= at && at + 2 <= r.len() {
        let l = be_value(r.subrange(at, at + 2));
        if at + 2 + l <= r.len() {
            Some((r.subrange(at + 2, at + 2 + l), at + 2 + l))
        } else {
            None
        }
    } else {
        None
    }
}

/// The login record after its 4-byte marker: height and width (16 bits
/// each, big-endian), then name, password and version as length-prefixed
/// strings. Gives the fields and the number of bytes they take, or `None`
/// when the input is too short.
pub open spec fn login_wire(r: Seq<u8>) -> Option<(nat, nat, Seq<u8>, Seq<u8>, Seq<u8>, int)> {
    if r.len() < 4 {
        None
    } else {
        let h = be_value(r.subrange(0, 2));
        let w = be_value(r.subrange(2, 4));
        match wire_bytes_at(r, 4) {
            None => None,
            Some((name, a)) => match wire_bytes_at(r, a) {
                None => None,
                Some((pw, b)) => match wire_bytes_at(r, b) {
                    None => None,
                    Some((ver, c)) => Some((h, w, name, pw, ver, c)),
                },
            },
        }
    }
}

/// A byte string framed with its 16-bit big-endian length, as clients send
/// strings.
pub open spec fn framed(s: Seq<u8>) -> Seq<u8> {
    be16(s.len() as u16) + s
}

/// A framed byte string is read back whole from where it starts.
pub proof fn lemma_wire_bytes_roundtrip(before: Seq<u8>, s: Seq<u8>, after: Seq<u8>)
    requires
        s.len() < 0x10000,
    ensures
        wire_bytes_at(before + framed(s) + after, before.len() as int) == Some(
            (s, (before.len() + 2 + s.len()) as int),
        ),
{
    let r = before + framed(s) + after;
    let at = before.len() as int;
    lemma_be16_roundtrip(s.len() as u16);
    assert(r.subrange(at, at + 2) =~= be16(s.len() as u16));
    assert(r.subrange(at + 2, at + 2 + s.len()) =~= s);
}

/// A login record as a client writes it (height and width, then the framed
/// name, password and version) is read back field for field, whatever
/// follows it.
pub proof fn lemma_login_roundtrip(h: u16, w: u16, name: Seq<u8>, pw: Seq<u8>, ver: Seq<u8>, rest: Seq<u8>)
    requires
        name.len() < 0x10000,
        pw.len() < 0x10000,
        ver.len() < 0x10000,
    ensures
        login_wire(be16(h) + be16(w) + framed(name) + framed(pw) + framed(ver) + rest) == Some(
            (h as nat, w as nat, name, pw, ver, (10 + name.len() + pw.len() + ver.len()) as int),
        ),
{
    let p0 = be16(h) + be16(w);
    let p1 = p0 + framed(name);
    let p2 = p1 + framed(pw);
    let r = p2 + framed(ver) + rest;
    assert(r == be16(h) + be16(w) + framed(name) + framed(pw) + framed(ver) + rest);
    lemma_be16_roundtrip(h);
    lemma_be16_roundtrip(w);
    assert(r.subrange(0, 2) =~= be16(h));
    assert(r.subrange(2, 4) =~= be16(w));
    lemma_wire_bytes_roundtrip(p0, name, framed(pw) + framed(ver) + rest);
    assert(p0 + framed(name) + (framed(pw) + framed(ver) + rest) =~= r);
    lemma_wire_bytes_roundtrip(p1, pw, framed(ver) + rest);
    assert(p1 + framed(pw) + (framed(ver) + rest) =~= r);
    lemma_wire_bytes_roundtrip(p2, ver, rest);
}

/// A login record that can be read: complete, with UTF-8 strings.
pub open spec fn login_readable(r: Seq<u8>) -> bool {
    match login_wire(r) {
        Some((h, w, name, pw, ver, c)) => valid_utf8(name) && valid_utf8(pw) && valid_utf8(ver),
        None => false,
    }
}

/// The command frames at the start of `b`, and how many bytes they use: a
/// frame is taken while at least three bytes are left; its 16-bit big-endian
/// length is read, and the command of that length is taken when at least two
/// more bytes than the length follow the prefix. Otherwise the length prefix
/// alone is consumed and reading stops.
pub open spec fn frames(b: Seq<u8>) -> (Seq<Seq<u8>>, nat)
    decreases b.len(),
{
    if b.len() >= 3 {
        let l = be_value(b.take(2)) as int;
        if b.len() - 2 >= 2 + l {
            let rest = frames(b.skip(2 + l));
            (seq![b.subrange(2, 2 + l)] + rest.0, (2 + l + rest.1) as nat)
        } else {
            (Seq::<Seq<u8>>::empty(), 2)
        }
    } else {
        (Seq::<Seq<u8>>::empty(), 0)
    }
}

/// Every command frame at the start of `b` is UTF-8.
pub open spec fn frames_readable(b: Seq<u8>) -> bool {
    forall|i: int| 0 <= i < frames(b).0.len() ==> valid_utf8(#[trigger] frames(b).0[i])
}

/// The bytes of an optional vector.
pub open spec fn opt_bytes(o: Option<Vec<u8>>) -> Option<Seq<u8>> {
    match o {
        Some(d) => Some(d@),
        None => None,
    }
}

/// The messages `buffer` encodes; the others belong to the game.
pub open spec fn handled(m: Msg) -> bool {
    !(m is Command || m is Connect || m is Timeout || m is Login)
}

/// Lengths of a message's fields for which encoding it does not overflow.
pub open spec fn encodable(m: Msg, image_data: Option<Seq<u8>>) -> bool {
    match m {
        Msg::TextOutput(_, s) => blen(s@) + 3 <= usize::MAX,
        Msg::Shout(s) => blen(s@) + 3 <= usize::MAX,
        Msg::Name(n) => 2 + (blen(n@) as i32) <= i32::MAX,
        Msg::Tile(_, p) => 12 + (blen(p@) as i32) <= i32::MAX,
        Msg::Image(img) => match image_data {
            Some(d) => blen(img@) + 4 + d.len() + 8 <= usize::MAX,
            None => true,
        },
        _ => true,
    }
}

/// The bytes `buffer` writes for a message, with `ts` the time stamp of
/// tiles and images.
pub open spec fn message_bytes(m: Msg, image_data: Option<Seq<u8>>, ts: i64) -> Seq<u8> {
    match m {
        Msg::TextOutput(style, s) => text_out_msg(style, s@),
        Msg::Shout(s) => text_out_msg(4, s@),
        Msg::LoginResult(r, s) => conn_result_msg(r, s@),
        Msg::Name(n) => stat_name_msg(n@),
        Msg::Quit => quit_msg(),
        Msg::Image(img) => match image_data {
            Some(d) => image_msg(img@, d, ts),
            None => Seq::<u8>::empty(),
        },
        Msg::Hp(a) => stat_msg(Stat::Hp, a),
        Msg::Mana(a) => stat_msg(Stat::Sp, a),
        Msg::Gold(a) => stat_msg(Stat::Gold, a),
        Msg::Xp(a) => stat_msg(Stat::Xp, a),
        Msg::Tile(t, p) => tile_msg(t, p@, ts),
        Msg::TileMapping(map) => tile_mappings_msg(map.entries()),
        _ => Seq::<u8>::empty(),
    }
}

/// A shout goes out as a text output in style 4: code 11, the length `n + 3`
/// in three big-endian bytes, the style byte 4, then the message's byte
/// length `n` in two big-endian bytes and its UTF-8 bytes.
pub proof fn lemma_shout_is_style_four_text(s: String, data: Option<Seq<u8>>, ts: i64)
    requires
        blen(s@) <= 65532,
    ensures
        message_bytes(Msg::Shout(s), data, ts) == message_bytes(Msg::TextOutput(4, s), data, ts),
        message_bytes(Msg::Shout(s), data, ts) == seq![
            11u8,
            0u8,
            ((blen(s@) + 3) / 256) as u8,
            ((blen(s@) + 3) % 256) as u8,
            4u8,
            (blen(s@) / 256) as u8,
            (blen(s@) % 256) as u8,
        ] + utf8(s@),
{
    let n = blen(s@);
    let v = (n + 3) as u32;
    let w = n as u16;
    assert((v >> 16u32) as u8 == 0 && (v >> 8u32) as u8 == v / 256 && v as u8 == v % 256) by (bit_vector)
        requires
            v <= 65535,
    ;
    assert((w >> 8u16) as u8 == w / 256 && w as u8 == w % 256) by (bit_vector);
    assert(((n + 3) as i32) as u32 == v);
    assert(n % 0x10000 == n);
    assert(be32(v).skip(1) =~= seq![0u8, (v / 256) as u8, (v % 256) as u8]);
    assert(message_bytes(Msg::Shout(s), data, ts) =~= seq![
        11u8,
        0u8,
        ((n + 3) / 256) as u8,
        ((n + 3) % 256) as u8,
        4u8,
        (n / 256) as u8,
        (n % 256) as u8,
    ] + utf8(s@));
}

/// A stat message is eight bytes: the protocol's fixed code (100 for hit
/// points, 101 for mana, 102 for experience, 104 for gold), the length 4 in
/// three big-endian bytes, then the amount as four big-endian bytes.
pub proof fn lemma_stat_message_codes(amount: i32, data: Option<Seq<u8>>, ts: i64)
    ensures
        message_bytes(Msg::Hp(amount), data, ts).take(4) == seq![100u8, 0u8, 0u8, 4u8],
        message_bytes(Msg::Mana(amount), data, ts).take(4) == seq![101u8, 0u8, 0u8, 4u8],
        message_bytes(Msg::Xp(amount), data, ts).take(4) == seq![102u8, 0u8, 0u8, 4u8],
        message_bytes(Msg::Gold(amount), data, ts).take(4) == seq![104u8, 0u8, 0u8, 4u8],
        stat_msg(Stat::Hp, amount).take(4) == seq![100u8, 0u8, 0u8, 4u8],
        stat_msg(Stat::Sp, amount).take(4) == seq![101u8, 0u8, 0u8, 4u8],
        stat_msg(Stat::Xp, amount).take(4) == seq![102u8, 0u8, 0u8, 4u8],
        stat_msg(Stat::Gold, amount).take(4) == seq![104u8, 0u8, 0u8, 4u8],
        forall|s: Stat| #[trigger] stat_msg(s, amount).len() == 8 && be_value(stat_msg(s, amount).skip(4)) == amount as u32,
        message_bytes(Msg::Hp(amount), data, ts) == stat_msg(Stat::Hp, amount),
        message_bytes(Msg::Mana(amount), data, ts) == stat_msg(Stat::Sp, amount),
        message_bytes(Msg::Xp(amount), data, ts) == stat_msg(Stat::Xp, amount),
        message_bytes(Msg::Gold(amount), data, ts) == stat_msg(Stat::Gold, amount),
{
    let four: u32 = 4;
    assert((four >> 24u32) as u8 == 0 && (four >> 16u32) as u8 == 0 && (four >> 8u32) as u8 == 0 && four as u8 == 4)
        by (bit_vector)
        requires
            four == 4,
    ;
    assert((4i32 as u32) == four);
    assert(be32(4u32).skip(1) =~= seq![0u8, 0u8, 4u8]);
    lemma_be32_roundtrip(amount as u32);
    assert forall|s: Stat| #[trigger] stat_msg(s, amount).len() == 8 && be_value(stat_msg(s, amount).skip(4))
        == amount as u32 by {
        assert(stat_msg(s, amount).skip(4) =~= be32(amount as u32));
    }
    assert(stat_msg(Stat::Hp, amount).take(4) =~= seq![100u8, 0u8, 0u8, 4u8]);
    assert(stat_msg(Stat::Sp, amount).take(4) =~= seq![101u8, 0u8, 0u8, 4u8]);
    assert(stat_msg(Stat::Xp, amount).take(4) =~= seq![102u8, 0u8, 0u8, 4u8]);
    assert(stat_msg(Stat::Gold, amount).take(4) =~= seq![104u8, 0u8, 0u8, 4u8]);
}

/// Reads the length-prefixed strings of a login record, big-endian numbers
/// included.
fn be_at(b: &[u8], at: usize) -> (v: usize)
    requires
        at + 2 <= b@.len(),
    ensures
        v == be_value(b@.subrange(at as int, at + 2)),
        v < 0x10000,
{
    let ghost s = b@.subrange(at as int, at + 2);
    assert(s.drop_last().drop_last() =~= Seq::<u8>::empty());
    assert(s.drop_last() =~= seq![b@[at as int]]);
    reveal_with_fuel(be_value, 3);
    b[at] as usize * 256 + b[at + 1] as usize
}

/// Copies `b[from..to]`.
fn copy_range(b: &[u8], from: usize, to: usize) -> (r: Vec<u8>)
    requires
        from <= to <= b@.len(),
    ensures
        r@ == b@.subrange(from as int, to as int),
{
    let mut r: Vec<u8> = Vec::new();
    let mut i: usize = from;
    while i < to
        invariant
            from <= i <= to <= b@.len(),
            r@ == b@.subrange(from as int, i as int),
        decreases to - i,
    {
        r.push(b[i]);
        i = i + 1;
        assert(r@ =~= b@.subrange(from as int, i as int));
    }
    r
}

/// A length-prefixed byte string at `at`.
fn wire_bytes(b: &[u8], at: usize) -> (r: Option<(Vec<u8>, usize)>)
    ensures
        match wire_bytes_at(b@, at as int) {
            Some((s, e)) => r matches Some((v, e2)) && v@ == s && e2 == e,
            None => r is None,
        },
{
    if at > b.len() || b.len() - at < 2 {
        return None;
    }
    let l = be_at(b, at);
    if b.len() - at - 2 < l {
        return None;
    }
    let v = copy_range(b, at + 2, at + 2 + l);
    Some((v, at + 2 + l))
}

/// Splits the command frames off the start of `b`.
pub fn frame_commands(b: &[u8]) -> (r: (Vec<Vec<u8>>, usize))
    ensures
        r.0@.map_values(|c: Vec<u8>| c@) == frames(b@).0,
        r.1 == frames(b@).1,
{
    let mut cmds: Vec<Vec<u8>> = Vec::new();
    let mut i: usize = 0;
    let n = b.len();
    assert(b@.skip(0) =~= b@);
    loop
        invariant
            n == b@.len(),
            i <= n,
            frames(b@).0 == cmds@.map_values(|c: Vec<u8>| c@) + frames(b@.skip(i as int)).0,
            frames(b@).1 == i + frames(b@.skip(i as int)).1,
        decreases n - i,
    {
        let ghost t = b@.skip(i as int);
        if n - i >= 3 {
            let l = be_at(b, i);
            assert(t.take(2) =~= b@.subrange(i as int, i + 2));
            if n - i - 2 >= 2 + l {
                let c = copy_range(b, i + 2, i + 2 + l);
                proof {
                    assert(t.subrange(2, 2 + l) =~= c@);
                    assert(t.skip(2 + l) =~= b@.skip(i + 2 + l));
                    let before = cmds@.map_values(|c: Vec<u8>| c@);
                    assert(before + frames(t).0 =~= before.push(c@) + frames(b@.skip(i + 2 + l)).0);
                }
                let ghost before = cmds@;
                cmds.push(c);
                assert(cmds@.map_values(|c: Vec<u8>| c@) =~= before.map_values(|c: Vec<u8>| c@).push(
                    b@.subrange(i + 2, i + 2 + l),
                ));
                i = i + 2 + l;
            } else {
                assert(cmds@.map_values(|c: Vec<u8>| c@) + Seq::<Seq<u8>>::empty() =~= cmds@.map_values(
                    |c: Vec<u8>| c@,
                ));
                return (cmds, i + 2);
            }
        } else {
            assert(cmds@.map_values(|c: Vec<u8>| c@) + Seq::<Seq<u8>>::empty() =~= cmds@.map_values(
                |c: Vec<u8>| c@,
            ));
            return (cmds, i);
        }
    }
}


/// The number of bytes the frames take is at most the input's length.
pub proof fn lemma_frames_len(b: Seq<u8>)
    ensures
        frames(b).1 <= b.len(),
    decreases b.len(),
{
    if b.len() >= 3 {
        let l = be_value(b.take(2)) as int;
        if b.len() - 2 >= 2 + l {
            lemma_frames_len(b.skip(2 + l));
        }
    }
}

/// A command that a client frames with its 16-bit big-endian length is read
/// back whole, as the first frame, when at least two more bytes follow it;
/// reading then goes on with what follows.
pub proof fn lemma_frame_roundtrip(c: Seq<u8>, rest: Seq<u8>)
    requires
        c.len() < 0x10000,
        rest.len() >= 2,
    ensures
        frames(framed(c) + rest).0 == seq![c] + frames(rest).0,
        frames(framed(c) + rest).1 == 2 + c.len() + frames(rest).1,
{
    let b = framed(c) + rest;
    lemma_be16_roundtrip(c.len() as u16);
    assert(b.take(2) =~= be16(c.len() as u16));
    assert(b.subrange(2, 2 + c.len() as int) =~= c);
    assert(b.skip(2 + c.len() as int) =~= rest);
}

/// Value of four big-endian bytes at the start of `b`.
fn be4(b: &[u8]) -> (v: u64)
    requires
        b@.len() >= 4,
    ensures
        v == be_value(b@.take(4)),
{
    let ghost t = b@.take(4);
    reveal_with_fuel(be_value, 5);
    assert(t.drop_last().drop_last().drop_last().drop_last() =~= Seq::<u8>::empty());
    assert(t.drop_last().drop_last().drop_last() =~= seq![b@[0]]);
    assert(t.drop_last().drop_last() =~= seq![b@[0], b@[1]]);
    assert(t.drop_last() =~= seq![b@[0], b@[1], b@[2]]);
    ((b[0] as u64 * 256 + b[1] as u64) * 256 + b[2] as u64) * 256 + b[3] as u64
}

/// Reads a login record (what follows its marker): the login and the number
/// of bytes it takes, or `None` when it is incomplete or not UTF-8.
pub fn parse_login_record(r: &[u8]) -> (res: Option<(Login, usize)>)
    ensures
        res is Some <==> login_readable(r@),
        res matches Some((l, e)) ==> match login_wire(r@) {
            Some((h, w, name, pw, ver, c)) => e == c && l.height == (h as u16) as i16 && l.width == (
            w as u16) as i16 && l.name@ == decode_utf8(name) && l.password@ == decode_utf8(pw)
                && l.version@ == decode_utf8(ver),
            None => false,
        },
{
    if r.len() < 4 {
        return None;
    }
    let h = be_at(r, 0);
    let w = be_at(r, 2);
    let (name, a) = match wire_bytes(r, 4) {
        Some(x) => x,
        None => {
            return None;
        },
    };
    let (pw, b) = match wire_bytes(r, a) {
        Some(x) => x,
        None => {
            return None;
        },
    };
    let (ver, c) = match wire_bytes(r, b) {
        Some(x) => x,
        None => {
            return None;
        },
    };
    let name_s = match string_from_utf8(name.as_slice()) {
        Some(x) => x,
        None => {
            return None;
        },
    };
    let pw_s = match string_from_utf8(pw.as_slice()) {
        Some(x) => x,
        None => {
            return None;
        },
    };
    let ver_s = match string_from_utf8(ver.as_slice()) {
        Some(x) => x,
        None => {
            return None;
        },
    };
    let l = Login::new(h as u16 as i16, w as u16 as i16, name_s.as_str(), pw_s.as_str(), ver_s.as_str());
    Some((l, c))
}

/// What `poll_login` returns.
pub enum LoginPoll {
    /// The connection was closed before a login arrived.
    Closed,
    /// No login yet.
    NotReady,
    /// A login record.
    Ready(Login),
}

// ---------------------------------------------------------------------------
// Outside items
// ---------------------------------------------------------------------------

#[verifier::external_type_specification]
#[verifier::external_body]
pub struct ExBytesMut(bytes::BytesMut);

/// The bytes a `bytes::BytesMut` holds.
pub uninterp spec fn buffer_bytes(b: BytesMut) -> Seq<u8>;

/// `BytesMut::new`: an empty buffer.
#[verifier::external_body]
fn bytes_new() -> (b: BytesMut)
    ensures
        buffer_bytes(b) == Seq::<u8>::empty(),
{
    BytesMut::new()
}

/// `BytesMut::extend_from_slice`: appends the bytes. It reserves room first
/// and panics only when the new capacity overflows `usize`.
#[verifier::external_body]
fn bytes_extend(b: &mut BytesMut, s: &[u8])
    requires
        buffer_bytes(*old(b)).len() + s@.len() <= usize::MAX,
    ensures
        buffer_bytes(*final(b)) == buffer_bytes(*old(b)) + s@,
{
    b.extend_from_slice(s)
}

/// `BytesMut::split_to`: the first `at` bytes are returned and removed
/// from the buffer; it panics when `at` exceeds the length.
#[verifier::external_body]
fn bytes_split_to(b: &mut BytesMut, at: usize) -> (r: BytesMut)
    requires
        at <= buffer_bytes(*old(b)).len(),
    ensures
        buffer_bytes(r) == buffer_bytes(*old(b)).take(at as int),
        buffer_bytes(*final(b)) == buffer_bytes(*old(b)).skip(at as int),
{
    b.split_to(at)
}

/// `BytesMut::len`.
#[verifier::external_body]
fn bytes_len(b: &BytesMut) -> (n: usize)
    ensures
        n == buffer_bytes(*b).len(),
{
    b.len()
}

/// The buffer's bytes as a vector (through `Deref<Target = [u8]>`).
#[verifier::external_body]
fn bytes_to_vec(b: &BytesMut) -> (v: Vec<u8>)
    ensures
        v@ == buffer_bytes(*b),
{
    b[..].to_vec()
}

/// What `flate2`'s zlib encoder at the default level produces for the bytes.
pub uninterp spec fn zlib_compressed(data: Seq<u8>) -> Seq<u8>;

/// Compresses with `flate2::write::ZlibEncoder` (default level), writing all
/// bytes and finishing the stream into a `Vec`, which cannot fail.
#[verifier::external_body]
fn zlib_compress(data: &[u8]) -> (r: Vec<u8>)
    ensures
        r@ == zlib_compressed(data@),
{
    let mut encoder = flate2::write::ZlibEncoder::new(Vec::new(), flate2::Compression::default());
    encoder.write_all(data).unwrap();
    encoder.finish().unwrap()
}

/// Reads the clock with `time::get_time`. `Timespec::new`, which builds its
/// result, asserts that the nanoseconds lie in `0..1_000_000_000`; of the
/// seconds nothing is known.
#[verifier::external_body]
fn clock_now() -> (t: (i64, i32))
    ensures
        0 <= t.1 < 1_000_000_000,
{
    let now = time::get_time();
    (now.sec, now.nsec)
}

/// `std::str::from_utf8`, returning an owned string: `None` exactly when the
/// bytes are not valid UTF-8.
#[verifier::external_body]
fn string_from_utf8(b: &[u8]) -> (r: Option<String>)
    ensures
        r is Some <==> valid_utf8(b@),
        r matches Some(s) ==> s@ == decode_utf8(b@),
{
    match std::str::from_utf8(b) {
        Ok(s) => Some(s.to_owned()),
        Err(_) => None,
    }
}

// ---------------------------------------------------------------------------
// The protocol state of one connection
// ---------------------------------------------------------------------------

/// The stats that have a message of their own.
pub enum Stat {
    Gold,
    Xp,
    Hp,
    Sp,
}

/// The message code of a stat.
pub open spec fn stat_code(stat: Stat) -> u8 {
    match stat {
        Stat::Hp => 100,
        Stat::Sp => 101,
        Stat::Xp => 102,
        Stat::Gold => 104,
    }
}

/// Protocol state of one client connection: whether the login was read,
/// decoded messages not yet handed on, bytes read and not yet decoded, and
/// bytes waiting to be written.
pub struct Codec {
    logged_in: bool,
    input: Vec<Msg>,
    input_buffer: BytesMut,
    output_buffer: BytesMut,
}

/// Appends bytes to a vector.
fn push_bytes(vec: &mut Vec<u8>, b: &[u8])
    ensures
        final(vec)@ == old(vec)@ + b@,
{
    let ghost v0 = vec@;
    let mut i: usize = 0;
    while i < b.len()
        invariant
            i <= b@.len(),
            vec@ == v0 + b@.take(i as int),
        decreases b@.len() - i,
    {
        vec.push(b[i]);
        i = i + 1;
        assert(vec@ =~= v0 + b@.take(i as int));
    }
    assert(b@.take(b@.len() as int) =~= b@);
}

impl Codec {
    /// Bytes waiting to be written to the client.
    pub closed spec fn output(&self) -> Seq<u8> {
        buffer_bytes(self.output_buffer)
    }

    /// Bytes read from the client and not yet decoded.
    pub closed spec fn pending_input(&self) -> Seq<u8> {
        buffer_bytes(self.input_buffer)
    }

    /// Decoded messages not yet handed on.
    pub closed spec fn queued(&self) -> Seq<Msg> {
        self.input@
    }

    pub closed spec fn is_logged_in(&self) -> bool {
        self.logged_in
    }

    /// A fresh connection: nothing read, nothing to write, no login yet.
    pub fn new() -> (c: Self)
        ensures
            c.output() == Seq::<u8>::empty(),
            c.pending_input() == Seq::<u8>::empty(),
            c.queued() == Seq::<Msg>::empty(),
            !c.is_logged_in(),
    {
        Codec {
            logged_in: false,
            input: Vec::new(),
            input_buffer: bytes_new(),
            output_buffer: bytes_new(),
        }
    }

    /// Whether the login has been read (or given up on).
    pub fn logged_in(&self) -> (r: bool)
        ensures
            r == self.is_logged_in(),
    {
        self.logged_in
    }

    /// Appends bytes read from the client.
    pub fn receive(&mut self, data: &[u8])
        requires
            old(self).pending_input().len() + data@.len() <= usize::MAX,
        ensures
            final(self).pending_input() == old(self).pending_input() + data@,
            final(self).output() == old(self).output(),
            final(self).queued() == old(self).queued(),
            final(self).is_logged_in() == old(self).is_logged_in(),
    {
        bytes_extend(&mut self.input_buffer, data);
    }

    /// `poll_login` can read its input: after a read of `number` bytes, a
    /// login marker is followed by a complete UTF-8 record.
    pub open spec fn login_input_ok(&self, number: usize) -> bool {
        number > 17 ==> self.pending_input().len() >= 4 && (be_value(self.pending_input().take(4))
            == 1 ==> login_readable(self.pending_input().skip(4)))
    }

    /// Whether `poll_login` can read its input.
    pub fn login_input_readable(&self, number: usize) -> (r: bool)
        ensures
            r == self.login_input_ok(number),
    {
        if number <= 17 {
            return true;
        }
        let v = bytes_to_vec(&self.input_buffer);
        if v.len() < 4 {
            return false;
        }
        if be4(v.as_slice()) != 1 {
            return true;
        }
        let rest = copy_range(v.as_slice(), 4, v.len());
        assert(rest@ =~= self.pending_input().skip(4));
        parse_login_record(rest.as_slice()).is_some()
    }

    /// After a read of `number` bytes: `Closed` when nothing was read; when
    /// more than 17 bytes were read, the first four bytes are taken and, if
    /// they are the login marker (big-endian 1), the login record is read;
    /// otherwise `NotReady`.
    pub fn poll_login(&mut self, number: usize) -> (r: LoginPoll)
        requires
            old(self).login_input_ok(number),
        ensures
            final(self).output() == old(self).output(),
            final(self).queued() == old(self).queued(),
            final(self).is_logged_in() == old(self).is_logged_in(),
            number == 0 ==> r is Closed && final(self).pending_input() == old(self).pending_input(),
            0 < number <= 17 ==> r is NotReady && final(self).pending_input() == old(self).pending_input(),
            number > 17 && be_value(old(self).pending_input().take(4)) != 1 ==> r is NotReady
                && final(self).pending_input() == old(self).pending_input().skip(4),
            number > 17 && be_value(old(self).pending_input().take(4)) == 1 ==> match login_wire(
                old(self).pending_input().skip(4),
            ) {
                Some((h, w, name, pw, ver, c)) => r matches LoginPoll::Ready(l) && l.height == (
                h as u16) as i16 && l.width == (w as u16) as i16 && l.name@ == decode_utf8(name)
                    && l.password@ == decode_utf8(pw) && l.version@ == decode_utf8(ver)
                    && final(self).pending_input() == old(self).pending_input().skip(4 + c),
                None => false,
            },
    {
        if number == 0 {
            return LoginPoll::Closed;
        }
        if number > 17 {
            let head = bytes_split_to(&mut self.input_buffer, 4);
            let hv = bytes_to_vec(&head);
            let first_value = be4(hv.as_slice());
            assert(hv@.take(4) =~= hv@);
            if first_value == 1 {
                let rest = bytes_to_vec(&self.input_buffer);
                match parse_login_record(rest.as_slice()) {
                    Some((l, e)) => {
                        proof {
                            let r0 = rest@;
                            let _ = login_wire(r0);
                        }
                        let _ = bytes_split_to(&mut self.input_buffer, e);
                        assert(old(self).pending_input().skip(4).skip(e as int) =~= old(self).pending_input().skip(4 + e));
                        return LoginPoll::Ready(l);
                    },
                    None => {
                        return LoginPoll::NotReady;
                    },
                }
            }
        }
        LoginPoll::NotReady
    }

    /// `fill_read_buffer` can read its input: every command frame is UTF-8.
    pub open spec fn commands_input_ok(&self) -> bool {
        frames_readable(self.pending_input())
    }

    /// Whether every command frame waiting is UTF-8.
    pub fn commands_input_readable(&self) -> (r: bool)
        ensures
            r == self.commands_input_ok(),
    {
        let v = bytes_to_vec(&self.input_buffer);
        let (cmds, _) = frame_commands(v.as_slice());
        let ghost fs = frames(v@).0;
        assert(cmds@.map_values(|c: Vec<u8>| c@).len() == fs.len());
        let mut i: usize = 0;
        while i < cmds.len()
            invariant
                i <= cmds@.len(),
                cmds@.map_values(|c: Vec<u8>| c@) == fs,
                fs == frames(self.pending_input()).0,
                forall|k: int| 0 <= k < i ==> valid_utf8(#[trigger] fs[k]),
            decreases cmds@.len() - i,
        {
            assert(cmds@.map_values(|c: Vec<u8>| c@)[i as int] == cmds@[i as int]@);
            if string_from_utf8(cmds[i].as_slice()).is_none() {
                return false;
            }
            i = i + 1;
        }
        true
    }

    /// After a read of `number` bytes from the connection `addr`: when
    /// nothing was read the connection is closed (`true`). Otherwise the
    /// complete command frames are taken off the input and queued as
    /// commands, and `false` is returned.
    pub fn fill_read_buffer(&mut self, addr: ConnAddr, number: usize) -> (closed: bool)
        requires
            old(self).commands_input_ok(),
        ensures
            final(self).output() == old(self).output(),
            final(self).is_logged_in() == old(self).is_logged_in(),
            closed == (number == 0),
            closed ==> final(self).pending_input() == old(self).pending_input() && final(self).queued() == old(self).queued(),
            !closed ==> ({
                let fs = frames(old(self).pending_input());
                &&& final(self).pending_input() == old(self).pending_input().skip(fs.1 as int)
                &&& final(self).queued().len() == old(self).queued().len() + fs.0.len()
                &&& forall|i: int|
                    0 <= i < old(self).queued().len() ==> final(self).queued()[i] == old(self).queued()[i]
                &&& forall|k: int|
                    0 <= k < fs.0.len() ==> ((#[trigger] final(self).queued()[old(self).queued().len() + k]) matches Msg::Command(a, s) && a == addr && s@
                        == decode_utf8(fs.0[k]))
            }),
    {
        if number == 0 {
            return true;
        }
        let v = bytes_to_vec(&self.input_buffer);
        let (cmds, used) = frame_commands(v.as_slice());
        let ghost fs = frames(v@).0;
        let ghost q0 = self.input@;
        let mut i: usize = 0;
        while i < cmds.len()
            invariant
                i <= cmds@.len(),
                cmds@.map_values(|c: Vec<u8>| c@) == fs,
                fs == frames(old(self).pending_input()).0,
                frames_readable(old(self).pending_input()),
                self.input@.len() == q0.len() + i,
                q0 == old(self).queued(),
                forall|j: int| 0 <= j < q0.len() ==> self.input@[j] == q0[j],
                forall|k: int|
                    0 <= k < i ==> ((#[trigger] self.input@[q0.len() + k]) matches Msg::Command(a, s)
                        && a == addr && s@ == decode_utf8(fs[k])),
                self.output_buffer == old(self).output_buffer,
                self.input_buffer == old(self).input_buffer,
                self.logged_in == old(self).logged_in,
            decreases cmds@.len() - i,
        {
            assert(cmds@.map_values(|c: Vec<u8>| c@)[i as int] == cmds@[i as int]@);
            assert(valid_utf8(fs[i as int]));
            match string_from_utf8(cmds[i].as_slice()) {
                Some(s) => {
                    self.input.push(Msg::Command(addr, s));
                },
                None => {},
            }
            i = i + 1;
        }
        proof {
            lemma_frames_len(v@);
        }
        let _ = bytes_split_to(&mut self.input_buffer, used);
        false
    }

    /// Reads the login once: closed connections are reported (`true`);
    /// otherwise a login that arrived is queued, and the login is not read
    /// again.
    pub fn login_step(&mut self, addr: ConnAddr, number: usize) -> (closed: bool)
        requires
            !old(self).is_logged_in(),
            old(self).login_input_ok(number),
        ensures
            closed == (number == 0),
            final(self).output() == old(self).output(),
            final(self).is_logged_in() == !closed,
            number == 0 ==> final(self).queued() == old(self).queued(),
            number <= 17 ==> final(self).queued() == old(self).queued() && final(self).pending_input() == old(self).pending_input(),
            number > 17 && be_value(old(self).pending_input().take(4)) != 1 ==> final(self).queued() == old(self).queued() && final(self).pending_input() == old(self).pending_input().skip(4),
            number > 17 && be_value(old(self).pending_input().take(4)) == 1 ==> match login_wire(
                old(self).pending_input().skip(4),
            ) {
                Some((h, w, name, pw, ver, c)) => final(self).queued().len() == old(self).queued().len() + 1 && final(self).queued().drop_last() == old(self).queued()
                    && (final(self).queued().last() matches Msg::Login(a, l) && a == addr
                    && l.height == (h as u16) as i16 && l.width == (w as u16) as i16 && l.name@
                    == decode_utf8(name) && l.password@ == decode_utf8(pw) && l.version@
                    == decode_utf8(ver)) && final(self).pending_input() == old(self).pending_input().skip(4 + c),
                None => false,
            },
    {
        match self.poll_login(number) {
            LoginPoll::Ready(login) => {
                let ghost q = self.input@;
                self.input.push(Msg::Login(addr, login));
                assert(self.input@.drop_last() =~= q);
            },
            LoginPoll::Closed => {
                return true;
            },
            LoginPoll::NotReady => {},
        }
        self.logged_in = true;
        false
    }

    /// Hands on the oldest queued message; when none is queued the stream
    /// has ended if the connection was closed, and is not ready otherwise.
    pub fn next_message(&mut self, sock_closed: bool) -> (r: Polled<Option<Msg>>)
        ensures
            final(self).output() == old(self).output(),
            final(self).pending_input() == old(self).pending_input(),
            final(self).is_logged_in() == old(self).is_logged_in(),
            old(self).queued().len() > 0 ==> r == Polled::Ready(Some(old(self).queued()[0]))
                && final(self).queued() == old(self).queued().drop_first(),
            old(self).queued().len() == 0 ==> final(self).queued() == old(self).queued() && (if sock_closed {
                r == Polled::<Option<Msg>>::Ready(None)
            } else {
                r is NotReady
            }),
    {
        if self.input.len() > 0 {
            let msg = self.input.remove(0);
            assert(self.input@ =~= old(self).queued().drop_first());
            return Polled::Ready(Some(msg));
        }
        if sock_closed {
            Polled::Ready(None)
        } else {
            Polled::NotReady
        }
    }

    /// Encodes a message for the client onto the output. `image_data` holds
    /// the bytes of the image file an `Image` message names, or `None` when
    /// it could not be read (then nothing is written for it). Returns `false`,
    /// writing nothing, only when the output would outgrow `usize`.
    pub fn buffer(&mut self, message: Msg, image_data: Option<Vec<u8>>) -> (written: bool)
        requires
            handled(message),
            encodable(message, opt_bytes(image_data)),
        ensures
            final(self).pending_input() == old(self).pending_input(),
            final(self).queued() == old(self).queued(),
            final(self).is_logged_in() == old(self).is_logged_in(),
            ({
                let data = opt_bytes(image_data);
                &&& written <==> old(self).output().len() + message_bytes(message, data, 0).len()
                    <= usize::MAX
                &&& !written ==> final(self).output() == old(self).output()
                &&& written ==> exists|sec: i64, nsec: i32|
                    0 <= nsec < 1_000_000_000 && final(self).output() == old(self).output()
                        + message_bytes(message, data, timestamp_millis(sec, nsec))
            }),
    {
        let ghost data = opt_bytes(image_data);
        let (sec, nsec) = clock_now();
        let m: Vec<u8> = match message {
            Msg::TextOutput(result, message) => Codec::text_out_message(result, message.as_str()),
            Msg::Shout(msg) => Codec::text_out_message(4, msg.as_str()),
            Msg::LoginResult(result, message) => Codec::conn_result_message(result, message.as_str()),
            Msg::Name(name) => Codec::stat_name_message(name.as_str()),
            Msg::Quit => Codec::quit_message(),
            Msg::Image(img) => match image_data {
                Some(d) => Codec::image_message(img.as_str(), d.as_slice(), sec, nsec),
                None => Vec::new(),
            },
            Msg::Hp(amount) => Codec::stat_message(Stat::Hp, amount),
            Msg::Mana(amount) => Codec::stat_message(Stat::Sp, amount),
            Msg::Gold(amount) => Codec::stat_message(Stat::Gold, amount),
            Msg::Xp(amount) => Codec::stat_message(Stat::Xp, amount),
            Msg::Tile(tile, path) => Codec::tile_message(tile, path.as_str(), sec, nsec),
            Msg::TileMapping(map) => Codec::tile_mappings_message(&map),
            _ => Vec::new(),
        };
        assert(m@ == message_bytes(message, data, timestamp_millis(sec, nsec)));
        assert(message_bytes(message, data, timestamp_millis(sec, nsec)).len() == message_bytes(
            message,
            data,
            0,
        ).len());
        let out_len = bytes_len(&self.output_buffer);
        if m.len() > usize::MAX - out_len {
            return false;
        }
        self.append_output(&m);
        true
    }

    /// Bytes waiting to be written, as a vector.
    pub fn output_bytes(&self) -> (v: Vec<u8>)
        ensures
            v@ == self.output(),
    {
        bytes_to_vec(&self.output_buffer)
    }

    /// Number of bytes waiting to be written.
    pub fn output_len(&self) -> (n: usize)
        ensures
            n == self.output().len(),
    {
        bytes_len(&self.output_buffer)
    }

    /// Drops the first `n` bytes of the output, once they have been written
    /// to the client.
    pub fn consume_output(&mut self, n: usize)
        requires
            n <= old(self).output().len(),
        ensures
            final(self).output() == old(self).output().skip(n as int),
            final(self).pending_input() == old(self).pending_input(),
            final(self).queued() == old(self).queued(),
            final(self).is_logged_in() == old(self).is_logged_in(),
    {
        let _ = bytes_split_to(&mut self.output_buffer, n);
    }

    fn append_output(&mut self, m: &Vec<u8>)
        requires
            old(self).output().len() + m@.len() <= usize::MAX,
        ensures
            final(self).output() == old(self).output() + m@,
            final(self).pending_input() == old(self).pending_input(),
            final(self).queued() == old(self).queued(),
            final(self).is_logged_in() == old(self).is_logged_in(),
    {
        bytes_extend(&mut self.output_buffer, m.as_slice());
    }

    fn conn_result_message(result: u8, message: &str) -> (m: Vec<u8>)
        ensures
            m@ == conn_result_msg(result, message@),
    {
        let mut conn: Vec<u8> = Vec::new();
        Codec::write_header(&mut conn, 2, 5);
        //major version
        Codec::write_i16(&mut conn, 1);
        //minor version
        Codec::write_i16(&mut conn, 1);
        conn.push(result);
        if result == 4 {
            push_bytes(&mut conn, message.as_bytes());
        }
        proof {
            assert(conn@ =~= conn_result_msg(result, message@));
        }
        conn
    }

    /// Writes the connection result.
    pub fn write_conn_result(&mut self, result: u8, message: &str)
        requires
            old(self).output().len() + conn_result_msg(result, message@).len() <= usize::MAX,
        ensures
            final(self).output() == old(self).output() + conn_result_msg(result, message@),
    {
        let m = Codec::conn_result_message(result, message);
        self.append_output(&m);
    }

    fn quit_message() -> (m: Vec<u8>)
        ensures
            m@ == quit_msg(),
    {
        let mut q: Vec<u8> = Vec::new();
        Codec::write_header(&mut q, 13, 0);
        assert(q@ =~= quit_msg());
        q
    }

    /// Writes the quit indication.
    pub fn write_quit(&mut self)
        requires
            old(self).output().len() + 4 <= usize::MAX,
        ensures
            final(self).output() == old(self).output() + quit_msg(),
    {
        let m = Codec::quit_message();
        self.append_output(&m);
    }

    fn text_out_message(style: u8, message: &str) -> (m: Vec<u8>)
        requires
            blen(message@) + 3 <= usize::MAX,
        ensures
            m@ == text_out_msg(style, message@),
    {
        let mut m: Vec<u8> = Vec::new();
        let len = message.as_bytes().len();
        Codec::write_header(&mut m, 11, (len + 3) as i32);
        m.push(style);
        Codec::write_string(&mut m, message);
        assert(m@ =~= text_out_msg(style, message@));
        m
    }

    /// Writes a line of text.
    pub fn write_text_out(&mut self, style: u8, message: &str)
        requires
            blen(message@) + 3 <= usize::MAX,
            old(self).output().len() + text_out_msg(style, message@).len() <= usize::MAX,
        ensures
            final(self).output() == old(self).output() + text_out_msg(style, message@),
    {
        let m = Codec::text_out_message(style, message);
        self.append_output(&m);
    }

    fn stat_name_message(name: &str) -> (m: Vec<u8>)
        requires
            2 + (blen(name@) as i32) <= i32::MAX,
        ensures
            m@ == stat_name_msg(name@),
    {
        let mut n: Vec<u8> = Vec::new();
        let len = name.as_bytes().len();
        Codec::write_header(&mut n, 106, 2 + len as i32);
        Codec::write_string(&mut n, name);
        assert(n@ =~= stat_name_msg(name@));
        n
    }

    /// Writes the player's name.
    pub fn write_stat_name(&mut self, name: &str)
        requires
            2 + (blen(name@) as i32) <= i32::MAX,
            old(self).output().len() + stat_name_msg(name@).len() <= usize::MAX,
        ensures
            final(self).output() == old(self).output() + stat_name_msg(name@),
    {
        let m = Codec::stat_name_message(name);
        self.append_output(&m);
    }

    fn stat_message(stat: Stat, amount: i32) -> (m: Vec<u8>)
        ensures
            m@ == stat_msg(stat, amount),
    {
        let mut n: Vec<u8> = Vec::new();
        let rpc_code: u8 = match stat {
            Stat::Hp => 100,
            Stat::Sp => 101,
            Stat::Xp => 102,
            Stat::Gold => 104,
        };
        Codec::write_header(&mut n, rpc_code, 4);
        Codec::write_i32(&mut n, amount);
        assert(n@ =~= stat_msg(stat, amount));
        n
    }

    /// Writes one stat.
    pub fn write_stat(&mut self, stat: Stat, amount: i32)
        requires
            old(self).output().len() + 8 <= usize::MAX,
        ensures
            final(self).output() == old(self).output() + stat_msg(stat, amount),
    {
        let m = Codec::stat_message(stat, amount);
        self.append_output(&m);
    }

    fn stat_level_message(level: u8, xp: i32) -> (m: Vec<u8>)
        ensures
            m@ == stat_level_msg(level, xp),
    {
        let mut n: Vec<u8> = Vec::new();
        Codec::write_header(&mut n, 105, 5);
        n.push(level);
        Codec::write_i32(&mut n, xp);
        assert(n@ =~= stat_level_msg(level, xp));
        n
    }

    /// Writes level and experience.
    pub fn write_stat_level(&mut self, level: u8, xp: i32)
        requires
            old(self).output().len() + 9 <= usize::MAX,
        ensures
            final(self).output() == old(self).output() + stat_level_msg(level, xp),
    {
        let m = Codec::stat_level_message(level, xp);
        self.append_output(&m);
    }

    /// Writes all stats at once.
    pub fn write_stat_all(
        &mut self,
        hp: i32,
        mhp: i32,
        sp: i32,
        msp: i32,
        level: i32,
        xp: i32,
        nxp: i32,
        food: i32,
        mfood: i32,
    )
        requires
            old(self).output().len() + 40 <= usize::MAX,
        ensures
            final(self).output() == old(self).output() + stat_all_msg(
                seq![hp, mhp, sp, msp, level, xp, nxp, food, mfood],
            ),
    {
        let mut n: Vec<u8> = Vec::new();
        Codec::write_header(&mut n, 120, 36);
        Codec::write_i32(&mut n, hp);
        Codec::write_i32(&mut n, mhp);
        Codec::write_i32(&mut n, sp);
        Codec::write_i32(&mut n, msp);
        Codec::write_i32(&mut n, level);
        Codec::write_i32(&mut n, xp);
        Codec::write_i32(&mut n, nxp);
        Codec::write_i32(&mut n, food);
        Codec::write_i32(&mut n, mfood);
        assert(n@ =~= stat_all_msg(seq![hp, mhp, sp, msp, level, xp, nxp, food, mfood]));
        self.append_output(&n);
    }

    fn item_add_message(code: u8, name: &str, commands: &str, tile: i16, index: i16, offsets: i16) -> (m: Vec<u8>)
        requires
            10 + blen(name@) + blen(commands@) <= usize::MAX,
        ensures
            m@ == item_add_msg(code, name@, commands@, tile, index, offsets),
    {
        let mut n: Vec<u8> = Vec::new();
        let nl = name.as_bytes().len();
        let cl = commands.as_bytes().len();
        Codec::write_header(&mut n, code, (10 + nl + cl) as i32);
        Codec::write_string(&mut n, name);
        Codec::write_string(&mut n, commands);
        Codec::write_i16(&mut n, tile);
        Codec::write_i16(&mut n, index);
        Codec::write_i16(&mut n, offsets);
        assert(n@ =~= item_add_msg(code, name@, commands@, tile, index, offsets));
        n
    }

    /// Writes an item lying on the ground.
    pub fn write_ground_add(&mut self, name: &str, commands: &str, tile: i16, index: i16, offsets: i16)
        requires
            10 + blen(name@) + blen(commands@) <= usize::MAX,
            old(self).output().len() + item_add_msg(80, name@, commands@, tile, index, offsets).len()
                <= usize::MAX,
        ensures
            final(self).output() == old(self).output() + item_add_msg(
                80,
                name@,
                commands@,
                tile,
                index,
                offsets,
            ),
    {
        let m = Codec::item_add_message(80, name, commands, tile, index, offsets);
        self.append_output(&m);
    }

    /// Writes an item in the inventory.
    pub fn write_inv_add(&mut self, name: &str, commands: &str, tile: i16, index: i16, offsets: i16)
        requires
            10 + blen(name@) + blen(commands@) <= usize::MAX,
            old(self).output().len() + item_add_msg(70, name@, commands@, tile, index, offsets).len()
                <= usize::MAX,
        ensures
            final(self).output() == old(self).output() + item_add_msg(
                70,
                name@,
                commands@,
                tile,
                index,
                offsets,
            ),
    {
        let m = Codec::item_add_message(70, name, commands, tile, index, offsets);
        self.append_output(&m);
    }

    /// Writes a clock reading as milliseconds since the epoch.
    pub fn write_timestamp_at(vec: &mut Vec<u8>, sec: i64, nsec: i32)
        requires
            0 <= nsec < 1_000_000_000,
        ensures
            final(vec)@ == old(vec)@ + be64(timestamp_millis(sec, nsec) as u64),
    {
        let mut milli = sec.wrapping_mul(1000);
        milli = milli.wrapping_add(nsec as i64 / 1000000);
        Codec::write_i64(vec, milli);
    }

    /// Writes the current time as milliseconds since the epoch.
    pub fn write_timestamp(vec: &mut Vec<u8>)
        ensures
            exists|sec: i64, nsec: i32|
                0 <= nsec < 1_000_000_000 && final(vec)@ == old(vec)@ + be64(
                    timestamp_millis(sec, nsec) as u64,
                ),
    {
        let (sec, nsec) = clock_now();
        Codec::write_timestamp_at(vec, sec, nsec);
    }

    fn tile_message(tile: i16, path: &str, sec: i64, nsec: i32) -> (m: Vec<u8>)
        requires
            12 + (blen(path@) as i32) <= i32::MAX,
            0 <= nsec < 1_000_000_000,
        ensures
            m@ == tile_msg(tile, path@, timestamp_millis(sec, nsec)),
    {
        let mut buf: Vec<u8> = Vec::new();
        let len = path.as_bytes().len();
        Codec::write_header(&mut buf, 16, 12 + len as i32);
        Codec::write_i16(&mut buf, tile);
        Codec::write_string(&mut buf, path);
        Codec::write_timestamp_at(&mut buf, sec, nsec);
        assert(buf@ =~= tile_msg(tile, path@, timestamp_millis(sec, nsec)));
        buf
    }

    /// Writes a tile's image path with the current time.
    pub fn write_tile(&mut self, tile: i16, path: &str)
        requires
            12 + (blen(path@) as i32) <= i32::MAX,
            old(self).output().len() + blen(path@) + 16 <= usize::MAX,
        ensures
            exists|sec: i64, nsec: i32|
                0 <= nsec < 1_000_000_000 && final(self).output() == old(self).output() + tile_msg(
                    tile,
                    path@,
                    timestamp_millis(sec, nsec),
                ),
    {
        let (sec, nsec) = clock_now();
        let m = Codec::tile_message(tile, path, sec, nsec);
        self.append_output(&m);
    }

    fn image_message(image: &str, data: &[u8], sec: i64, nsec: i32) -> (m: Vec<u8>)
        requires
            blen(image@) + 4 + data@.len() + 8 <= usize::MAX,
            0 <= nsec < 1_000_000_000,
        ensures
            m@ == image_msg(image@, data@, timestamp_millis(sec, nsec)),
    {
        let mut d: Vec<u8> = Vec::new();
        let il = image.as_bytes().len();
        let len = data.len();
        Codec::write_header(&mut d, 17, (il + 4 + len + 8) as i32);
        Codec::write_string(&mut d, image);
        Codec::write_i32(&mut d, len as i32);
        push_bytes(&mut d, data);
        Codec::write_timestamp_at(&mut d, sec, nsec);
        assert(d@ =~= image_msg(image@, data@, timestamp_millis(sec, nsec)));
        d
    }

    /// Writes an image whose file the caller read (`data`), with the
    /// current time. When the file could not be read (`None`), nothing is
    /// written.
    pub fn write_image(&mut self, image: &str, data: Option<Vec<u8>>)
        requires
            data matches Some(d) ==> blen(image@) + 4 + d@.len() + 8 <= usize::MAX
                && old(self).output().len() + blen(image@) + d@.len() + 22 <= usize::MAX,
        ensures
            data is None ==> final(self).output() == old(self).output(),
            data matches Some(d) ==> exists|sec: i64, nsec: i32|
                0 <= nsec < 1_000_000_000 && final(self).output() == old(self).output()
                    + image_msg(image@, d@, timestamp_millis(sec, nsec)),
    {
        match data {
            Some(d) => {
                let (sec, nsec) = clock_now();
                let m = Codec::image_message(image, d.as_slice(), sec, nsec);
                self.append_output(&m);
            },
            None => {},
        }
    }

    /// Compresses bytes with zlib.
    pub fn zip_data(data: Vec<u8>) -> (r: Vec<u8>)
        ensures
            r@ == zlib_compressed(data@),
    {
        zlib_compress(data.as_slice())
    }

    fn tile_mappings_message(mappings: &StrMap<i16>) -> (m: Vec<u8>)
        ensures
            m@ == tile_mappings_msg(mappings.entries()),
    {
        let mut uncompressed: Vec<u8> = Vec::new();
        let mut i: usize = 0;
        let ghost e = mappings.entries();
        while i < mappings.len()
            invariant
                e == mappings.entries(),
                i <= e.len(),
                uncompressed@ == mappings_body(e.take(i as int)),
            decreases e.len() - i,
        {
            let entry = mappings.entry(i);
            Codec::write_i16(&mut uncompressed, entry.1);
            let trimmed = text::trim(entry.0.as_str());
            Codec::write_string(&mut uncompressed, trimmed.as_str());
            proof {
                let t = e.take(i + 1);
                assert(t.drop_last() =~= e.take(i as int));
                assert(t.last() == e[i as int]);
            }
            i = i + 1;
        }
        assert(e.take(e.len() as int) =~= e);
        let u_len = uncompressed.len();
        let compressed = Codec::zip_data(uncompressed);
        let mut body: Vec<u8> = Vec::new();
        //zipped len
        Codec::write_i32(&mut body, compressed.len() as i32);
        //ulen
        Codec::write_i32(&mut body, u_len as i32);
        //zipped contents
        push_bytes(&mut body, compressed.as_slice());
        let total = body.len();
        let mut tile: Vec<u8> = Vec::new();
        Codec::write_header(&mut tile, 8, total as i32);
        push_bytes(&mut tile, body.as_slice());
        assert(tile@ =~= tile_mappings_msg(e));
        tile
    }

    /// Writes the tile mappings, compressed.
    pub fn write_tile_mappings(&mut self, mappings: StrMap<i16>)
        requires
            old(self).output().len() + tile_mappings_msg(mappings.entries()).len() <= usize::MAX,
        ensures
            final(self).output() == old(self).output() + tile_mappings_msg(mappings.entries()),
    {
        let m = Codec::tile_mappings_message(&mappings);
        self.append_output(&m);
    }

    /// Writes a message header.
    pub fn write_header(vec: &mut Vec<u8>, code: u8, length: i32)
        ensures
            final(vec)@ == old(vec)@ + header(code, length),
    {
        vec.push(code);
        let high = length & 0xff0000;
        vec.push((high >> 16) as u8);
        let mid = length & 0xff00;
        vec.push((mid >> 8) as u8);
        let low = length & 0xff;
        vec.push(low as u8);
        proof {
            let u = length as u32;
            assert(((length & 0xff0000) >> 16i32) as u8 == (u >> 16u32) as u8) by (bit_vector)
                requires
                    u == length as u32,
            ;
            assert(((length & 0xff00) >> 8i32) as u8 == (u >> 8u32) as u8) by (bit_vector)
                requires
                    u == length as u32,
            ;
            assert((length & 0xff) as u8 == u as u8) by (bit_vector)
                requires
                    u == length as u32,
            ;
            assert(header(code, length) =~= seq![code, (u >> 16u32) as u8, (u >> 8u32) as u8, u as u8]);
        }
    }

    /// Writes a length-prefixed UTF-8 string.
    pub fn write_string(vec: &mut Vec<u8>, string: &str)
        ensures
            final(vec)@ == old(vec)@ + wire_string(string@),
    {
        let bytes = string.as_bytes();
        let len = bytes.len();
        let high = len & 0xff00;
        vec.push((high >> 8) as u8);
        let low = len & 0xff;
        vec.push(low as u8);
        push_bytes(vec, bytes);
        proof {
            let w = (len % 0x10000) as u16;
            assert(((len & 0xff00) >> 8usize) as u8 == (w >> 8u16) as u8) by (bit_vector)
                requires
                    w == (len % 0x10000) as u16,
            ;
            assert((len & 0xff) as u8 == w as u8) by (bit_vector)
                requires
                    w == (len % 0x10000) as u16,
            ;
            assert(len == utf8(string@).len());
        }
    }

    /// Writes a 16-bit value, big-endian.
    pub fn write_i16(vec: &mut Vec<u8>, short: i16)
        ensures
            final(vec)@ == old(vec)@ + be16(short as u16),
    {
        let high = short as u16 & 0xff00;
        vec.push((high >> 8) as u8);
        let low = short & 0xff;
        vec.push(low as u8);
        proof {
            let u = short as u16;
            assert(((u & 0xff00) >> 8u16) as u8 == (u >> 8u16) as u8) by (bit_vector);
            assert((short & 0xff) as u8 == u as u8) by (bit_vector)
                requires
                    u == short as u16,
            ;
        }
    }

    /// Writes a 16-bit value, little-endian.
    pub fn write_i16_reversed(vec: &mut Vec<u8>, short: i16)
        ensures
            final(vec)@ == old(vec)@ + seq![(short as u16) as u8, ((short as u16) >> 8u16) as u8],
    {
        let low = short & 0xff;
        vec.push(low as u8);
        let high = short as u16 & 0xff00;
        vec.push((high >> 8) as u8);
        proof {
            let u = short as u16;
            assert(((u & 0xff00) >> 8u16) as u8 == (u >> 8u16) as u8) by (bit_vector);
            assert((short & 0xff) as u8 == u as u8) by (bit_vector)
                requires
                    u == short as u16,
            ;
        }
    }

    /// Writes a 32-bit value, big-endian.
    pub fn write_i32(vec: &mut Vec<u8>, val: i32)
        ensures
            final(vec)@ == old(vec)@ + be32(val as u32),
    {
        let high = val as u32 & 0xff000000;
        vec.push((high >> 24) as u8);
        let mid_high = val & 0xff0000;
        vec.push((mid_high >> 16) as u8);
        let mid_low = val & 0xff00;
        vec.push((mid_low >> 8) as u8);
        let low = val & 0xff;
        vec.push(low as u8);
        proof {
            let u = val as u32;
            assert(((u & 0xff000000) >> 24u32) as u8 == (u >> 24u32) as u8) by (bit_vector);
            assert(((val & 0xff0000) >> 16i32) as u8 == (u >> 16u32) as u8) by (bit_vector)
                requires
                    u == val as u32,
            ;
            assert(((val & 0xff00) >> 8i32) as u8 == (u >> 8u32) as u8) by (bit_vector)
                requires
                    u == val as u32,
            ;
            assert((val & 0xff) as u8 == u as u8) by (bit_vector)
                requires
                    u == val as u32,
            ;
        }
    }

    /// Writes a 32-bit value, little-endian.
    pub fn write_i32_reversed(vec: &mut Vec<u8>, val: i32)
        ensures
            final(vec)@ == old(vec)@ + be32(val as u32).reverse(),
    {
        let low = val & 0xff;
        vec.push(low as u8);
        let mid_low = val & 0xff00;
        vec.push((mid_low >> 8) as u8);
        let mid_high = val & 0xff0000;
        vec.push((mid_high >> 16) as u8);
        let high = val as u32 & 0xff000000;
        vec.push((high >> 24) as u8);
        proof {
            let u = val as u32;
            assert(((u & 0xff000000) >> 24u32) as u8 == (u >> 24u32) as u8) by (bit_vector);
            assert(((val & 0xff0000) >> 16i32) as u8 == (u >> 16u32) as u8) by (bit_vector)
                requires
                    u == val as u32,
            ;
            assert(((val & 0xff00) >> 8i32) as u8 == (u >> 8u32) as u8) by (bit_vector)
                requires
                    u == val as u32,
            ;
            assert((val & 0xff) as u8 == u as u8) by (bit_vector)
                requires
                    u == val as u32,
            ;
            assert(be32(u).reverse() =~= seq![u as u8, (u >> 8u32) as u8, (u >> 16u32) as u8, (u >> 24u32) as u8]);
        }
    }

    /// Writes a 64-bit value, big-endian.
    pub fn write_i64(vec: &mut Vec<u8>, val: i64)
        ensures
            final(vec)@ == old(vec)@ + be64(val as u64),
    {
        let very_high = val as u64 & 0xff00000000000000;
        vec.push((very_high >> 56) as u8);
        let very_mid_high = val & 0xff000000000000;
        vec.push((very_mid_high >> 48) as u8);
        let very_mid_low = val & 0xff0000000000;
        vec.push((very_mid_low >> 40) as u8);
        let very_low = val & 0xff00000000;
        vec.push((very_low >> 32) as u8);
        let high = val & 0xff000000;
        vec.push((high >> 24) as u8);
        let mid_high = val & 0xff0000;
        vec.push((mid_high >> 16) as u8);
        let mid_low = val & 0xff00;
        vec.push((mid_low >> 8) as u8);
        let low = val & 0xff;
        vec.push(low as u8);
        proof {
            let u = val as u64;
            assert(((u & 0xff00000000000000) >> 56u64) as u8 == (u >> 56u64) as u8) by (bit_vector);
            assert(((val & 0xff000000000000) >> 48i64) as u8 == (u >> 48u64) as u8) by (bit_vector)
                requires
                    u == val as u64,
            ;
            assert(((val & 0xff0000000000) >> 40i64) as u8 == (u >> 40u64) as u8) by (bit_vector)
                requires
                    u == val as u64,
            ;
            assert(((val & 0xff00000000) >> 32i64) as u8 == (u >> 32u64) as u8) by (bit_vector)
                requires
                    u == val as u64,
            ;
            assert(((val & 0xff000000) >> 24i64) as u8 == (u >> 24u64) as u8) by (bit_vector)
                requires
                    u == val as u64,
            ;
            assert(((val & 0xff0000) >> 16i64) as u8 == (u >> 16u64) as u8) by (bit_vector)
                requires
                    u == val as u64,
            ;
            assert(((val & 0xff00) >> 8i64) as u8 == (u >> 8u64) as u8) by (bit_vector)
                requires
                    u == val as u64,
            ;
            assert((val & 0xff) as u8 == u as u8) by (bit_vector)
                requires
                    u == val as u64,
            ;
        }
    }
}

} // verus!
