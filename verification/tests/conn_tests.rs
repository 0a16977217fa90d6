use std::io::Read;

use map_tester::conn::api::{frame_commands, parse_login_record, Codec, LoginPoll, Stat};
use map_tester::conn::{Login, Msg, Polled};
use map_tester::strmap::StrMap;

fn wire(s: &str) -> Vec<u8> {
    let mut v = vec![(s.len() >> 8) as u8, s.len() as u8];
    v.extend_from_slice(s.as_bytes());
    v
}

fn login_record(h: u16, w: u16, name: &str, pw: &str, ver: &str) -> Vec<u8> {
    let mut v = vec![(h >> 8) as u8, h as u8, (w >> 8) as u8, w as u8];
    v.extend(wire(name));
    v.extend(wire(pw));
    v.extend(wire(ver));
    v
}

fn inflate(z: &[u8]) -> Vec<u8> {
    let mut d = flate2::read::ZlibDecoder::new(z);
    let mut out = Vec::new();
    d.read_to_end(&mut out).unwrap();
    out
}

#[test]
fn header_and_numbers_are_big_endian() {
    let mut v = Vec::new();
    Codec::write_header(&mut v, 11, 0x010203);
    assert_eq!(v, vec![11, 1, 2, 3]);
    let mut v = Vec::new();
    Codec::write_i16(&mut v, -2);
    Codec::write_i32(&mut v, 0x01020304);
    Codec::write_i64(&mut v, 1);
    assert_eq!(v, vec![0xff, 0xfe, 1, 2, 3, 4, 0, 0, 0, 0, 0, 0, 0, 1]);
    let mut v = Vec::new();
    Codec::write_i16_reversed(&mut v, 0x0102);
    Codec::write_i32_reversed(&mut v, 0x01020304);
    assert_eq!(v, vec![2, 1, 4, 3, 2, 1]);
    let mut v = Vec::new();
    Codec::write_string(&mut v, "hé");
    assert_eq!(v, vec![0, 3, b'h', 0xc3, 0xa9]);
}

#[test]
fn time_stamp_in_milliseconds() {
    let mut v = Vec::new();
    Codec::write_timestamp_at(&mut v, 2, 345_678_901);
    assert_eq!(v, 2345u64.to_be_bytes().to_vec());
    let mut now = Vec::new();
    Codec::write_timestamp(&mut now);
    assert_eq!(now.len(), 8);
}

#[test]
fn server_messages() {
    let mut c = Codec::new();
    c.write_conn_result(4, "ok");
    assert_eq!(c.output_bytes(), vec![2, 0, 0, 5, 0, 1, 0, 1, 4, b'o', b'k']);
    let mut c = Codec::new();
    c.write_conn_result(3, "ignored");
    assert_eq!(c.output_bytes(), vec![2, 0, 0, 5, 0, 1, 0, 1, 3]);
    let mut c = Codec::new();
    c.write_quit();
    c.write_text_out(3, "hi");
    assert_eq!(c.output_bytes(), vec![13, 0, 0, 0, 11, 0, 0, 5, 3, 0, 2, b'h', b'i']);
    assert_eq!(c.output_len(), 13);
    c.consume_output(4);
    assert_eq!(c.output_bytes(), vec![11, 0, 0, 5, 3, 0, 2, b'h', b'i']);
    let mut c = Codec::new();
    c.write_stat(Stat::Gold, 7);
    c.write_stat_level(2, 300);
    c.write_stat_name("al");
    assert_eq!(
        c.output_bytes(),
        vec![104, 0, 0, 4, 0, 0, 0, 7, 105, 0, 0, 5, 2, 0, 0, 1, 44, 106, 0, 0, 4, 0, 2, b'a', b'l']
    );
}

#[test]
fn stat_all_and_items() {
    let mut c = Codec::new();
    c.write_stat_all(1, 2, 3, 4, 5, 6, 7, 8, 9);
    let out = c.output_bytes();
    assert_eq!(&out[0..4], &[120, 0, 0, 36]);
    assert_eq!(&out[4..8], &[0, 0, 0, 1]);
    assert_eq!(&out[36..40], &[0, 0, 0, 9]);
    let mut c = Codec::new();
    c.write_ground_add("a", "b", 1, 2, 3);
    assert_eq!(c.output_bytes(), vec![80, 0, 0, 12, 0, 1, b'a', 0, 1, b'b', 0, 1, 0, 2, 0, 3]);
    let mut c = Codec::new();
    c.write_inv_add("a", "", -1, 0, 0);
    assert_eq!(c.output_bytes(), vec![70, 0, 0, 11, 0, 1, b'a', 0, 0, 0xff, 0xff, 0, 0, 0, 0]);
}

#[test]
fn tile_and_image_carry_a_time_stamp() {
    let mut c = Codec::new();
    c.write_tile(3, "a.png");
    let out = c.output_bytes();
    assert_eq!(&out[0..4], &[16, 0, 0, 17]);
    assert_eq!(&out[4..13], &[0, 3, 0, 5, b'a', b'.', b'p', b'n', b'g']);
    assert_eq!(out.len(), 21);
    let mut c = Codec::new();
    c.write_image("x", None);
    assert!(c.output_bytes().is_empty());
    c.write_image("x", Some(vec![9, 9]));
    let out = c.output_bytes();
    assert_eq!(&out[0..15], &[17, 0, 0, 15, 0, 1, b'x', 0, 0, 0, 2, 9, 9, 0, 0]);
    assert_eq!(out.len(), 21);
}

#[test]
fn zipped_data_inflates_back() {
    let data = b"grass grass grass grass".to_vec();
    let z = Codec::zip_data(data.clone());
    assert_ne!(z, data);
    assert_eq!(inflate(&z), data);
}

#[test]
fn tile_mappings_are_zipped() {
    let mut m = StrMap::new();
    m.insert("grass".to_string(), 1);
    m.insert("wall ".to_string(), 2);
    let mut c = Codec::new();
    c.write_tile_mappings(m);
    let out = c.output_bytes();
    assert_eq!(out[0], 8);
    let zlen = u32::from_be_bytes([out[4], out[5], out[6], out[7]]) as usize;
    let ulen = u32::from_be_bytes([out[8], out[9], out[10], out[11]]) as usize;
    assert_eq!(out.len(), 12 + zlen);
    let body = inflate(&out[12..]);
    assert_eq!(body.len(), ulen);
    assert_eq!(body, vec![0, 1, 0, 5, b'g', b'r', b'a', b's', b's', 0, 2, 0, 4, b'w', b'a', b'l', b'l']);
}

#[test]
fn buffer_writes_each_message() {
    let mut c = Codec::new();
    assert!(c.buffer(Msg::Hp(5), None));
    assert!(c.buffer(Msg::Shout("yo".to_string()), None));
    assert!(c.buffer(Msg::LoginResult(4, "x".to_string()), None));
    assert_eq!(
        c.output_bytes(),
        vec![100, 0, 0, 4, 0, 0, 0, 5, 11, 0, 0, 5, 4, 0, 2, b'y', b'o', 2, 0, 0, 5, 0, 1, 0, 1, 4, b'x']
    );
    let mut c = Codec::new();
    assert!(c.buffer(Msg::Image("i".to_string()), None));
    assert!(c.output_bytes().is_empty());
}

#[test]
fn command_frames() {
    let mut b = vec![0, 3, b'a', b'b', b'c', 0, 1, b'x', 9, 9];
    let (cmds, used) = frame_commands(&b);
    assert_eq!(cmds, vec![b"abc".to_vec(), b"x".to_vec()]);
    assert_eq!(used, 8);
    // A frame needs two more bytes after it before it is taken.
    b.truncate(8);
    let (cmds, used) = frame_commands(&b);
    assert_eq!(cmds, vec![b"abc".to_vec()]);
    assert_eq!(used, 7);
    let (cmds, used) = frame_commands(&[0, 1]);
    assert!(cmds.is_empty());
    assert_eq!(used, 0);
}

#[test]
fn login_record_reads() {
    let r = login_record(20, 30, "bob", "pw", "1.0");
    let (l, used) = parse_login_record(&r).unwrap();
    assert_eq!((l.height, l.width), (20, 30));
    assert_eq!((l.name.as_str(), l.password.as_str(), l.version.as_str()), ("bob", "pw", "1.0"));
    assert_eq!(used, r.len());
    assert!(parse_login_record(&r[..r.len() - 1]).is_none());
    let bad = login_record(1, 1, "\u{e9}", "", "");
    let mut broken = bad.clone();
    broken[7] = 0xff;
    assert!(parse_login_record(&broken).is_none());
}

#[test]
fn login_then_commands() {
    let mut c = Codec::new();
    let mut bytes = vec![0, 0, 0, 1];
    bytes.extend(login_record(15, 15, "bob", "", "1"));
    let n = bytes.len();
    c.receive(&bytes);
    assert!(c.login_input_readable(n));
    assert!(!c.logged_in());
    assert!(!c.login_step(7, n));
    assert!(c.logged_in());
    match c.next_message(false) {
        Polled::Ready(Some(Msg::Login(addr, l))) => {
            assert_eq!(addr, 7);
            assert_eq!(l.name, "bob");
        },
        _ => panic!("expected a login"),
    }
    assert!(matches!(c.next_message(false), Polled::NotReady));
    assert!(matches!(c.next_message(true), Polled::Ready(None)));

    c.receive(&[0, 4, b's', b'k', b'i', b'n', 0, 0]);
    assert!(c.commands_input_readable());
    assert!(!c.fill_read_buffer(7, 8));
    match c.next_message(false) {
        Polled::Ready(Some(Msg::Command(addr, s))) => {
            assert_eq!(addr, 7);
            assert_eq!(s, "skin");
        },
        _ => panic!("expected a command"),
    }
    assert!(c.fill_read_buffer(7, 0));
}

#[test]
fn poll_login_cases() {
    let mut c = Codec::new();
    assert!(matches!(c.poll_login(0), LoginPoll::Closed));
    assert!(matches!(c.poll_login(5), LoginPoll::NotReady));
    c.receive(&[0, 0, 0, 2, 1, 2, 3, 4, 5, 6, 7, 8, 9, 10, 11, 12, 13, 14]);
    assert!(matches!(c.poll_login(18), LoginPoll::NotReady));
    let mut c = Codec::new();
    let mut bytes = vec![0, 0, 0, 1];
    bytes.extend(login_record(1, 2, "ann", "x", "2"));
    c.receive(&bytes);
    match c.poll_login(bytes.len()) {
        LoginPoll::Ready(l) => assert_eq!((l.height, l.width, l.name.as_str()), (1, 2, "ann")),
        _ => panic!("expected a login"),
    }
}

#[test]
fn login_value() {
    let l = Login::new(1, 2, "a", "b", "c");
    assert_eq!((l.height, l.width), (1, 2));
    assert_eq!(l.version, "c");
}

#[test]
fn a_shout_is_written_as_style_four_text() {
    let text = "x".repeat(300);
    let mut a = Codec::new();
    let mut b = Codec::new();
    assert!(a.buffer(Msg::Shout(text.clone()), None));
    assert!(b.buffer(Msg::TextOutput(4, text.clone()), None));
    let mut expected = vec![11, 0, 1, 47, 4, 1, 44];
    expected.extend_from_slice(text.as_bytes());
    assert_eq!(a.output_bytes(), expected);
    assert_eq!(b.output_bytes(), expected);
}
