use hl::header::{DemoHeader, HEADER_LEN};

fn demo_bytes() -> Vec<u8> {
    let mut b = vec![0u8; HEADER_LEN];
    b[..8].copy_from_slice(b"HL2DEMO\0");
    b[8..12].copy_from_slice(&3i32.to_le_bytes());
    b[12..16].copy_from_slice(&24i32.to_le_bytes());
    b[16..16 + 6].copy_from_slice(b"server");
    b[276..276 + 3].copy_from_slice(&[b'f', 0xE9, b'e']);
    b[536..536 + 12].copy_from_slice(b"pl_upward_f1");
    b[796..796 + 2].copy_from_slice(b"tf");
    b[1056..1060].copy_from_slice(&1800.5f32.to_le_bytes());
    b[1060..1064].copy_from_slice(&119_460i32.to_le_bytes());
    b[1064..1068].copy_from_slice(&(-2i32).to_le_bytes());
    b
}

#[test]
fn a_header_is_read_field_by_field() {
    let h = DemoHeader::parse(&demo_bytes()).unwrap();
    assert_eq!((h.demo_protocol, h.network_protocol), (3, 24));
    assert_eq!(h.server, "server");
    assert_eq!(h.recorder, "f\u{e9}e", "names are read as Latin-1");
    assert_eq!(h.map, "pl_upward_f1");
    assert_eq!(h.game_dir, "tf");
    assert_eq!(f32::from_bits(h.playback_bits), 1800.5);
    assert_eq!(h.ticks, 119_460);
    assert_eq!(h.frames, -2);
}

#[test]
fn a_full_name_field_has_no_terminator() {
    let mut b = demo_bytes();
    for x in &mut b[536..796] {
        *x = b'a';
    }
    assert_eq!(DemoHeader::parse(&b).unwrap().map.len(), 260);
}

#[test]
fn short_or_unmarked_headers_are_refused() {
    let b = demo_bytes();
    assert_eq!(DemoHeader::parse(&b[..100]).unwrap_err(), "demo header truncated: 100 of 1072 bytes");
    let mut bad = b.clone();
    bad[0] = b'X';
    assert_eq!(DemoHeader::parse(&bad).unwrap_err(), "not a Source demo (bad magic)");
}
