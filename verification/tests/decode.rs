use laser_lattice::codec::decode_payload;
use laser_lattice::codec::DecodeError;
use laser_lattice::point::decode_record;
use laser_lattice::point::decode_word;
use laser_lattice::point::encode_point;
use laser_lattice::point::flip_high;
use laser_lattice::point::pack_color;
use laser_lattice::point::Point;

fn point(x: i16, y: i16, color: u32) -> Point {
    Point { x, y, color, repeat_count: 0, focus: 0, status: 0, reserved: 0 }
}

#[test]
fn decodes_one_record_exactly() {
    // low/high coordinate bytes, then r, g, b, reserved
    let payload = vec![0x01, 0x02, 0xFF, 0xFF, 0x00, 0x7F, 0x80, 0x00];
    let p = decode_record(&payload, 0);
    // x = 2 * 256 + 1, y = -1 * 256 + 255
    assert_eq!(p.x, 513);
    assert_eq!(p.y, -1);
    // channels shift by 128: r = 128, g = 255, b = 0; packed 0x00BBGGRR
    assert_eq!(p.color, 255 * 256 + 128);
    assert_eq!(p.repeat_count, 0);
    assert_eq!(p.focus, 0);
    assert_eq!(p.status, 0);
    assert_eq!(p.reserved, 0);
}

#[test]
fn decodes_extreme_coordinates() {
    // x: lo=0x00 hi=0x80 -> -32768; y: lo=0xFF hi=0x7F -> 32767
    let payload = vec![0x00, 0x80, 0xFF, 0x7F, 0x80, 0x80, 0x80, 0x00];
    let p = decode_record(&payload, 0);
    assert_eq!(p.x, -32768);
    assert_eq!(p.y, 32767);
    // 0x80 flips to 0x00 on every channel
    assert_eq!(p.color, 0);
}

#[test]
fn decode_word_assembles_signed_16_bit() {
    assert_eq!(decode_word(0, 0), 0);
    assert_eq!(decode_word(255, 255), -1);
    assert_eq!(decode_word(0x34, 0x12), 0x1234);
    assert_eq!(decode_word(0, 128), -32768);
}

#[test]
fn pack_color_is_blue_high_red_low() {
    assert_eq!(pack_color(0x11, 0x22, 0x33), 0x0033_2211);
    assert_eq!(pack_color(255, 255, 255), 0x00FF_FFFF);
    assert_eq!(pack_color(0, 0, 0), 0);
}

#[test]
fn flip_high_is_an_involution() {
    for b in [0u8, 1, 127, 128, 200, 255] {
        assert_eq!(flip_high(flip_high(b)), b);
    }
    assert_eq!(flip_high(0), 128);
    assert_eq!(flip_high(255), 127);
}

#[test]
fn record_round_trip_recovers_bytes() {
    let payload = vec![0x01, 0x02, 0xFF, 0xFF, 0x00, 0x7F, 0x80, 0x5A];
    let p = decode_record(&payload, 0);
    let rec = encode_point(&p);
    // every byte returns, except the reserved byte which re-encodes as zero
    assert_eq!(rec, vec![0x01, 0x02, 0xFF, 0xFF, 0x00, 0x7F, 0x80, 0x00]);
}

#[test]
fn point_round_trip_recovers_point() {
    let p = point(-12345, 31000, 0x00A0_5003);
    let rec = encode_point(&p);
    assert_eq!(rec.len(), 8);
    let q = decode_record(&rec, 0);
    assert_eq!(q, p);
}

#[test]
fn decode_payload_splits_records() {
    let mut payload = vec![0x01, 0x02, 0xFF, 0xFF, 0x00, 0x7F, 0x80, 0x00];
    payload.extend_from_slice(&[0x00, 0x00, 0x00, 0x00, 0x80, 0x80, 0x80, 0x00]);
    let pts = decode_payload(&payload).unwrap();
    assert_eq!(pts.len(), 2);
    assert_eq!(pts[0], point(513, -1, 255 * 256 + 128));
    assert_eq!(pts[1], point(0, 0, 0));
}

#[test]
fn decode_payload_accepts_empty() {
    let pts = decode_payload(&Vec::new()).unwrap();
    assert!(pts.is_empty());
}

#[test]
fn decode_payload_rejects_unaligned_length() {
    let payload = vec![0u8; 7];
    assert_eq!(decode_payload(&payload), Err(DecodeError));
    let payload = vec![0u8; 12];
    assert_eq!(decode_payload(&payload), Err(DecodeError));
}
