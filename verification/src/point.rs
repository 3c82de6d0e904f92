//! Decoding of fixed-width wire records into points, and the inverse mapping.
//!
//! A record is 8 bytes `[xa, xb, ya, yb, r, g, b, reserved]`.  The pairs
//! `(xa, xb)` and `(ya, yb)` are the low and high bytes of a 16-bit signed
//! coordinate; each colour byte is a signed byte shifted into `[0, 255]` by
//! flipping its sign bit; the colour is packed as `0x00BBGGRR`.

use vstd::prelude::*;

verus! {

/// A single laser point in device form: 16-bit signed coordinates and a
/// packed `0x00BBGGRR` colour.  Decoded points carry zero in every auxiliary
/// field.
#[derive(Clone, Copy, PartialEq, Eq, Structural, Debug)]
pub struct Point {
    pub x: i16,
    pub y: i16,
    pub color: u32,
    pub repeat_count: u8,
    pub focus: u8,
    pub status: u8,
    pub reserved: u8,
}

/// The value of a byte read as a two's-complement signed byte.
pub open spec fn signed_byte(b: u8) -> int {
    if b < 128 {
        b as int
    } else {
        b as int - 256
    }
}

/// Flip the sign bit of a byte: maps a signed byte to its offset-binary
/// form and back.  An involution.
pub open spec fn flip_sign_bit(b: u8) -> u8 {
    if b < 128 {
        (b + 128) as u8
    } else {
        (b - 128) as u8
    }
}

/// The 16-bit signed value whose low byte is `lo` and high byte is `hi`.
pub open spec fn word_from_bytes(lo: u8, hi: u8) -> int {
    signed_byte(hi) * 256 + lo as int
}

/// Colour channels packed as `0x00BBGGRR`: blue high, red low.
pub open spec fn pack_color_spec(r: u8, g: u8, b: u8) -> int {
    b as int * 65536 + g as int * 256 + r as int
}

/// The point encoded by one 8-byte record.
pub open spec fn decode_record_spec(rec: Seq<u8>) -> Point
    recommends
        rec.len() == 8,
{
    Point {
        x: word_from_bytes(rec[0], rec[1]) as i16,
        y: word_from_bytes(rec[2], rec[3]) as i16,
        color: pack_color_spec(
            flip_sign_bit(rec[4]),
            flip_sign_bit(rec[5]),
            flip_sign_bit(rec[6]),
        ) as u32,
        repeat_count: 0,
        focus: 0,
        status: 0,
        reserved: 0,
    }
}

/// Low byte of the two's-complement encoding of a 16-bit value.
pub open spec fn encode_lo(v: i16) -> u8 {
    ((v as int + 32768) % 256) as u8
}

/// High byte of the two's-complement encoding of a 16-bit value.
pub open spec fn encode_hi(v: i16) -> u8 {
    flip_sign_bit(((v as int + 32768) / 256) as u8)
}

/// The 8-byte record that a point decodes from: the inverse of
/// `decode_record_spec` up to the reserved byte, which is written as zero.
pub open spec fn encode_point_spec(p: Point) -> Seq<u8> {
    seq![
        encode_lo(p.x),
        encode_hi(p.x),
        encode_lo(p.y),
        encode_hi(p.y),
        flip_sign_bit((p.color as int % 256) as u8),
        flip_sign_bit((p.color as int / 256 % 256) as u8),
        flip_sign_bit((p.color as int / 65536 % 256) as u8),
        0u8,
    ]
}

/// A point is in decoded form when its colour fits 24 bits and every
/// auxiliary field is zero: exactly the points `decode_record_spec` produces.
pub open spec fn decoded_form(p: Point) -> bool {
    &&& p.color < 16777216
    &&& p.repeat_count == 0
    &&& p.focus == 0
    &&& p.status == 0
    &&& p.reserved == 0
}

/// Flip the sign bit of a byte.
pub fn flip_high(b: u8) -> (r: u8)
    ensures
        r == flip_sign_bit(b),
{
    if b < 128 {
        b + 128
    } else {
        b - 128
    }
}

/// Pack three colour channels as `0x00BBGGRR`.
pub fn pack_color(r: u8, g: u8, b: u8) -> (c: u32)
    ensures
        c == pack_color_spec(r, g, b),
        c < 16777216,
{
    b as u32 * 65536 + g as u32 * 256 + r as u32
}

/// Decode the 8-byte record starting at `off` in `payload`.
pub fn decode_record(payload: &Vec<u8>, off: usize) -> (p: Point)
    requires
        off + 8 <= payload@.len(),
    ensures
        p == decode_record_spec(payload@.subrange(off as int, off as int + 8)),
        decoded_form(p),
{
    // bind the length so the verifier sees every offset fits in usize
    let _len: usize = payload.len();
    let xa = payload[off];
    let xb = payload[off + 1];
    let ya = payload[off + 2];
    let yb = payload[off + 3];
    let r = payload[off + 4];
    let g = payload[off + 5];
    let b = payload[off + 6];

    let x = decode_word(xa, xb);
    let y = decode_word(ya, yb);
    let color = pack_color(flip_high(r), flip_high(g), flip_high(b));

    let p = Point { x, y, color, repeat_count: 0, focus: 0, status: 0, reserved: 0 };
    proof {
        let rec = payload@.subrange(off as int, off as int + 8);
        assert(rec[0] == xa && rec[1] == xb && rec[2] == ya && rec[3] == yb);
        assert(rec[4] == r && rec[5] == g && rec[6] == b);
    }
    p
}

/// Assemble the 16-bit signed value with low byte `lo` and high byte `hi`.
pub fn decode_word(lo: u8, hi: u8) -> (v: i16)
    ensures
        v as int == word_from_bytes(lo, hi),
{
    let hs: i16 = if hi >= 128 {
        hi as i16 - 256
    } else {
        hi as i16
    };
    hs * 256 + lo as i16
}

/// Encode a point back into its 8-byte record, with a zero reserved byte.
pub fn encode_point(p: &Point) -> (rec: Vec<u8>)
    ensures
        rec@ == encode_point_spec(*p),
{
    let xu: u32 = (p.x as i32 + 32768) as u32;
    let yu: u32 = (p.y as i32 + 32768) as u32;
    let mut rec: Vec<u8> = Vec::new();
    rec.push((xu % 256) as u8);
    rec.push(flip_high((xu / 256) as u8));
    rec.push((yu % 256) as u8);
    rec.push(flip_high((yu / 256) as u8));
    rec.push(flip_high((p.color % 256) as u8));
    rec.push(flip_high((p.color / 256 % 256) as u8));
    rec.push(flip_high((p.color / 65536 % 256) as u8));
    rec.push(0u8);
    proof {
        assert(xu / 256 < 256 && yu / 256 < 256) by (nonlinear_arith)
            requires
                xu <= 65535 && yu <= 65535,
        ;
        assert(rec@ =~= encode_point_spec(*p));
    }
    rec
}

/// Decoding a record and re-encoding the decoded point recovers the record,
/// except for the reserved byte, which re-encodes as zero.
pub proof fn lemma_record_round_trip(rec: Seq<u8>)
    requires
        rec.len() == 8,
    ensures
        encode_point_spec(decode_record_spec(rec)) =~= rec.update(7, 0u8),
{
    let p = decode_record_spec(rec);
    lemma_word_round_trip(rec[0], rec[1]);
    lemma_word_round_trip(rec[2], rec[3]);
    lemma_color_round_trip(rec[4], rec[5], rec[6]);
}

/// Re-encoding the coordinate word assembled from `(lo, hi)` recovers both
/// bytes.
proof fn lemma_word_round_trip(lo: u8, hi: u8)
    ensures
        encode_lo(word_from_bytes(lo, hi) as i16) == lo,
        encode_hi(word_from_bytes(lo, hi) as i16) == hi,
{
    let w = word_from_bytes(lo, hi);
    assert(-32768 <= w <= 32767);
    let v = (w as i16) as int + 32768;
    assert(v == (signed_byte(hi) + 128) * 256 + lo);
    assert(signed_byte(hi) + 128 == flip_sign_bit(hi));
    assert(v == flip_sign_bit(hi) as int * 256 + lo);
    assert(v % 256 == lo && v / 256 == flip_sign_bit(hi)) by (nonlinear_arith)
        requires
            v == flip_sign_bit(hi) as int * 256 + lo,
            flip_sign_bit(hi) < 256,
            lo < 256,
    ;
    assert(flip_sign_bit(flip_sign_bit(hi)) == hi);
}

/// Unpacking the packed colour recovers each raw colour byte.
proof fn lemma_color_round_trip(r: u8, g: u8, b: u8)
    ensures
        flip_sign_bit((pack_color_spec(flip_sign_bit(r), flip_sign_bit(g), flip_sign_bit(b)) % 256) as u8) == r,
        flip_sign_bit((pack_color_spec(flip_sign_bit(r), flip_sign_bit(g), flip_sign_bit(b)) / 256 % 256) as u8) == g,
        flip_sign_bit((pack_color_spec(flip_sign_bit(r), flip_sign_bit(g), flip_sign_bit(b)) / 65536 % 256) as u8) == b,
{
    let rr = flip_sign_bit(r) as int;
    let gg = flip_sign_bit(g) as int;
    let bb = flip_sign_bit(b) as int;
    let c = bb * 65536 + gg * 256 + rr;
    assert(c % 256 == rr && c / 256 % 256 == gg && c / 65536 % 256 == bb) by (nonlinear_arith)
        requires
            c == bb * 65536 + gg * 256 + rr,
            0 <= rr < 256,
            0 <= gg < 256,
            0 <= bb < 256,
    ;
    assert(flip_sign_bit(flip_sign_bit(r)) == r);
    assert(flip_sign_bit(flip_sign_bit(g)) == g);
    assert(flip_sign_bit(flip_sign_bit(b)) == b);
}

/// Decoding the record a decoded-form point encodes to recovers the point.
pub proof fn lemma_point_round_trip(p: Point)
    requires
        decoded_form(p),
    ensures
        decode_record_spec(encode_point_spec(p)) == p,
{
    let rec = encode_point_spec(p);
    lemma_encode_word_inverse(p.x);
    lemma_encode_word_inverse(p.y);
    let c = p.color as int;
    assert(c / 65536 % 256 == c / 65536) by (nonlinear_arith)
        requires
            0 <= c < 16777216,
    ;
    assert(flip_sign_bit(flip_sign_bit((c % 256) as u8)) == (c % 256) as u8);
    assert(flip_sign_bit(flip_sign_bit((c / 256 % 256) as u8)) == (c / 256 % 256) as u8);
    assert(flip_sign_bit(flip_sign_bit((c / 65536) as u8)) == (c / 65536) as u8);
    assert(pack_color_spec(
        (c % 256) as u8,
        (c / 256 % 256) as u8,
        (c / 65536) as u8,
    ) == c) by (nonlinear_arith)
        requires
            0 <= c < 16777216,
    ;
    assert(decode_record_spec(rec).color == p.color);
}

/// Decoding the two bytes a 16-bit value encodes to recovers the value.
proof fn lemma_encode_word_inverse(v: i16)
    ensures
        word_from_bytes(encode_lo(v), encode_hi(v)) == v as int,
{
    let u = v as int + 32768;
    assert(0 <= u <= 65535);
    let lo = u % 256;
    let hb = u / 256;
    assert(0 <= lo < 256 && 0 <= hb < 256 && u == hb * 256 + lo) by (nonlinear_arith)
        requires
            0 <= u <= 65535,
            lo == u % 256,
            hb == u / 256,
    ;
    assert(encode_lo(v) == lo as u8);
    assert(encode_hi(v) == flip_sign_bit(hb as u8));
    assert(signed_byte(flip_sign_bit(hb as u8)) == hb - 128);
    assert(word_from_bytes(lo as u8, flip_sign_bit(hb as u8)) == (hb - 128) * 256 + lo);
}

} // verus!
