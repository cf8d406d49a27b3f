//! Raster encoding: round trips through an independent decoder, and the
//! capacity boundary.

use wg_config::EncodingError;
use wg_config::make_qrcode;

fn decode_png_barcode(png_bytes: &[u8]) -> String {
    let img = image::load_from_memory(png_bytes).unwrap().to_luma8();
    let (w, h) = img.dimensions();
    let mut prepared = rqrr::PreparedImage::prepare_from_greyscale(
        w as usize,
        h as usize,
        |x, y| img.get_pixel(x as u32, y as u32).0[0],
    );
    let grids = prepared.detect_grids();
    assert_eq!(grids.len(), 1);
    let (_meta, content) = grids[0].decode().unwrap();
    content
}

#[test]
fn test_qrcode_round_trip_single_byte() {
    let png = make_qrcode("W").unwrap();
    assert_eq!(decode_png_barcode(&png), "W");
}

#[test]
fn test_qrcode_round_trip_profile_text() {
    let payload = "# Configuration for kr123.nordvpn.com (10.8.0.1) - Seoul, South Korea\n\
                   [Interface]\n\
                   Address = 10.5.0.2/32\n\
                   PrivateKey = USERPRIVKEY=\n\
                   DNS = 103.86.96.100\n\
                   MTU = 1420\n\
                   \n\
                   [Peer]\n\
                   PublicKey = SERVERPUBKEY=\n\
                   AllowedIPs = 0.0.0.0/0, ::/0\n\
                   Endpoint = kr123.nordvpn.com:51820";
    let png = make_qrcode(payload).unwrap();
    assert_eq!(decode_png_barcode(&png), payload);
}

#[test]
fn test_qrcode_deterministic() {
    let a = make_qrcode("same payload").unwrap();
    let b = make_qrcode("same payload").unwrap();
    assert_eq!(a, b);
}

#[test]
fn test_qrcode_mixed_content_within_capacity() {
    // digit runs mixed with letters once tripped segment-size accounting in
    // barcode encoders; the forced byte-mode segment must take them all the
    // way to the capacity bound
    let long = "12345a".repeat(300);
    assert!(make_qrcode(&long).is_ok());
    let short = "12345a".repeat(20);
    let png = make_qrcode(&short).unwrap();
    assert_eq!(decode_png_barcode(&png), short);
}

#[test]
fn test_qrcode_capacity_boundary() {
    let at_capacity = "a".repeat(2331);
    assert!(make_qrcode(&at_capacity).is_ok());
    let beyond = "a".repeat(2332);
    assert_eq!(make_qrcode(&beyond).unwrap_err(), EncodingError::PayloadTooLarge);
}
