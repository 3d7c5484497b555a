use quadimg::compressor::{decode_payload, rgb_to_ycc, ycca_to_rgba, ImgCompressor};
use quadimg::CodecError;

#[test]
fn color_transform_values() {
    // pure red, with the chroma-red clamped at the top of the range
    assert_eq!(rgb_to_ycc((255, 0, 0, 7)), (76, 85, 255, 7));
    // mid gray is a fixed point of the transform
    assert_eq!(rgb_to_ycc((128, 128, 128, 0)), (128, 128, 128, 0));
    assert_eq!(rgb_to_ycc((10, 20, 30, 0)), (18, 135, 122, 0));
}

#[test]
fn color_roundtrip_within_one() {
    for &(r, g, b) in &[
        (10u8, 20u8, 30u8),
        (200, 100, 50),
        (128, 128, 128),
        (0, 0, 0),
        (255, 255, 255),
        (255, 0, 0),
        (0, 255, 0),
        (0, 0, 255),
    ] {
        let (y, cb, cr, _) = rgb_to_ycc((r, g, b, 0));
        let (r2, g2, b2, _) = ycca_to_rgba((y, cb, cr, 0));
        assert!((r2 as i32 - r as i32).abs() <= 1, "red drifted: {r} -> {r2}");
        assert!((g2 as i32 - g as i32).abs() <= 1, "green drifted: {g} -> {g2}");
        assert!((b2 as i32 - b as i32).abs() <= 1, "blue drifted: {b} -> {b2}");
    }
}

#[test]
fn blue_channel_can_overshoot_by_two() {
    // the inverse coefficient 1.772 slightly overshoots the forward
    // 0.501, so one input class comes back two steps high on blue
    let (y, cb, cr, _) = rgb_to_ycc((0, 2, 162, 0));
    assert_eq!(ycca_to_rgba((y, cb, cr, 0)), (0, 2, 164, 0));
}

#[test]
fn alpha_passes_through() {
    assert_eq!(rgb_to_ycc((1, 2, 3, 99)).3, 99);
    assert_eq!(ycca_to_rgba((1, 2, 3, 77)).3, 77);
}

fn solid_image(rank: usize, r: u8, g: u8, b: u8) -> Vec<u8> {
    let mut out = Vec::new();
    for _ in 0..rank * rank {
        out.push(r);
        out.push(g);
        out.push(b);
    }
    out
}

#[test]
fn payload_layout_for_solid_image() {
    let rgb = solid_image(2, 128, 128, 128);
    let comp = ImgCompressor::new(&rgb, 2).unwrap();
    // three structure streams of one cleared bit each, then the three
    // leaf streams of four literal samples each
    let payload = comp.to_file((0, 0, 0));
    assert_eq!(payload, vec![0u8, 0, 0, 128, 128, 128, 128, 128, 128, 128, 128, 128, 128, 128, 128]);
}

#[test]
fn payload_size_monotone_in_cutoff() {
    // a 4x4 image with mild contrast in every channel
    let mut rgb = Vec::new();
    for i in 0..16u8 {
        rgb.push(100 + i);
        rgb.push(100u8.wrapping_sub(i));
        rgb.push(120 + (i % 3));
    }
    let comp = ImgCompressor::new(&rgb, 4).unwrap();
    let mut previous = usize::MAX;
    for c in [0u8, 2, 8, 40, 255] {
        let len = comp.to_file((c, c, c)).len();
        assert!(len <= previous);
        previous = len;
    }
    assert!(comp.to_file((255, 255, 255)).len() < comp.to_file((0, 0, 0)).len());
}

#[test]
fn to_image_roundtrips_solid_color() {
    let rgb = solid_image(2, 10, 20, 30);
    let comp = ImgCompressor::new(&rgb, 2).unwrap();
    let out = comp.to_image((0, 0, 0));
    assert_eq!(out, rgb);
}

#[test]
fn to_image_stays_close_at_zero_cutoff() {
    let mut rgb = Vec::new();
    for i in 0..16u8 {
        rgb.push(40 + 10 * (i % 4));
        rgb.push(200u8 - 5 * (i % 4));
        rgb.push(90);
    }
    let comp = ImgCompressor::new(&rgb, 4).unwrap();
    let out = comp.to_image((0, 0, 0));
    assert_eq!(out.len(), rgb.len());
    for k in 0..out.len() {
        let want = rgb[k] as i32;
        let got = out[k] as i32;
        assert!((got - want).abs() <= 2, "pixel byte {k}: {want} -> {got}");
    }
}

#[test]
fn pixel_at_bounds() {
    let rgb = solid_image(2, 128, 128, 128);
    let comp = ImgCompressor::new(&rgb, 2).unwrap();
    assert_eq!(comp.pixel_at((0, 0), (0, 0, 0)).unwrap(), (128, 128, 128));
    assert_eq!(comp.pixel_at((1, 1), (0, 0, 0)).unwrap(), (128, 128, 128));
    assert_eq!(comp.pixel_at((2, 0), (0, 0, 0)).unwrap_err(), CodecError::OutOfBounds);
    assert_eq!(comp.pixel_at((0, 2), (0, 0, 0)).unwrap_err(), CodecError::OutOfBounds);
}

#[test]
fn payload_roundtrip_at_zero_cutoff() {
    let mut rgb = Vec::new();
    for i in 0..16u8 {
        rgb.push(i * 3);
        rgb.push(255 - i * 5);
        rgb.push(i);
    }
    let comp = ImgCompressor::new(&rgb, 4).unwrap();
    let payload = comp.to_file((0, 0, 0));
    // at cutoff zero every region expands, so the decoded planes are
    // exactly the three channel bitmaps of the input
    let (py, pcb, pcr) = decode_payload(&payload, 4).unwrap();
    assert_eq!(py.len(), 16);
    assert_eq!(pcb.len(), 16);
    assert_eq!(pcr.len(), 16);
    for i in 0..16usize {
        let (y, cb, cr, _) = rgb_to_ycc((rgb[3 * i], rgb[3 * i + 1], rgb[3 * i + 2], 0));
        assert_eq!(py[i], y);
        assert_eq!(pcb[i], cb);
        assert_eq!(pcr[i], cr);
    }
}

#[test]
fn payload_decodes_collapsed_channels() {
    let rgb = solid_image(4, 77, 150, 20);
    let comp = ImgCompressor::new(&rgb, 4).unwrap();
    // a solid image has zero contrast everywhere: cutoff 1 collapses
    // each channel to a single average byte
    let payload = comp.to_file((1, 1, 1));
    assert_eq!(payload.len(), 3 + 3);
    let (y, cb, cr, _) = rgb_to_ycc((77, 150, 20, 0));
    let (py, pcb, pcr) = decode_payload(&payload, 4).unwrap();
    assert_eq!(py, vec![y; 16]);
    assert_eq!(pcb, vec![cb; 16]);
    assert_eq!(pcr, vec![cr; 16]);
}

#[test]
fn payload_rejects_truncation() {
    let rgb = solid_image(2, 128, 128, 128);
    let comp = ImgCompressor::new(&rgb, 2).unwrap();
    let mut payload = comp.to_file((0, 0, 0));
    payload.pop();
    assert!(matches!(decode_payload(&payload, 2), Err(CodecError::FormatError)));
    assert!(matches!(decode_payload(&vec![], 2), Err(CodecError::FormatError)));
}

#[test]
fn compressor_rejects_bad_input() {
    // rank not a power of two
    assert!(matches!(ImgCompressor::new(&vec![0u8; 27], 3), Err(CodecError::InvalidDimensions)));
    // rank below 2
    assert!(matches!(ImgCompressor::new(&vec![0u8; 3], 1), Err(CodecError::InvalidDimensions)));
    // buffer length does not match 3 * rank * rank
    assert!(matches!(ImgCompressor::new(&vec![0u8; 11], 2), Err(CodecError::InvalidDimensions)));
}
