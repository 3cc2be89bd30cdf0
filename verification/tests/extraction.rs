use alpha_mask::grid::{AlphaChannel, WORD_BITS};
use alpha_mask::surface::{
    PixelSurface, FORMAT_ABGR1555, FORMAT_ABGR4444, FORMAT_ABGR8888, FORMAT_ARGB1555,
    FORMAT_ARGB2101010, FORMAT_ARGB4444, FORMAT_ARGB8888, FORMAT_BGRA4444, FORMAT_BGRA5551,
    FORMAT_BGRA8888, FORMAT_RGBA4444, FORMAT_RGBA5551, FORMAT_RGBA8888,
};

/// A surface in RGBA8888 layout (alpha is the low byte of each pixel), with
/// the given per-pixel alpha values, row-major.
fn rgba8888_surface(width: u32, height: u32, alphas: &[u8]) -> PixelSurface {
    assert_eq!(alphas.len(), (width * height) as usize);
    let mut pixels = Vec::new();
    for a in alphas {
        pixels.push(*a);
        pixels.push(0x11);
        pixels.push(0x22);
        pixels.push(0x33);
    }
    PixelSurface::new(width, height, (width * 4) as usize, FORMAT_RGBA8888, pixels).unwrap()
}

/// A 16-bit-per-pixel surface holding one pixel with the given packed value.
fn one_pixel_16(format: u32, value: u16) -> PixelSurface {
    let pixels = vec![(value & 0xff) as u8, (value >> 8) as u8];
    PixelSurface::new(1, 1, 2, format, pixels).unwrap()
}

/// A 32-bit-per-pixel surface holding one pixel with the given packed value.
fn one_pixel_32(format: u32, value: u32) -> PixelSurface {
    let pixels = vec![
        (value & 0xff) as u8,
        ((value >> 8) & 0xff) as u8,
        ((value >> 16) & 0xff) as u8,
        ((value >> 24) & 0xff) as u8,
    ];
    PixelSurface::new(1, 1, 4, format, pixels).unwrap()
}

fn single_bit(surface: &PixelSurface, threshold: Option<u8>) -> bool {
    AlphaChannel::from_surface(surface, threshold).unwrap().get(0, 0)
}

#[test]
fn default_threshold_requires_full_opacity() {
    let s = rgba8888_surface(2, 1, &[255, 254]);
    let mask = AlphaChannel::from_surface(&s, None).unwrap();
    assert!(mask.get(0, 0));
    assert!(!mask.get(1, 0));
}

#[test]
fn explicit_threshold_boundary_rgba8888() {
    // alpha 200 on the 0..=255 scale: solid iff t <= 200.
    let s = rgba8888_surface(1, 1, &[200]);
    assert!(single_bit(&s, Some(200)));
    assert!(!single_bit(&s, Some(201)));
    assert!(single_bit(&s, Some(0)));
}

#[test]
fn argb4444_alpha_in_top_nibble() {
    // alpha nibble 8 of 15: 8 * 255 >= t * 15 iff t <= 136.
    let s = one_pixel_16(FORMAT_ARGB4444, 0x8abc);
    assert!(single_bit(&s, Some(136)));
    assert!(!single_bit(&s, Some(137)));
}

#[test]
fn abgr4444_alpha_in_top_nibble() {
    let s = one_pixel_16(FORMAT_ABGR4444, 0x8abc);
    assert!(single_bit(&s, Some(136)));
    assert!(!single_bit(&s, Some(137)));
}

#[test]
fn rgba4444_alpha_in_low_nibble() {
    let s = one_pixel_16(FORMAT_RGBA4444, 0xabc8);
    assert!(single_bit(&s, Some(136)));
    assert!(!single_bit(&s, Some(137)));
}

#[test]
fn bgra4444_alpha_in_low_nibble() {
    let s = one_pixel_16(FORMAT_BGRA4444, 0xabc8);
    assert!(single_bit(&s, Some(136)));
    assert!(!single_bit(&s, Some(137)));
}

#[test]
fn argb1555_alpha_in_top_bit() {
    let opaque = one_pixel_16(FORMAT_ARGB1555, 0x8000);
    let clear = one_pixel_16(FORMAT_ARGB1555, 0x7fff);
    assert!(single_bit(&opaque, None));
    assert!(!single_bit(&clear, Some(1)));
    assert!(single_bit(&clear, Some(0)));
}

#[test]
fn abgr1555_alpha_in_top_bit() {
    let opaque = one_pixel_16(FORMAT_ABGR1555, 0x8000);
    let clear = one_pixel_16(FORMAT_ABGR1555, 0x7fff);
    assert!(single_bit(&opaque, None));
    assert!(!single_bit(&clear, Some(1)));
}

#[test]
fn rgba5551_alpha_in_low_bit() {
    let opaque = one_pixel_16(FORMAT_RGBA5551, 0x0001);
    let clear = one_pixel_16(FORMAT_RGBA5551, 0xfffe);
    assert!(single_bit(&opaque, None));
    assert!(!single_bit(&clear, Some(1)));
}

#[test]
fn bgra5551_alpha_in_low_bit() {
    let opaque = one_pixel_16(FORMAT_BGRA5551, 0x0001);
    let clear = one_pixel_16(FORMAT_BGRA5551, 0xfffe);
    assert!(single_bit(&opaque, None));
    assert!(!single_bit(&clear, Some(1)));
}

#[test]
fn argb8888_alpha_in_top_byte() {
    let s = one_pixel_32(FORMAT_ARGB8888, 0xc8_11_22_33);
    assert!(single_bit(&s, Some(200)));
    assert!(!single_bit(&s, Some(201)));
}

#[test]
fn abgr8888_alpha_in_top_byte() {
    let s = one_pixel_32(FORMAT_ABGR8888, 0xc8_11_22_33);
    assert!(single_bit(&s, Some(200)));
    assert!(!single_bit(&s, Some(201)));
}

#[test]
fn rgba8888_alpha_in_low_byte() {
    let s = one_pixel_32(FORMAT_RGBA8888, 0x11_22_33_c8);
    assert!(single_bit(&s, Some(200)));
    assert!(!single_bit(&s, Some(201)));
}

#[test]
fn bgra8888_alpha_in_low_byte() {
    let s = one_pixel_32(FORMAT_BGRA8888, 0x11_22_33_c8);
    assert!(single_bit(&s, Some(200)));
    assert!(!single_bit(&s, Some(201)));
}

#[test]
fn argb2101010_alpha_in_top_two_bits() {
    // alpha field 2 of 3: 2 * 255 >= t * 3 iff t <= 170.
    let s = one_pixel_32(FORMAT_ARGB2101010, 0x8000_0000 | 0x1234);
    assert!(single_bit(&s, Some(170)));
    assert!(!single_bit(&s, Some(171)));
}

#[test]
fn unrecognized_format_tag_yields_no_mask() {
    let s = PixelSurface::new(1, 1, 4, 0, vec![0, 0, 0, 0]).unwrap();
    assert!(AlphaChannel::from_surface(&s, None).is_none());
}

#[test]
fn surface_rejects_inconsistent_geometry() {
    // Buffer shorter than pitch * height.
    assert!(PixelSurface::new(2, 2, 8, FORMAT_RGBA8888, vec![0; 15]).is_none());
    // Pitch too small for the row of a recognized format.
    assert!(PixelSurface::new(2, 1, 7, FORMAT_RGBA8888, vec![0; 7]).is_none());
}

#[test]
fn threshold_monotonicity_on_a_gradient() {
    let alphas: Vec<u8> = (0u32..64).map(|i| (i * 4) as u8).collect();
    let s = rgba8888_surface(8, 8, &alphas);
    let low = AlphaChannel::from_surface(&s, Some(100)).unwrap();
    let high = AlphaChannel::from_surface(&s, Some(200)).unwrap();
    for y in 0..8 {
        for x in 0..8 {
            if high.get(x, y) {
                assert!(low.get(x, y), "bit ({}, {}) lost at the lower threshold", x, y);
            }
        }
    }
}

#[test]
fn mask_dimensions_and_stride() {
    let s = rgba8888_surface(65, 3, &vec![255; 195]);
    let mask = AlphaChannel::from_surface(&s, None).unwrap();
    assert_eq!(mask.width(), 65);
    assert_eq!(mask.height(), 3);
    assert_eq!(mask.size(), (65, 3));
    assert_eq!(mask.stride(), 2);
    assert_eq!(mask.stride() as u32, (65 + WORD_BITS - 1) / WORD_BITS);
    assert_eq!(mask.word_count(), 6);
    // A fully opaque 65-wide row: word 0 all ones, word 1 only bit 0.
    assert_eq!(mask.word_at(0), u64::MAX);
    assert_eq!(mask.word_at(1), 1);
}

#[test]
fn surface_accessors_report_geometry() {
    let s = rgba8888_surface(3, 2, &[0, 50, 100, 150, 200, 250]);
    assert_eq!(s.width(), 3);
    assert_eq!(s.height(), 2);
    assert_eq!(s.pitch(), 12);
    assert_eq!(s.format_tag(), FORMAT_RGBA8888);
    assert_eq!(s.pixel_bytes().len(), 24);
}
