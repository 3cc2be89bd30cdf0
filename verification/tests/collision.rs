use alpha_mask::collide::Roi;
use alpha_mask::grid::AlphaChannel;
use alpha_mask::surface::{PixelSurface, FORMAT_RGBA8888};

fn mask_from_alphas(width: u32, height: u32, alphas: &[u8]) -> AlphaChannel {
    assert_eq!(alphas.len(), (width * height) as usize);
    let mut pixels = Vec::new();
    for a in alphas {
        pixels.push(*a);
        pixels.push(0);
        pixels.push(0);
        pixels.push(0);
    }
    let s = PixelSurface::new(width, height, (width * 4) as usize, FORMAT_RGBA8888, pixels)
        .unwrap();
    AlphaChannel::from_surface(&s, None).unwrap()
}

fn full_mask(width: u32, height: u32) -> AlphaChannel {
    mask_from_alphas(width, height, &vec![255; (width * height) as usize])
}

/// A mask with exactly the listed pixels solid.
fn sparse_mask(width: u32, height: u32, set: &[(u32, u32)]) -> AlphaChannel {
    let mut alphas = vec![0u8; (width * height) as usize];
    for (x, y) in set {
        alphas[(y * width + x) as usize] = 255;
    }
    mask_from_alphas(width, height, &alphas)
}

#[test]
fn opaque_masks_overlapping_region() {
    // Two 4x4 solid masks, the second shifted to (2, 2); their bounding
    // boxes intersect in the 2x2 square at (2, 2).
    let a = full_mask(4, 4);
    let b = full_mask(4, 4);
    let roi = Roi { x: 2, y: 2, w: 2, h: 2 };
    assert!(AlphaChannel::intersect(&a, 0, 0, &b, 2, 2, roi));
}

#[test]
fn disjoint_bounding_boxes_empty_roi() {
    // The second mask at (4, 4): the boxes only touch, the intersection is
    // empty, and the test must answer false without reading any mask word.
    let a = full_mask(4, 4);
    let b = full_mask(4, 4);
    let roi = Roi { x: 4, y: 4, w: 0, h: 0 };
    assert!(!AlphaChannel::intersect(&a, 0, 0, &b, 4, 4, roi));
}

#[test]
fn empty_roi_height_alone_is_enough() {
    let a = full_mask(4, 4);
    let b = full_mask(4, 4);
    let roi = Roi { x: 0, y: 0, w: 3, h: 0 };
    assert!(!AlphaChannel::intersect(&a, 0, 0, &b, 0, 0, roi));
}

#[test]
fn single_bit_against_box() {
    let m = sparse_mask(2, 2, &[(0, 0)]);
    assert!(AlphaChannel::intersect_box(&m, 0, 0, Roi { x: 0, y: 0, w: 1, h: 1 }));
    assert!(!AlphaChannel::intersect_box(&m, 0, 0, Roi { x: 1, y: 1, w: 1, h: 1 }));
}

#[test]
fn solid_pixels_meeting_only_in_one_corner() {
    // a has its solid pixel at (3, 3), b at (0, 0); with b anchored at
    // (3, 3) the two solid pixels coincide in shared coordinates.
    let a = sparse_mask(4, 4, &[(3, 3)]);
    let b = sparse_mask(4, 4, &[(0, 0)]);
    let roi = Roi { x: 3, y: 3, w: 1, h: 1 };
    assert!(AlphaChannel::intersect(&a, 0, 0, &b, 3, 3, roi));
    // Move b one pixel further: boxes still overlap at (3..4, 4..4)? Use a
    // still-valid ROI one pixel wide where only a's pixel lies.
    let b2 = sparse_mask(4, 4, &[(1, 1)]);
    assert!(!AlphaChannel::intersect(&a, 0, 0, &b2, 3, 3, roi));
}

#[test]
fn misaligned_word_columns_still_collide() {
    // a is 65 wide with only its last column solid (bit 64 sits alone in
    // the second storage word); b is 65 wide with a solid pixel that lands
    // on the same shared coordinate although its local bit index differs.
    let a = sparse_mask(65, 1, &[(64, 0)]);
    let b = sparse_mask(65, 1, &[(32, 0)]);
    // b anchored at (32, 0): its pixel (32, 0) sits at shared (64, 0).
    let roi = Roi { x: 32, y: 0, w: 33, h: 1 };
    assert!(AlphaChannel::intersect(&a, 0, 0, &b, 32, 0, roi));
    // Anchor b one pixel to the left: the solid pixels no longer meet.
    let roi2 = Roi { x: 31, y: 0, w: 34, h: 1 };
    assert!(!AlphaChannel::intersect(&a, 0, 0, &b, 31, 0, roi2));
}

#[test]
fn roi_narrower_than_the_masks() {
    // Both masks solid; an ROI that covers none of b's solid pixels is
    // still a hit because b is fully solid, but a sparse b misses.
    let a = full_mask(8, 8);
    let b = sparse_mask(8, 8, &[(7, 7)]);
    let roi = Roi { x: 2, y: 2, w: 3, h: 3 };
    // b's only solid pixel (7,7) at anchor (0,0) lies outside the ROI.
    assert!(!AlphaChannel::intersect(&a, 0, 0, &b, 0, 0, roi));
    let roi_hit = Roi { x: 6, y: 6, w: 2, h: 2 };
    assert!(AlphaChannel::intersect(&a, 0, 0, &b, 0, 0, roi_hit));
}

#[test]
fn collision_is_symmetric() {
    let cases: Vec<(AlphaChannel, i32, i32, AlphaChannel, i32, i32, Roi)> = vec![
        (
            full_mask(4, 4),
            0,
            0,
            full_mask(4, 4),
            2,
            2,
            Roi { x: 2, y: 2, w: 2, h: 2 },
        ),
        (
            sparse_mask(65, 2, &[(64, 1)]),
            0,
            0,
            sparse_mask(65, 2, &[(2, 1)]),
            62,
            0,
            Roi { x: 62, y: 0, w: 3, h: 2 },
        ),
        (
            sparse_mask(8, 8, &[(1, 2), (5, 5)]),
            -3,
            -3,
            sparse_mask(8, 8, &[(0, 0)]),
            2,
            2,
            Roi { x: 2, y: 2, w: 3, h: 3 },
        ),
    ];
    for (a, xa, ya, b, xb, yb, roi) in &cases {
        assert_eq!(
            AlphaChannel::intersect(a, *xa, *ya, b, *xb, *yb, *roi),
            AlphaChannel::intersect(b, *xb, *yb, a, *xa, *ya, *roi)
        );
    }
}

#[test]
fn box_test_agrees_with_a_solid_mask() {
    let m = sparse_mask(8, 4, &[(3, 1), (6, 2)]);
    let rois = [
        Roi { x: 0, y: 0, w: 3, h: 3 },
        Roi { x: 3, y: 1, w: 1, h: 1 },
        Roi { x: 4, y: 0, w: 4, h: 4 },
        Roi { x: 0, y: 0, w: 0, h: 0 },
    ];
    for roi in &rois {
        let full = if roi.w > 0 && roi.h > 0 {
            Some(full_mask(roi.w, roi.h))
        } else {
            None
        };
        let direct = AlphaChannel::intersect_box(&m, 0, 0, *roi);
        if let Some(full) = full {
            let via_mask = AlphaChannel::intersect(&m, 0, 0, &full, roi.x, roi.y, *roi);
            assert_eq!(direct, via_mask, "roi at ({}, {})", roi.x, roi.y);
        } else {
            assert!(!direct);
        }
    }
}

#[test]
fn negative_origins_translate_correctly() {
    // A mask anchored at (-2, -1): its pixel (2, 1) sits at shared (0, 0).
    let m = sparse_mask(4, 4, &[(2, 1)]);
    assert!(AlphaChannel::intersect_box(&m, -2, -1, Roi { x: 0, y: 0, w: 1, h: 1 }));
    assert!(!AlphaChannel::intersect_box(&m, -2, -1, Roi { x: 1, y: 0, w: 1, h: 1 }));
}
