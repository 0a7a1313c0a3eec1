use fastestdet::decode::{decode_multi_scale, AnchorCell, Corners, DecodeError, FeatureMap};
use fastestdet::geometry::TargetBox;

const MODEL: usize = 352;
const ANCHORS: [f32; 12] = [
    12.64, 19.39, 37.88, 51.48, 55.71, 138.31, 126.91, 78.23, 131.57, 214.55, 279.92, 258.87,
];

fn anchors() -> [u32; 12] {
    ANCHORS.map(|a| a.to_bits())
}

fn combine(obj: u32, class_score: u32) -> u32 {
    (f32::from_bits(obj) * f32::from_bits(class_score)).to_bits()
}

fn place(img_w: f32, img_h: f32) -> impl Fn(AnchorCell) -> Corners {
    let scale_w = img_w / MODEL as f32;
    let scale_h = img_h / MODEL as f32;
    move |a: AnchorCell| {
        let stride = a.stride as f32;
        let bcx = (f32::from_bits(a.tx) * 2.0 - 0.5 + a.col as f32) * stride;
        let bcy = (f32::from_bits(a.ty) * 2.0 - 0.5 + a.row as f32) * stride;
        let bw = (f32::from_bits(a.tw) * 2.0).powi(2) * f32::from_bits(a.anchor_width);
        let bh = (f32::from_bits(a.th) * 2.0).powi(2) * f32::from_bits(a.anchor_height);
        Corners {
            x1: ((bcx - 0.5 * bw) * scale_w) as i32,
            y1: ((bcy - 0.5 * bh) * scale_h) as i32,
            x2: ((bcx + 0.5 * bw) * scale_w) as i32,
            y2: ((bcy + 0.5 * bh) * scale_h) as i32,
        }
    }
}

/// A map of zeros with `15 + classes` values per cell and the given values set.
fn map(rows: usize, cols: usize, classes: usize, set: &[(usize, usize, usize, f32)]) -> FeatureMap {
    let depth = 15 + classes;
    let mut v = vec![0.0f32; rows * cols * depth];
    for &(r, c, k, x) in set {
        v[(r * cols + c) * depth + k] = x;
    }
    FeatureMap { values: v.into_iter().map(|x| x.to_bits()).collect(), rows, cols, depth }
}

fn decode(maps: &[FeatureMap; 2], classes: usize, thr: f32) -> Result<Vec<TargetBox>, DecodeError> {
    decode_multi_scale(maps, MODEL, MODEL, classes, &anchors(), thr.to_bits(), combine, place(704.0, 352.0))
}

#[test]
fn one_anchor_above_threshold_gives_one_box() {
    // cell (1, 1) of the coarse map, anchor 1: objectness 1.0, class 1 score 0.9
    let coarse = map(2, 2, 2, &[(1, 1, 12 + 1, 1.0), (1, 1, 15 + 1, 0.9)]);
    let fine = map(4, 4, 2, &[]);
    let boxes = decode(&[coarse, fine], 2, 0.5).unwrap();
    assert_eq!(boxes.len(), 1);
    assert_eq!(boxes[0].class, 1);
    assert_eq!(boxes[0].score, 0.9f32.to_bits());
    // all box values 0: width and height are 0 at centre (0.5 * 176, 0.5 * 176)
    assert_eq!((boxes[0].x1, boxes[0].y1, boxes[0].x2, boxes[0].y2), (176, 88, 176, 88));
}

#[test]
fn zero_offsets_and_positive_anchor_give_a_proper_box() {
    // tx = ty = 0.25 puts the centre on the cell corner; tw = th = 0.5 gives the anchor size
    let coarse = map(2, 2, 2, &[]);
    let fine = map(
        4,
        4,
        2,
        &[(2, 3, 4 * 2, 0.25), (2, 3, 4 * 2 + 1, 0.25), (2, 3, 4 * 2 + 2, 0.5), (2, 3, 4 * 2 + 3, 0.5), (2, 3, 12 + 2, 0.8), (2, 3, 15, 0.9)],
    );
    let boxes = decode(&[coarse, fine], 2, 0.5).unwrap();
    assert_eq!(boxes.len(), 1);
    let b = boxes[0];
    assert_eq!(b.class, 0);
    assert_eq!(b.score, (0.8f32 * 0.9f32).to_bits());
    assert!(b.x1 < b.x2 && b.y1 < b.y2);
    // centre (3 * 88, 2 * 88) in model pixels, anchor 279.92 x 258.87; x scaled by 2
    let (aw, ah) = (ANCHORS[10], ANCHORS[11]);
    assert_eq!(b.x1, ((264.0 - 0.5 * aw) * 2.0) as i32);
    assert_eq!(b.x2, ((264.0 + 0.5 * aw) * 2.0) as i32);
    assert_eq!(b.y1, (176.0 - 0.5 * ah) as i32);
    assert_eq!(b.y2, (176.0 + 0.5 * ah) as i32);
}

#[test]
fn boxes_come_map_by_map_cell_by_cell_anchor_by_anchor() {
    let coarse = map(2, 2, 1, &[(0, 1, 12 + 2, 0.9), (0, 1, 12, 0.8), (0, 1, 15, 1.0), (1, 0, 12 + 1, 0.7), (1, 0, 15, 1.0)]);
    let fine = map(4, 4, 1, &[(0, 0, 12, 0.6), (0, 0, 15, 1.0)]);
    let boxes = decode(&[coarse, fine], 1, 0.5).unwrap();
    let scores: Vec<f32> = boxes.iter().map(|b| f32::from_bits(b.score)).collect();
    assert_eq!(scores, vec![0.8, 0.9, 0.7, 0.6]);
}

#[test]
fn best_class_uses_the_product_and_skips_nan() {
    let coarse = map(2, 2, 3, &[(0, 0, 12, 0.9), (0, 0, 15, 0.6), (0, 0, 16, f32::NAN), (0, 0, 17, 0.7)]);
    let fine = map(4, 4, 3, &[]);
    let boxes = decode(&[coarse, fine], 3, 0.5).unwrap();
    assert_eq!(boxes.len(), 1);
    assert_eq!(boxes[0].class, 2);
    assert_eq!(boxes[0].score, (0.9f32 * 0.7f32).to_bits());
}

#[test]
fn equal_products_pick_the_later_class() {
    let coarse = map(2, 2, 3, &[(0, 0, 12, 1.0), (0, 0, 15, 0.7), (0, 0, 16, 0.7)]);
    let fine = map(4, 4, 3, &[]);
    let boxes = decode(&[coarse, fine], 3, 0.5).unwrap();
    assert_eq!(boxes[0].class, 1);
}

#[test]
fn all_nan_products_give_no_box() {
    let coarse = map(2, 2, 2, &[(0, 0, 12, f32::NAN), (0, 0, 15, 1.0), (0, 0, 16, 1.0)]);
    let fine = map(4, 4, 2, &[]);
    assert!(decode(&[coarse, fine], 2, 0.1).unwrap().is_empty());
}

#[test]
fn infinite_product_gives_no_box() {
    let coarse = map(2, 2, 1, &[(0, 0, 12, f32::INFINITY), (0, 0, 15, 1.0)]);
    let fine = map(4, 4, 1, &[]);
    assert!(decode(&[coarse, fine], 1, 0.0).unwrap().is_empty());
}

#[test]
fn decoded_classes_are_in_range_and_scores_finite() {
    let mut set = Vec::new();
    for r in 0..4 {
        for c in 0..4 {
            for b in 0..3 {
                set.push((r, c, 12 + b, 0.5 + 0.1 * b as f32));
            }
            set.push((r, c, 15 + (r + c) % 3, 0.95));
        }
    }
    let fine = map(4, 4, 3, &set);
    let coarse = map(2, 2, 3, &[]);
    let boxes = decode(&[coarse, fine], 3, 0.3).unwrap();
    assert_eq!(boxes.len(), 16 * 3);
    for b in &boxes {
        assert!(b.class >= 0 && b.class < 3);
        assert!(f32::from_bits(b.score).is_finite());
    }
}

#[test]
fn multi_scale_wrong_length_is_a_shape_mismatch() {
    let mut coarse = map(2, 2, 2, &[]);
    coarse.values.pop();
    let fine = map(4, 4, 2, &[]);
    assert_eq!(decode(&[coarse, fine], 2, 0.5), Err(DecodeError::ShapeMismatch));

    let coarse = map(2, 2, 2, &[]);
    let mut fine = map(4, 4, 2, &[]);
    fine.values.push(0);
    assert_eq!(decode(&[coarse, fine], 2, 0.5), Err(DecodeError::ShapeMismatch));
}

#[test]
fn wrong_depth_is_a_shape_mismatch() {
    let coarse = map(2, 2, 2, &[]);
    let fine = map(4, 4, 2, &[]);
    assert_eq!(decode(&[coarse, fine], 3, 0.5), Err(DecodeError::ShapeMismatch));
}

#[test]
fn shape_is_checked_before_geometry() {
    let coarse = map(3, 2, 2, &[]);
    let mut fine = map(4, 4, 2, &[]);
    fine.values.pop();
    assert_eq!(decode(&[coarse, fine], 2, 0.5), Err(DecodeError::ShapeMismatch));
}

#[test]
fn uneven_strides_are_invalid_geometry() {
    // 352 / 2 = 176 across, 352 / 4 = 88 down
    let coarse = map(4, 2, 2, &[]);
    let fine = map(4, 4, 2, &[]);
    assert_eq!(decode(&[coarse, fine], 2, 0.5), Err(DecodeError::InvalidGeometry));
}

#[test]
fn inexact_stride_is_invalid_geometry() {
    // 352 is not a multiple of 3
    let coarse = map(2, 2, 2, &[]);
    let fine = map(3, 3, 2, &[]);
    assert_eq!(decode(&[coarse, fine], 2, 0.5), Err(DecodeError::InvalidGeometry));
}

#[test]
fn empty_grid_is_invalid_geometry() {
    let coarse = map(0, 0, 2, &[]);
    let fine = map(4, 4, 2, &[]);
    assert_eq!(decode(&[coarse, fine], 2, 0.5), Err(DecodeError::InvalidGeometry));
}
