use fastestdet::decode::{decode_single_grid, Corners, DecodeError, GridCell};
use fastestdet::geometry::TargetBox;

const IMG_W: f32 = 100.0;
const IMG_H: f32 = 100.0;

fn calibrate(class_score: u32, obj: u32) -> u32 {
    (f32::from_bits(class_score).powf(0.4) * f32::from_bits(obj).powf(0.6)).to_bits()
}

fn sigmoid(x: f32) -> f32 {
    1.0 / (1.0 + (-x).exp())
}

fn place(rows: usize, cols: usize) -> impl Fn(GridCell) -> Corners {
    move |c: GridCell| {
        let x_offset = f32::from_bits(c.x_offset).tanh();
        let y_offset = f32::from_bits(c.y_offset).tanh();
        let w = sigmoid(f32::from_bits(c.width_raw));
        let h = sigmoid(f32::from_bits(c.height_raw));
        let cx = (c.col as f32 + x_offset) / cols as f32;
        let cy = (c.row as f32 + y_offset) / rows as f32;
        Corners {
            x1: ((cx - 0.5 * w) * IMG_W) as i32,
            y1: ((cy - 0.5 * h) * IMG_H) as i32,
            x2: ((cx + 0.5 * w) * IMG_W) as i32,
            y2: ((cy + 0.5 * h) * IMG_H) as i32,
        }
    }
}

/// A `(5 + classes) x rows x cols` tensor of zeros with the given values set.
fn tensor(rows: usize, cols: usize, classes: usize, set: &[(usize, usize, usize, f32)]) -> Vec<u32> {
    let mut t = vec![0.0f32; (5 + classes) * rows * cols];
    for &(ch, r, c, v) in set {
        t[ch * rows * cols + r * cols + c] = v;
    }
    t.into_iter().map(|v| v.to_bits()).collect()
}

fn decode(t: &Vec<u32>, rows: usize, cols: usize, classes: usize, thr: f32) -> Result<Vec<TargetBox>, DecodeError> {
    decode_single_grid(t, rows, cols, classes, thr.to_bits(), calibrate, place(rows, cols))
}

#[test]
fn one_hot_cell_gives_one_box() {
    let t = tensor(2, 2, 3, &[(0, 1, 0, 1.0), (5 + 1, 1, 0, 1.0)]);
    let boxes = decode(&t, 2, 2, 3, 0.1).unwrap();
    assert_eq!(boxes.len(), 1);
    assert_eq!(boxes[0].class, 1);
    assert_eq!(boxes[0].score, 1.0f32.to_bits());
    // centre (0, 0.5), size 0.5 x 0.5 of a 100 x 100 image
    assert_eq!((boxes[0].x1, boxes[0].y1, boxes[0].x2, boxes[0].y2), (-25, 25, 25, 75));
}

#[test]
fn calibrated_score_combines_class_and_objectness() {
    let t = tensor(1, 1, 2, &[(0, 0, 0, 0.5), (5, 0, 0, 0.2), (6, 0, 0, 0.8)]);
    let boxes = decode(&t, 1, 1, 2, 0.1).unwrap();
    assert_eq!(boxes.len(), 1);
    assert_eq!(boxes[0].class, 1);
    let expected = 0.8f32.powf(0.4) * 0.5f32.powf(0.6);
    assert_eq!(boxes[0].score, expected.to_bits());
}

#[test]
fn offsets_move_the_box() {
    let t = tensor(1, 2, 1, &[(0, 0, 1, 1.0), (5, 0, 1, 1.0), (1, 0, 1, 0.5), (3, 0, 1, 1.0)]);
    let boxes = decode(&t, 1, 2, 1, 0.5).unwrap();
    assert_eq!(boxes.len(), 1);
    let xo = 0.5f32.tanh();
    let w = sigmoid(1.0);
    let cx = (1.0 + xo) / 2.0;
    assert_eq!(boxes[0].x1, ((cx - 0.5 * w) * IMG_W) as i32);
    assert_eq!(boxes[0].x2, ((cx + 0.5 * w) * IMG_W) as i32);
    assert_eq!(boxes[0].y1, -25);
    assert_eq!(boxes[0].y2, 25);
}

#[test]
fn cells_come_out_in_row_major_order() {
    let t = tensor(
        2,
        2,
        1,
        &[(0, 1, 1, 1.0), (5, 1, 1, 0.9), (0, 0, 1, 1.0), (5, 0, 1, 0.8), (0, 1, 0, 1.0), (5, 1, 0, 0.7)],
    );
    let boxes = decode(&t, 2, 2, 1, 0.1).unwrap();
    let scores: Vec<u32> = boxes.iter().map(|b| b.score).collect();
    let expected: Vec<u32> = [0.8f32, 0.7, 0.9].iter().map(|&c| calibrate(c.to_bits(), 1.0f32.to_bits())).collect();
    assert_eq!(scores, expected);
}

#[test]
fn class_ties_keep_the_lowest_index() {
    let t = tensor(1, 1, 3, &[(0, 0, 0, 1.0), (6, 0, 0, 0.7), (7, 0, 0, 0.7)]);
    let boxes = decode(&t, 1, 1, 3, 0.1).unwrap();
    assert_eq!(boxes[0].class, 1);
}

#[test]
fn nan_class_scores_are_never_picked() {
    let t = tensor(1, 1, 3, &[(0, 0, 0, 1.0), (5, 0, 0, f32::NAN), (6, 0, 0, 0.6), (7, 0, 0, f32::NAN)]);
    let boxes = decode(&t, 1, 1, 3, 0.1).unwrap();
    assert_eq!(boxes.len(), 1);
    assert_eq!(boxes[0].class, 1);
    assert!(!f32::from_bits(boxes[0].score).is_nan());
}

#[test]
fn negative_class_scores_still_pick_the_maximum() {
    let t = tensor(1, 1, 2, &[(0, 0, 0, 1.0), (5, 0, 0, -1.0), (6, 0, 0, -0.5)]);
    let pick = |class_score: u32, _obj: u32| if f32::from_bits(class_score) == -0.5 { 0.9f32.to_bits() } else { 0.0f32.to_bits() };
    let boxes = decode_single_grid(&t, 1, 1, 2, (-1.0f32).to_bits(), pick, place(1, 1)).unwrap();
    assert_eq!(boxes.len(), 1);
    assert_eq!(boxes[0].class, 1);
    assert_eq!(boxes[0].score, 0.9f32.to_bits());
}

#[test]
fn no_classes_gives_no_box() {
    let t = tensor(1, 1, 0, &[(0, 0, 0, 1.0)]);
    assert_eq!(decode(&t, 1, 1, 0, -1.0), Ok(Vec::new()));
}

#[test]
fn all_nan_class_scores_give_no_box() {
    let t = tensor(1, 1, 2, &[(0, 0, 0, 1.0), (5, 0, 0, f32::NAN), (6, 0, 0, f32::NAN)]);
    assert!(decode(&t, 1, 1, 2, -1.0).unwrap().is_empty());
}

#[test]
fn infinite_score_gives_no_box() {
    let t = tensor(1, 1, 1, &[(0, 0, 0, f32::INFINITY), (5, 0, 0, 1.0)]);
    assert!(decode(&t, 1, 1, 1, 0.0).unwrap().is_empty());
}

#[test]
fn nan_objectness_gives_no_box() {
    let t = tensor(1, 1, 1, &[(0, 0, 0, f32::NAN), (5, 0, 0, 1.0)]);
    assert!(decode(&t, 1, 1, 1, 0.1).unwrap().is_empty());
}

#[test]
fn scores_at_or_below_threshold_are_dropped() {
    let t = tensor(1, 1, 1, &[(0, 0, 0, 0.25), (5, 0, 0, 0.25)]);
    // 0.25^0.4 * 0.25^0.6 is 0.25 up to rounding
    let s = f32::from_bits(calibrate(0.25f32.to_bits(), 0.25f32.to_bits()));
    assert!(decode(&t, 1, 1, 1, s).unwrap().is_empty());
    assert_eq!(decode(&t, 1, 1, 1, s - 0.01).unwrap().len(), 1);
}

#[test]
fn all_zero_tensor_gives_no_box() {
    let t = tensor(3, 4, 2, &[]);
    assert!(decode(&t, 3, 4, 2, 0.1).unwrap().is_empty());
}

#[test]
fn classes_stay_in_range() {
    let mut set = Vec::new();
    for r in 0..3 {
        for c in 0..3 {
            set.push((0, r, c, 1.0));
            set.push((5 + (r + c) % 4, r, c, 0.9));
        }
    }
    let t = tensor(3, 3, 4, &set);
    let boxes = decode(&t, 3, 3, 4, 0.1).unwrap();
    assert_eq!(boxes.len(), 9);
    for b in &boxes {
        assert!(b.class >= 0 && b.class < 4);
        assert!(f32::from_bits(b.score).is_finite());
    }
}

#[test]
fn single_grid_wrong_length_is_a_shape_mismatch() {
    let mut t = tensor(2, 2, 3, &[]);
    t.pop();
    assert_eq!(decode(&t, 2, 2, 3, 0.1), Err(DecodeError::ShapeMismatch));
    let t = tensor(2, 2, 3, &[]);
    assert_eq!(decode(&t, 2, 2, 4, 0.1), Err(DecodeError::ShapeMismatch));
    assert_eq!(decode(&t, 2, 3, 3, 0.1), Err(DecodeError::ShapeMismatch));
    assert_eq!(decode(&t, usize::MAX, 2, 3, 0.1), Err(DecodeError::ShapeMismatch));
}

#[test]
fn single_grid_empty_grid_decodes_to_nothing() {
    assert_eq!(decode(&Vec::new(), 0, 5, 3, 0.1), Ok(Vec::new()));
}
