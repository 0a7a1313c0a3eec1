use fastestdet::geometry::{intersection_area, iou, iou_exceeds, IouThreshold, Overlap, TargetBox};
use fastestdet::score::{greater, is_nan_bits, order_key};

fn bx(x1: i32, y1: i32, x2: i32, y2: i32, score: f32, class: i32) -> TargetBox {
    TargetBox { x1, y1, x2, y2, score: score.to_bits(), class }
}

#[test]
fn width_height_area() {
    let b = bx(10, 20, 40, 70, 0.5, 0);
    assert_eq!(b.width(), 30);
    assert_eq!(b.height(), 50);
    assert_eq!(b.area(), 1500);
}

#[test]
fn area_of_reversed_box_is_negative() {
    let b = bx(40, 20, 10, 70, 0.5, 0);
    assert_eq!(b.area(), -1500);
}

#[test]
fn area_of_extreme_box_does_not_overflow() {
    let b = bx(i32::MIN, i32::MIN, i32::MAX, i32::MAX, 0.5, 0);
    assert_eq!(b.width(), u32::MAX as i64);
    assert_eq!(b.area(), (u32::MAX as i128) * (u32::MAX as i128));
}

#[test]
fn intersection_of_overlapping_boxes() {
    let a = bx(0, 0, 10, 10, 0.9, 0);
    let b = bx(5, 5, 15, 15, 0.8, 0);
    assert_eq!(intersection_area(&a, &b), 25);
    assert_eq!(a.intersection_area(&b), 25);
}

#[test]
fn intersection_of_disjoint_and_touching_boxes() {
    let a = bx(0, 0, 10, 10, 0.9, 0);
    assert_eq!(intersection_area(&a, &bx(20, 20, 30, 30, 0.9, 0)), 0);
    assert_eq!(intersection_area(&a, &bx(10, 0, 20, 10, 0.9, 0)), 0);
    assert_eq!(intersection_area(&a, &bx(0, 11, 10, 20, 0.9, 0)), 0);
}

#[test]
fn iou_is_symmetric() {
    let a = bx(0, 0, 10, 10, 0.9, 0);
    let b = bx(5, 5, 15, 15, 0.8, 1);
    assert_eq!(iou(&a, &b), iou(&b, &a));
    assert_eq!(iou(&a, &b), Overlap { intersection: 25, union: 175 });
}

#[test]
fn iou_of_box_with_itself_is_one() {
    let a = bx(3, 4, 13, 24, 0.9, 0);
    let o = iou(&a, &a);
    assert_eq!(o.intersection, 200);
    assert_eq!(o.union, 200);
}

#[test]
fn iou_of_disjoint_boxes_is_zero() {
    let a = bx(0, 0, 10, 10, 0.9, 0);
    let b = bx(50, 50, 60, 60, 0.9, 0);
    assert_eq!(iou(&a, &b).intersection, 0);
    assert!(!iou_exceeds(&a, &b, &IouThreshold { num: 0, den: 1 }));
}

#[test]
fn iou_threshold_compares_exact_fractions() {
    let a = bx(0, 0, 10, 10, 0.9, 0);
    let b = bx(5, 5, 15, 15, 0.8, 0);
    // 25 / 175 = 1 / 7
    assert!(iou_exceeds(&a, &b, &IouThreshold { num: 1, den: 8 }));
    assert!(!iou_exceeds(&a, &b, &IouThreshold { num: 1, den: 7 }));
    assert!(!iou_exceeds(&a, &b, &IouThreshold { num: 45, den: 100 }));
}

#[test]
fn zero_union_counts_as_zero_iou() {
    let a = bx(5, 5, 5, 5, 0.9, 0);
    assert_eq!(iou(&a, &a), Overlap { intersection: 0, union: 0 });
    assert!(!iou_exceeds(&a, &a, &IouThreshold { num: 0, den: 1 }));
    assert!(iou_exceeds(&a, &a, &IouThreshold { num: -1, den: 2 }));
}

#[test]
fn negative_union_flips_the_comparison() {
    // areas -100 and -100, no overlap: union -200, IoU 0
    let a = bx(10, 0, 0, 10, 0.9, 0);
    let b = bx(30, 0, 20, 10, 0.9, 0);
    assert_eq!(iou(&a, &b), Overlap { intersection: 0, union: -200 });
    assert!(!iou_exceeds(&a, &b, &IouThreshold { num: 0, den: 1 }));
    assert!(iou_exceeds(&a, &b, &IouThreshold { num: -1, den: 1 }));
}

#[test]
fn score_order_follows_the_numbers() {
    assert!(greater(0.5f32.to_bits(), 0.25f32.to_bits()));
    assert!(!greater(0.25f32.to_bits(), 0.5f32.to_bits()));
    assert!(greater(0.0f32.to_bits(), (-1.0f32).to_bits()));
    assert!(greater((-1.0f32).to_bits(), (-2.0f32).to_bits()));
    assert!(greater(f32::INFINITY.to_bits(), f32::MAX.to_bits()));
    assert_eq!(order_key(0.0f32.to_bits()), order_key((-0.0f32).to_bits()));
    assert!(order_key(1.0f32.to_bits()) > order_key(0.999f32.to_bits()));
}

#[test]
fn nan_is_never_greater_nor_smaller() {
    let nan = f32::NAN.to_bits();
    assert!(is_nan_bits(nan));
    assert!(is_nan_bits((-f32::NAN).to_bits()));
    assert!(!is_nan_bits(f32::INFINITY.to_bits()));
    assert!(!greater(nan, 0.5f32.to_bits()));
    assert!(!greater(0.5f32.to_bits(), nan));
}
