//! Decoding raw network tensors into candidate boxes.
//!
//! Tensor values arrive as IEEE-754 single-precision bit patterns. The decoders
//! validate the layout, walk it, pick classes and apply the confidence
//! threshold; the arithmetic on the values themselves (score calibration and
//! the box formulas) is supplied by the caller as functions, and each decoded
//! box is stated in terms of what those functions return.
use vstd::prelude::*;
use crate::geometry::TargetBox;
use crate::score::{is_nan, is_finite, score_key, float_gt, greater, is_nan_bits, is_finite_bits, order_key};

verus! {

/// Why a tensor cannot be decoded.
#[derive(Clone, Copy, Debug, PartialEq, Eq, Structural)]
pub enum DecodeError {
    /// The tensor's length or depth does not fit the layout of the decoder.
    ShapeMismatch,
    /// The model input size is not an exact multiple of the grid, by one
    /// stride on both axes.
    InvalidGeometry,
}

/// Pixel corners of one decoded box in the original image.
#[derive(Clone, Copy, Debug, PartialEq, Eq, Structural)]
pub struct Corners {
    pub x1: i32,
    pub y1: i32,
    pub x2: i32,
    pub y2: i32,
}

/// What the single-grid box formula reads for one cell: its position and its
/// four raw regression values.
#[derive(Clone, Copy, Debug, PartialEq, Eq, Structural)]
pub struct GridCell {
    pub row: usize,
    pub col: usize,
    pub x_offset: u32,
    pub y_offset: u32,
    pub width_raw: u32,
    pub height_raw: u32,
}

/// A function that may be called on any pair of patterns and always returns
/// the same result for the same pair.
pub open spec fn is_total_fn2<F: Fn(u32, u32) -> u32>(f: F) -> bool {
    &&& forall|a: u32, b: u32| #[trigger] f.requires((a, b))
    &&& forall|a: u32, b: u32, r1: u32, r2: u32|
        #![trigger f.ensures((a, b), r1), f.ensures((a, b), r2)]
        f.ensures((a, b), r1) && f.ensures((a, b), r2) ==> r1 == r2
}

/// The same for functions of one argument.
pub open spec fn is_total_fn1<A, R, F: Fn(A) -> R>(f: F) -> bool {
    &&& forall|a: A| #[trigger] f.requires((a,))
    &&& forall|a: A, r1: R, r2: R|
        #![trigger f.ensures((a,), r1), f.ensures((a,), r2)]
        f.ensures((a,), r1) && f.ensures((a,), r2) ==> r1 == r2
}

/// What `f` returns on `(a, b)`.
pub open spec fn value2<F: Fn(u32, u32) -> u32>(f: F, a: u32, b: u32) -> u32 {
    choose|r: u32| f.ensures((a, b), r)
}

/// What `f` returns on `a`.
pub open spec fn value1<A, R, F: Fn(A) -> R>(f: F, a: A) -> R {
    choose|r: R| f.ensures((a,), r)
}

proof fn lemma_value2<F: Fn(u32, u32) -> u32>(f: F, a: u32, b: u32, r: u32)
    requires
        is_total_fn2(f),
        f.ensures((a, b), r),
    ensures
        value2(f, a, b) == r,
{
}

proof fn lemma_value1<A, R, F: Fn(A) -> R>(f: F, a: A, r: R)
    requires
        is_total_fn1(f),
        f.ensures((a,), r),
    ensures
        value1(f, a) == r,
{
}

/// Position `j` of row `i` in a row-major table with rows of length `m`.
proof fn lemma_flat_index(i: int, n: int, j: int, m: int)
    requires
        0 <= i < n,
        0 <= j < m,
    ensures
        0 <= i * m + j < n * m,
        i * m + m <= n * m,
{
    assert(i * m + m == (i + 1) * m) by (nonlinear_arith);
    assert((i + 1) * m <= n * m) by (nonlinear_arith)
        requires
            i + 1 <= n,
            0 <= m,
    ;
    assert(0 <= i * m) by (nonlinear_arith)
        requires
            0 <= i,
            0 <= m,
    ;
}

// ---------------------------------------------------------------------------
// Single grid: channel-major tensor of 5 + C channels over an H x W grid.
// Channel 0 is objectness, 1..=4 the box regression, 5.. the class scores.

/// Value of channel `ch` at cell `cell` (row-major index) of a grid of `cells` cells.
pub open spec fn grid_value(t: Seq<u32>, cells: int, ch: int, cell: int) -> u32 {
    t[ch * cells + cell]
}

/// The largest of the first `k` class scores of a cell, with its index. NaN
/// scores are passed over; a score replaces the best so far only when strictly
/// greater, so ties keep the lowest index. `None` when there is no class or
/// every score is NaN.
pub open spec fn grid_best(t: Seq<u32>, cells: int, cell: int, k: nat) -> Option<(usize, u32)>
    decreases k,
{
    if k == 0 {
        None
    } else {
        let prev = grid_best(t, cells, cell, (k - 1) as nat);
        let v = grid_value(t, cells, 5 + k - 1, cell);
        if is_nan(v) {
            prev
        } else if prev is None || float_gt(v, prev.unwrap().1) {
            Some(((k - 1) as usize, v))
        } else {
            prev
        }
    }
}

proof fn lemma_valid_push(s: Seq<TargetBox>, x: TargetBox, num_classes: int, threshold: u32)
    requires
        candidates_valid(s, num_classes, threshold),
        0 <= x.class < num_classes,
        score_passes(x.score, threshold),
    ensures
        candidates_valid(s.push(x), num_classes, threshold),
{
    assert forall|i: int| 0 <= i < s.push(x).len() implies
        #[trigger] s.push(x)[i] == if i < s.len() { s[i] } else { x } by {}
}

/// A box may leave a decoder only with a finite score above the threshold.
pub open spec fn score_passes(score: u32, threshold: u32) -> bool {
    is_finite(score) && float_gt(score, threshold)
}

/// Every box is of a class in range, with a finite score above the threshold.
pub open spec fn candidates_valid(boxes: Seq<TargetBox>, num_classes: int, threshold: u32) -> bool {
    forall|i: int|
        0 <= i < boxes.len() ==> {
            &&& is_finite(#[trigger] boxes[i].score)
            &&& float_gt(boxes[i].score, threshold)
            &&& 0 <= boxes[i].class < num_classes
        }
}

/// What the box formula of the single grid reads at `cell`.
pub open spec fn grid_cell(t: Seq<u32>, cells: int, grid_width: int, cell: int) -> GridCell {
    GridCell {
        row: (cell / grid_width) as usize,
        col: (cell % grid_width) as usize,
        x_offset: grid_value(t, cells, 1, cell),
        y_offset: grid_value(t, cells, 2, cell),
        width_raw: grid_value(t, cells, 3, cell),
        height_raw: grid_value(t, cells, 4, cell),
    }
}

/// The box that `cell` yields: when the cell has a best class, its calibrated
/// score is `calibrate(best class score, objectness)`, and the box is kept if
/// that score is finite and above the threshold.
pub open spec fn grid_cell_boxes<C: Fn(u32, u32) -> u32, P: Fn(GridCell) -> Corners>(
    t: Seq<u32>,
    cells: int,
    grid_width: int,
    num_classes: nat,
    threshold: u32,
    calibrate: C,
    place: P,
    cell: int,
) -> Seq<TargetBox> {
    match grid_best(t, cells, cell, num_classes) {
        Some(best) => {
            let score = value2(calibrate, best.1, grid_value(t, cells, 0, cell));
            if score_passes(score, threshold) {
                let c = value1(place, grid_cell(t, cells, grid_width, cell));
                seq![TargetBox { x1: c.x1, y1: c.y1, x2: c.x2, y2: c.y2, score: score, class: best.0 as i32 }]
            } else {
                seq![]
            }
        },
        None => seq![],
    }
}

/// The boxes of the first `k` cells, in row-major order.
pub open spec fn grid_boxes<C: Fn(u32, u32) -> u32, P: Fn(GridCell) -> Corners>(
    t: Seq<u32>,
    cells: int,
    grid_width: int,
    num_classes: nat,
    threshold: u32,
    calibrate: C,
    place: P,
    k: nat,
) -> Seq<TargetBox>
    decreases k,
{
    if k == 0 {
        seq![]
    } else {
        grid_boxes(t, cells, grid_width, num_classes, threshold, calibrate, place, (k - 1) as nat)
            + grid_cell_boxes(t, cells, grid_width, num_classes, threshold, calibrate, place, k - 1)
    }
}

/// Best class of one cell, as `grid_best` states it.
fn grid_best_class(t: &Vec<u32>, cells: usize, cell: usize, num_classes: usize) -> (r: Option<(usize, u32)>)
    requires
        cell < cells,
        num_classes <= i32::MAX,
        t@.len() == (5 + num_classes) * cells,
    ensures
        r == grid_best(t@, cells as int, cell as int, num_classes as nat),
        r matches Some(p) ==> p.0 < num_classes,
{
    let len = t.len();
    let mut best: Option<(usize, u32)> = None;
    let mut k: usize = 0;
    while k < num_classes
        invariant
            len == t@.len(),
            k <= num_classes,
            num_classes <= i32::MAX,
            cell < cells,
            t@.len() == (5 + num_classes) * cells,
            best == grid_best(t@, cells as int, cell as int, k as nat),
            best matches Some(p) ==> p.0 < k,
        decreases num_classes - k,
    {
        let ch = 5 + k;
        proof {
            lemma_flat_index(ch as int, 5 + num_classes, cell as int, cells as int);
        }
        let v = t[ch * cells + cell];
        if !is_nan_bits(v) {
            let replace = match best {
                None => true,
                Some(p) => greater(v, p.1),
            };
            if replace {
                best = Some((k, v));
            }
        }
        k = k + 1;
    }
    best
}

/// Decodes a single-grid tensor: `5 + num_classes` channels of
/// `grid_height x grid_width` values, channel-major, rows within a channel.
///
/// For each cell in row-major order the best class is picked (see
/// `grid_best`), the score is `calibrate(best class score, objectness)`, and
/// when that score is finite and above `threshold` a box is emitted whose
/// corners are `place` of the cell. A cell without a non-NaN class score
/// yields nothing. A tensor of any other length is refused with
/// `ShapeMismatch`.
pub fn decode_single_grid<C: Fn(u32, u32) -> u32, P: Fn(GridCell) -> Corners>(
    tensor: &Vec<u32>,
    grid_height: usize,
    grid_width: usize,
    num_classes: usize,
    threshold: u32,
    calibrate: C,
    place: P,
) -> (r: Result<Vec<TargetBox>, DecodeError>)
    requires
        num_classes <= i32::MAX,
        is_total_fn2(calibrate),
        is_total_fn1(place),
    ensures
        r is Ok <==> tensor@.len() == (5 + num_classes) * (grid_height * grid_width),
        r is Err ==> r == Err::<Vec<TargetBox>, DecodeError>(DecodeError::ShapeMismatch),
        r matches Ok(boxes) ==> boxes@ == grid_boxes(
            tensor@,
            grid_height * grid_width,
            grid_width as int,
            num_classes as nat,
            threshold,
            calibrate,
            place,
            (grid_height * grid_width) as nat,
        ),
        r matches Ok(boxes) ==> candidates_valid(boxes@, num_classes as int, threshold),
{
    let len = tensor.len();
    let cells = match grid_height.checked_mul(grid_width) {
        Some(n) => n,
        None => {
            proof {
                assert((5 + num_classes) * (grid_height * grid_width) >= grid_height * grid_width) by (nonlinear_arith)
                    requires
                        grid_height * grid_width >= 0,
                ;
            }
            return Err(DecodeError::ShapeMismatch);
        },
    };
    let expected = match cells.checked_mul(5 + num_classes) {
        Some(n) => n,
        None => {
            assert((5 + num_classes) * cells == cells * (5 + num_classes)) by (nonlinear_arith);
            return Err(DecodeError::ShapeMismatch);
        },
    };
    assert((5 + num_classes) * cells == cells * (5 + num_classes)) by (nonlinear_arith);
    if len != expected {
        return Err(DecodeError::ShapeMismatch);
    }
    let ghost t = tensor@;
    let mut boxes: Vec<TargetBox> = Vec::new();
    let mut cell: usize = 0;
    while cell < cells
        invariant
            cell <= cells,
            cells == grid_height * grid_width,
            t == tensor@,
            t.len() == (5 + num_classes) * cells,
            t.len() == len,
            num_classes <= i32::MAX,
            is_total_fn2(calibrate),
            is_total_fn1(place),
            boxes@ == grid_boxes(t, cells as int, grid_width as int, num_classes as nat, threshold, calibrate, place, cell as nat),
            candidates_valid(boxes@, num_classes as int, threshold),
        decreases cells - cell,
    {
        proof {
            lemma_flat_index(0, 5 + num_classes, cell as int, cells as int);
            lemma_flat_index(4, 5 + num_classes, cell as int, cells as int);
            if grid_width == 0 {
                assert(grid_height * grid_width == 0) by (nonlinear_arith)
                    requires
                        grid_width == 0,
                ;
            }
        }
        let ghost before = boxes@;
        match grid_best_class(tensor, cells, cell, num_classes) {
            Some(best) => {
                let obj = tensor[cell];
                let score = calibrate(best.1, obj);
                proof {
                    lemma_value2(calibrate, best.1, obj, score);
                }
                if is_finite_bits(score) && greater(score, threshold) {
                    let g = GridCell {
                        row: cell / grid_width,
                        col: cell % grid_width,
                        x_offset: tensor[cells + cell],
                        y_offset: tensor[2 * cells + cell],
                        width_raw: tensor[3 * cells + cell],
                        height_raw: tensor[4 * cells + cell],
                    };
                    let c = place(g);
                    proof {
                        assert(g == grid_cell(t, cells as int, grid_width as int, cell as int));
                        lemma_value1(place, g, c);
                    }
                    let x = TargetBox { x1: c.x1, y1: c.y1, x2: c.x2, y2: c.y2, score: score, class: best.0 as i32 };
                    boxes.push(x);
                    proof {
                        assert(boxes@ =~= before + seq![x]);
                        lemma_valid_push(before, x, num_classes as int, threshold);
                    }
                }
            },
            None => {},
        }
        proof {
            assert(grid_boxes(t, cells as int, grid_width as int, num_classes as nat, threshold, calibrate, place, (cell + 1) as nat)
                == grid_boxes(t, cells as int, grid_width as int, num_classes as nat, threshold, calibrate, place, cell as nat)
                    + grid_cell_boxes(t, cells as int, grid_width as int, num_classes as nat, threshold, calibrate, place, cell as int));
        }
        cell = cell + 1;
    }
    Ok(boxes)
}

/// The pattern of 1.0.
pub const ONE_BITS: u32 = 0x3f80_0000;

/// The pattern of +0.0.
pub const ZERO_BITS: u32 = 0;

/// Every value of the grid is 0 but the objectness and the score of class `k0`
/// at cell `cell0`, which are 1.
pub open spec fn one_hot_grid(t: Seq<u32>, cells: int, num_classes: int, cell0: int, k0: int) -> bool {
    forall|ch: int, cell: int|
        0 <= ch < 5 + num_classes && 0 <= cell < cells ==> #[trigger] grid_value(t, cells, ch, cell)
            == if (ch == 0 || ch == 5 + k0) && cell == cell0 { ONE_BITS } else { ZERO_BITS }
}

proof fn lemma_one_hot_best(t: Seq<u32>, cells: int, num_classes: int, cell0: int, k0: int, cell: int, k: nat)
    requires
        one_hot_grid(t, cells, num_classes, cell0, k0),
        0 <= cell < cells,
        0 <= k0 < num_classes,
        1 <= k <= num_classes,
    ensures
        grid_best(t, cells, cell, k) == if cell == cell0 && k > k0 {
            Some((k0 as usize, ONE_BITS))
        } else {
            Some((0usize, ZERO_BITS))
        },
    decreases k,
{
    assert(grid_value(t, cells, 5 + k - 1, cell) == grid_value(t, cells, 5 + k - 1, cell));
    if k > 1 {
        lemma_one_hot_best(t, cells, num_classes, cell0, k0, cell, (k - 1) as nat);
    } else {
        assert(grid_best(t, cells, cell, 0) == None::<(usize, u32)>);
    }
}

proof fn lemma_one_hot_boxes<C: Fn(u32, u32) -> u32, P: Fn(GridCell) -> Corners>(
    t: Seq<u32>,
    cells: int,
    grid_width: int,
    num_classes: nat,
    threshold: u32,
    calibrate: C,
    place: P,
    cell0: int,
    k0: int,
    k: nat,
)
    requires
        one_hot_grid(t, cells, num_classes as int, cell0, k0),
        0 <= cell0 < cells,
        0 <= k0 < num_classes,
        k <= cells,
        score_passes(value2(calibrate, ONE_BITS, ONE_BITS), threshold),
        !score_passes(value2(calibrate, ZERO_BITS, ZERO_BITS), threshold),
    ensures
        grid_boxes(t, cells, grid_width, num_classes, threshold, calibrate, place, k).len() == if k > cell0 { 1int } else { 0int },
        k > cell0 ==> grid_boxes(t, cells, grid_width, num_classes, threshold, calibrate, place, k)[0]
            == grid_cell_boxes(t, cells, grid_width, num_classes, threshold, calibrate, place, cell0)[0],
    decreases k,
{
    if k > 0 {
        let c = k - 1;
        lemma_one_hot_boxes(t, cells, grid_width, num_classes, threshold, calibrate, place, cell0, k0, (k - 1) as nat);
        lemma_one_hot_best(t, cells, num_classes as int, cell0, k0, c, num_classes);
        assert(grid_value(t, cells, 0, c) == grid_value(t, cells, 0, c));
        let prev = grid_boxes(t, cells, grid_width, num_classes, threshold, calibrate, place, (k - 1) as nat);
        let here = grid_cell_boxes(t, cells, grid_width, num_classes, threshold, calibrate, place, c);
        if c == cell0 {
            assert(here.len() == 1);
            assert((prev + here)[0] == here[0]);
        } else {
            assert(here.len() == 0);
            assert(prev + here =~= prev);
        }
    }
}

/// A grid of zeros with objectness 1 and the score of class `k0` at 1 in a
/// single cell yields exactly one box: of class `k0`, scored
/// `calibrate(1, 1)`, with the corners that `place` gives that cell. This
/// holds for any calibration that takes `(1, 1)` through the threshold and
/// `(0, 0)` not.
pub proof fn lemma_one_hot_cell<C: Fn(u32, u32) -> u32, P: Fn(GridCell) -> Corners>(
    t: Seq<u32>,
    grid_height: nat,
    grid_width: nat,
    num_classes: nat,
    threshold: u32,
    calibrate: C,
    place: P,
    cell0: int,
    k0: int,
)
    requires
        0 <= cell0 < grid_height * grid_width,
        0 <= k0 < num_classes <= i32::MAX,
        one_hot_grid(t, (grid_height * grid_width) as int, num_classes as int, cell0, k0),
        score_passes(value2(calibrate, ONE_BITS, ONE_BITS), threshold),
        !score_passes(value2(calibrate, ZERO_BITS, ZERO_BITS), threshold),
    ensures
        ({
            let n = (grid_height * grid_width) as int;
            let boxes = grid_boxes(t, n, grid_width as int, num_classes, threshold, calibrate, place, n as nat);
            let c = value1(place, grid_cell(t, n, grid_width as int, cell0));
            &&& boxes.len() == 1
            &&& boxes[0] == (TargetBox {
                x1: c.x1,
                y1: c.y1,
                x2: c.x2,
                y2: c.y2,
                score: value2(calibrate, ONE_BITS, ONE_BITS),
                class: k0 as i32,
            })
        }),
{
    let n = (grid_height * grid_width) as int;
    lemma_one_hot_boxes(t, n, grid_width as int, num_classes, threshold, calibrate, place, cell0, k0, n as nat);
    lemma_one_hot_best(t, n, num_classes as int, cell0, k0, cell0, num_classes);
    assert(grid_value(t, n, 0, cell0) == ONE_BITS);
}

// ---------------------------------------------------------------------------
// Multi-scale anchors: two maps of `rows x cols` cells. Each cell holds its
// values contiguously: four box values for each of the three anchors, then the
// three objectness scores, then one score per class shared by the anchors.

/// Anchors per cell.
pub const NUM_ANCHOR: usize = 3;

/// One output tensor of the multi-scale head.
#[derive(Clone, Debug)]
pub struct FeatureMap {
    pub values: Vec<u32>,
    pub rows: usize,
    pub cols: usize,
    /// Values per cell.
    pub depth: usize,
}

/// What the anchor box formula reads for one cell and anchor: the cell, the
/// stride of its map, the anchor's four raw box values and the anchor size.
#[derive(Clone, Copy, Debug, PartialEq, Eq, Structural)]
pub struct AnchorCell {
    pub row: usize,
    pub col: usize,
    pub stride: usize,
    pub tx: u32,
    pub ty: u32,
    pub tw: u32,
    pub th: u32,
    pub anchor_width: u32,
    pub anchor_height: u32,
}

/// The map holds `15 + num_classes` values for each of its cells and nothing more.
pub open spec fn map_shape_ok(m: FeatureMap, num_classes: int) -> bool {
    &&& m.depth == 4 * NUM_ANCHOR + NUM_ANCHOR + num_classes
    &&& m.values@.len() == m.rows * m.cols * m.depth
}

/// The model input divides into the grid exactly, by the same stride on both axes.
pub open spec fn map_geometry_ok(m: FeatureMap, model_width: int, model_height: int) -> bool {
    &&& m.rows > 0
    &&& m.cols > 0
    &&& model_height % (m.rows as int) == 0
    &&& model_width % (m.cols as int) == 0
    &&& model_height / (m.rows as int) == model_width / (m.cols as int)
}

pub open spec fn map_stride(m: FeatureMap, model_height: int) -> int {
    model_height / (m.rows as int)
}

/// Value `k` of cell `cell` (row-major index).
pub open spec fn cell_value(m: FeatureMap, cell: int, k: int) -> u32 {
    m.values@[cell * m.depth + k]
}

/// The best of `combine(objectness, class score)` over the first `k` classes
/// for anchor `b`: NaN products are passed over, and among equal products the
/// later class wins. `None` when every product is NaN or there is no class.
pub open spec fn anchor_best<M: Fn(u32, u32) -> u32>(
    combine: M,
    m: FeatureMap,
    cell: int,
    b: int,
    k: nat,
) -> Option<(usize, u32)>
    decreases k,
{
    if k == 0 {
        None
    } else {
        let prev = anchor_best(combine, m, cell, b, (k - 1) as nat);
        let s = value2(
            combine,
            cell_value(m, cell, 4 * NUM_ANCHOR + b),
            cell_value(m, cell, 4 * NUM_ANCHOR + NUM_ANCHOR + k - 1),
        );
        if is_nan(s) {
            prev
        } else if prev is None || score_key(s) >= score_key(prev.unwrap().1) {
            Some(((k - 1) as usize, s))
        } else {
            prev
        }
    }
}

/// What the box formula reads for anchor `b` of `cell` on the map of scale `scale`.
pub open spec fn anchor_cell(m: FeatureMap, scale: int, stride: int, anchors: Seq<u32>, cell: int, b: int) -> AnchorCell {
    AnchorCell {
        row: (cell / (m.cols as int)) as usize,
        col: (cell % (m.cols as int)) as usize,
        stride: stride as usize,
        tx: cell_value(m, cell, 4 * b),
        ty: cell_value(m, cell, 4 * b + 1),
        tw: cell_value(m, cell, 4 * b + 2),
        th: cell_value(m, cell, 4 * b + 3),
        anchor_width: anchors[scale * 2 * NUM_ANCHOR + b * 2],
        anchor_height: anchors[scale * 2 * NUM_ANCHOR + b * 2 + 1],
    }
}

pub open spec fn opt_seq(o: Option<TargetBox>) -> Seq<TargetBox> {
    match o {
        Some(x) => seq![x],
        None => seq![],
    }
}

/// The box of anchor `b` of `cell`, if its best product is finite and above the threshold.
pub open spec fn anchor_box<M: Fn(u32, u32) -> u32, P: Fn(AnchorCell) -> Corners>(
    combine: M,
    place: P,
    m: FeatureMap,
    scale: int,
    stride: int,
    anchors: Seq<u32>,
    num_classes: nat,
    threshold: u32,
    cell: int,
    b: int,
) -> Option<TargetBox> {
    match anchor_best(combine, m, cell, b, num_classes) {
        Some(best) => if score_passes(best.1, threshold) {
            let c = value1(place, anchor_cell(m, scale, stride, anchors, cell, b));
            Some(TargetBox { x1: c.x1, y1: c.y1, x2: c.x2, y2: c.y2, score: best.1, class: best.0 as i32 })
        } else {
            None
        },
        None => None,
    }
}

/// The boxes of the first `nb` anchors of `cell`.
pub open spec fn cell_boxes<M: Fn(u32, u32) -> u32, P: Fn(AnchorCell) -> Corners>(
    combine: M,
    place: P,
    m: FeatureMap,
    scale: int,
    stride: int,
    anchors: Seq<u32>,
    num_classes: nat,
    threshold: u32,
    cell: int,
    nb: nat,
) -> Seq<TargetBox>
    decreases nb,
{
    if nb == 0 {
        seq![]
    } else {
        cell_boxes(combine, place, m, scale, stride, anchors, num_classes, threshold, cell, (nb - 1) as nat)
            + opt_seq(anchor_box(combine, place, m, scale, stride, anchors, num_classes, threshold, cell, nb - 1))
    }
}

/// The boxes of the first `k` cells of a map, in row-major order.
pub open spec fn map_boxes<M: Fn(u32, u32) -> u32, P: Fn(AnchorCell) -> Corners>(
    combine: M,
    place: P,
    m: FeatureMap,
    scale: int,
    stride: int,
    anchors: Seq<u32>,
    num_classes: nat,
    threshold: u32,
    k: nat,
) -> Seq<TargetBox>
    decreases k,
{
    if k == 0 {
        seq![]
    } else {
        map_boxes(combine, place, m, scale, stride, anchors, num_classes, threshold, (k - 1) as nat)
            + cell_boxes(combine, place, m, scale, stride, anchors, num_classes, threshold, k - 1, NUM_ANCHOR as nat)
    }
}

/// Every value of the map is 0 but, at cell `cell0`, the objectness of anchor
/// `b0`, which is `obj`, and the score of class `k0`, which is `cls`.
pub open spec fn one_hot_map(m: FeatureMap, cell0: int, b0: int, k0: int, obj: u32, cls: u32) -> bool {
    forall|cell: int, k: int|
        0 <= cell < m.rows * m.cols && 0 <= k < m.depth ==> #[trigger] cell_value(m, cell, k) == if cell == cell0 && k
            == 4 * NUM_ANCHOR + b0 {
            obj
        } else if cell == cell0 && k == 4 * NUM_ANCHOR + NUM_ANCHOR + k0 {
            cls
        } else {
            ZERO_BITS
        }
}

/// Every value of the map is 0.
pub open spec fn zero_map(m: FeatureMap) -> bool {
    forall|cell: int, k: int| 0 <= cell < m.rows * m.cols && 0 <= k < m.depth ==> #[trigger] cell_value(m, cell, k) == ZERO_BITS
}

/// The best product is the product of its class's score.
proof fn lemma_anchor_best_product<M: Fn(u32, u32) -> u32>(combine: M, m: FeatureMap, cell: int, b: int, k: nat)
    requires
        k <= m.depth,
    ensures
        anchor_best(combine, m, cell, b, k) matches Some(p) ==> p.0 < k && p.1 == value2(
            combine,
            cell_value(m, cell, 4 * NUM_ANCHOR + b),
            cell_value(m, cell, 4 * NUM_ANCHOR + NUM_ANCHOR + p.0),
        ),
    decreases k,
{
    if k > 0 {
        lemma_anchor_best_product(combine, m, cell, b, (k - 1) as nat);
    }
}

/// An anchor none of whose products passes the threshold yields no box.
proof fn lemma_anchor_silent<M: Fn(u32, u32) -> u32, P: Fn(AnchorCell) -> Corners>(
    combine: M,
    place: P,
    m: FeatureMap,
    scale: int,
    stride: int,
    anchors: Seq<u32>,
    num_classes: nat,
    threshold: u32,
    cell: int,
    b: int,
)
    requires
        num_classes <= m.depth,
        forall|c: int| 0 <= c < num_classes ==> !score_passes(#[trigger] value2(
            combine,
            cell_value(m, cell, 4 * NUM_ANCHOR + b),
            cell_value(m, cell, 4 * NUM_ANCHOR + NUM_ANCHOR + c),
        ), threshold),
    ensures
        anchor_box(combine, place, m, scale, stride, anchors, num_classes, threshold, cell, b) is None,
{
    lemma_anchor_best_product(combine, m, cell, b, num_classes);
    if let Some(p) = anchor_best(combine, m, cell, b, num_classes) {
        assert(!score_passes(value2(
            combine,
            cell_value(m, cell, 4 * NUM_ANCHOR + b),
            cell_value(m, cell, 4 * NUM_ANCHOR + NUM_ANCHOR + p.0 as int),
        ), threshold));
    }
}

/// On the target anchor of a one-hot map, the best class is `k0` once it has been scanned.
proof fn lemma_one_hot_anchor_best<M: Fn(u32, u32) -> u32>(
    combine: M,
    m: FeatureMap,
    cell0: int,
    b0: int,
    k0: int,
    obj: u32,
    cls: u32,
    k: nat,
)
    requires
        one_hot_map(m, cell0, b0, k0, obj, cls),
        0 <= cell0 < m.rows * m.cols,
        0 <= b0 < NUM_ANCHOR,
        0 <= k0,
        k <= m.depth - 4 * NUM_ANCHOR - NUM_ANCHOR,
        !is_nan(value2(combine, obj, cls)),
        is_nan(value2(combine, obj, ZERO_BITS)) || score_key(value2(combine, obj, ZERO_BITS)) < score_key(
            value2(combine, obj, cls),
        ),
    ensures
        k > k0 ==> anchor_best(combine, m, cell0, b0, k) == Some((k0 as usize, value2(combine, obj, cls))),
        k <= k0 ==> (anchor_best(combine, m, cell0, b0, k) matches Some(p) ==> p.1 == value2(combine, obj, ZERO_BITS)
            && !is_nan(p.1)),
    decreases k,
{
    if k > 0 {
        lemma_one_hot_anchor_best(combine, m, cell0, b0, k0, obj, cls, (k - 1) as nat);
        assert(cell_value(m, cell0, 4 * NUM_ANCHOR + b0) == obj);
        assert(cell_value(m, cell0, 4 * NUM_ANCHOR + NUM_ANCHOR + k - 1) == cell_value(m, cell0, 4 * NUM_ANCHOR + NUM_ANCHOR + k - 1));
    }
}

proof fn lemma_map_boxes_silent<M: Fn(u32, u32) -> u32, P: Fn(AnchorCell) -> Corners>(
    combine: M,
    place: P,
    m: FeatureMap,
    scale: int,
    stride: int,
    anchors: Seq<u32>,
    num_classes: nat,
    threshold: u32,
    cell0: int,
    b0: int,
    k: nat,
)
    requires
        0 <= cell0,
        0 <= b0 < NUM_ANCHOR,
        forall|cell: int, b: int|
            0 <= cell < k && 0 <= b < NUM_ANCHOR && !(cell == cell0 && b == b0) ==> (#[trigger] anchor_box(
                combine,
                place,
                m,
                scale,
                stride,
                anchors,
                num_classes,
                threshold,
                cell,
                b,
            )) is None,
    ensures
        k <= cell0 ==> map_boxes(combine, place, m, scale, stride, anchors, num_classes, threshold, k).len() == 0,
        k > cell0 ==> map_boxes(combine, place, m, scale, stride, anchors, num_classes, threshold, k)
            == opt_seq(anchor_box(combine, place, m, scale, stride, anchors, num_classes, threshold, cell0, b0)),
    decreases k,
{
    if k > 0 {
        let c = k - 1;
        lemma_map_boxes_silent(combine, place, m, scale, stride, anchors, num_classes, threshold, cell0, b0, (k - 1) as nat);
        lemma_cell_boxes_silent(combine, place, m, scale, stride, anchors, num_classes, threshold, c, cell0, b0, NUM_ANCHOR as nat);
        let prev = map_boxes(combine, place, m, scale, stride, anchors, num_classes, threshold, (k - 1) as nat);
        let here = cell_boxes(combine, place, m, scale, stride, anchors, num_classes, threshold, c, NUM_ANCHOR as nat);
        assert(map_boxes(combine, place, m, scale, stride, anchors, num_classes, threshold, k) == prev + here);
        if c == cell0 {
            assert(prev + here =~= here);
        } else {
            assert(prev + here =~= prev);
        }
    }
}

proof fn lemma_cell_boxes_silent<M: Fn(u32, u32) -> u32, P: Fn(AnchorCell) -> Corners>(
    combine: M,
    place: P,
    m: FeatureMap,
    scale: int,
    stride: int,
    anchors: Seq<u32>,
    num_classes: nat,
    threshold: u32,
    cell: int,
    cell0: int,
    b0: int,
    nb: nat,
)
    requires
        0 <= b0 < NUM_ANCHOR,
        nb <= NUM_ANCHOR,
        forall|b: int|
            0 <= b < NUM_ANCHOR && !(cell == cell0 && b == b0) ==> (#[trigger] anchor_box(
                combine,
                place,
                m,
                scale,
                stride,
                anchors,
                num_classes,
                threshold,
                cell,
                b,
            )) is None,
    ensures
        cell_boxes(combine, place, m, scale, stride, anchors, num_classes, threshold, cell, nb) == if cell == cell0 && nb > b0 {
            opt_seq(anchor_box(combine, place, m, scale, stride, anchors, num_classes, threshold, cell0, b0))
        } else {
            Seq::<TargetBox>::empty()
        },
    decreases nb,
{
    if nb > 0 {
        lemma_cell_boxes_silent(combine, place, m, scale, stride, anchors, num_classes, threshold, cell, cell0, b0, (nb - 1) as nat);
        let prev = cell_boxes(combine, place, m, scale, stride, anchors, num_classes, threshold, cell, (nb - 1) as nat);
        let here = opt_seq(anchor_box(combine, place, m, scale, stride, anchors, num_classes, threshold, cell, nb - 1));
        if cell == cell0 && nb - 1 == b0 {
            assert(prev + here =~= here);
        } else {
            assert(prev + here =~= prev);
        }
    }
}

/// On a map that is zero but for `obj` and `cls` at `cell0`, every anchor other
/// than anchor `b0` of `cell0` yields no box.
proof fn lemma_others_silent<M: Fn(u32, u32) -> u32, P: Fn(AnchorCell) -> Corners>(
    combine: M,
    place: P,
    m: FeatureMap,
    scale: int,
    stride: int,
    anchors: Seq<u32>,
    num_classes: nat,
    threshold: u32,
    cell0: int,
    b0: int,
    k0: int,
    obj: u32,
    cls: u32,
)
    requires
        map_shape_ok(m, num_classes as int),
        one_hot_map(m, cell0, b0, k0, obj, cls),
        0 <= b0 < NUM_ANCHOR,
        0 <= k0,
        !score_passes(value2(combine, ZERO_BITS, ZERO_BITS), threshold),
        !score_passes(value2(combine, ZERO_BITS, cls), threshold),
    ensures
        forall|cell: int, b: int|
            0 <= cell < m.rows * m.cols && 0 <= b < NUM_ANCHOR && !(cell == cell0 && b == b0) ==> (#[trigger] anchor_box(
                combine,
                place,
                m,
                scale,
                stride,
                anchors,
                num_classes,
                threshold,
                cell,
                b,
            )) is None,
{
    assert forall|cell: int, b: int|
        0 <= cell < m.rows * m.cols && 0 <= b < NUM_ANCHOR && !(cell == cell0 && b == b0) implies (#[trigger] anchor_box(
            combine,
            place,
            m,
            scale,
            stride,
            anchors,
            num_classes,
            threshold,
            cell,
            b,
        )) is None by {
        assert(cell_value(m, cell, 4 * NUM_ANCHOR + b) == ZERO_BITS);
        assert forall|c: int| 0 <= c < num_classes implies !score_passes(#[trigger] value2(
            combine,
            cell_value(m, cell, 4 * NUM_ANCHOR + b),
            cell_value(m, cell, 4 * NUM_ANCHOR + NUM_ANCHOR + c),
        ), threshold) by {
            assert(cell_value(m, cell, 4 * NUM_ANCHOR + NUM_ANCHOR + c) == ZERO_BITS
                || cell_value(m, cell, 4 * NUM_ANCHOR + NUM_ANCHOR + c) == cls);
        }
        lemma_anchor_silent(combine, place, m, scale, stride, anchors, num_classes, threshold, cell, b);
    }
}

/// Two maps of zeros but for one anchor of one cell of map `i0`, whose
/// objectness is `obj`, and one class score `cls` of that cell, yield exactly
/// one box: of class `k0`, scored `combine(obj, cls)`, with the corners that
/// `place` gives that anchor. This holds for any `combine` whose product
/// `combine(obj, cls)` is finite and above the threshold and above
/// `combine(obj, 0)` (or that is NaN), while neither `combine(0, 0)` nor
/// `combine(0, cls)` passes the threshold.
pub proof fn lemma_one_hot_anchor<M: Fn(u32, u32) -> u32, P: Fn(AnchorCell) -> Corners>(
    maps: Seq<FeatureMap>,
    i0: int,
    model_height: int,
    num_classes: nat,
    anchors: Seq<u32>,
    threshold: u32,
    combine: M,
    place: P,
    cell0: int,
    b0: int,
    k0: int,
    obj: u32,
    cls: u32,
)
    requires
        maps.len() == 2,
        0 <= i0 < 2,
        map_shape_ok(maps[0], num_classes as int),
        map_shape_ok(maps[1], num_classes as int),
        one_hot_map(maps[i0], cell0, b0, k0, obj, cls),
        zero_map(maps[1 - i0]),
        0 <= cell0 < maps[i0].rows * maps[i0].cols,
        0 <= b0 < NUM_ANCHOR,
        0 <= k0 < num_classes <= i32::MAX,
        score_passes(value2(combine, obj, cls), threshold),
        is_nan(value2(combine, obj, ZERO_BITS)) || score_key(value2(combine, obj, ZERO_BITS)) < score_key(
            value2(combine, obj, cls),
        ),
        !score_passes(value2(combine, ZERO_BITS, ZERO_BITS), threshold),
        !score_passes(value2(combine, ZERO_BITS, cls), threshold),
    ensures
        ({
            let s0 = map_stride(maps[0], model_height);
            let s1 = map_stride(maps[1], model_height);
            let c = value1(place, anchor_cell(maps[i0], i0, map_stride(maps[i0], model_height), anchors, cell0, b0));
            map_boxes(combine, place, maps[0], 0, s0, anchors, num_classes, threshold, (maps[0].rows * maps[0].cols) as nat)
                + map_boxes(combine, place, maps[1], 1, s1, anchors, num_classes, threshold, (maps[1].rows * maps[1].cols) as nat)
                == seq![TargetBox {
                    x1: c.x1,
                    y1: c.y1,
                    x2: c.x2,
                    y2: c.y2,
                    score: value2(combine, obj, cls),
                    class: k0 as i32,
                }]
        }),
{
    let m = maps[i0];
    let z = maps[1 - i0];
    let sm = map_stride(m, model_height);
    let sz = map_stride(z, model_height);
    let nm = (m.rows * m.cols) as nat;
    let nz = (z.rows * z.cols) as nat;
    lemma_others_silent(combine, place, m, i0, sm, anchors, num_classes, threshold, cell0, b0, k0, obj, cls);
    lemma_one_hot_anchor_best(combine, m, cell0, b0, k0, obj, cls, num_classes);
    lemma_map_boxes_silent(combine, place, m, i0, sm, anchors, num_classes, threshold, cell0, b0, nm);
    // a map of zeros is one-hot with zero values at a cell it does not have
    assert(one_hot_map(z, nz as int, 0, 0, ZERO_BITS, ZERO_BITS));
    lemma_others_silent(combine, place, z, 1 - i0, sz, anchors, num_classes, threshold, nz as int, 0, 0, ZERO_BITS, ZERO_BITS);
    lemma_map_boxes_silent(combine, place, z, 1 - i0, sz, anchors, num_classes, threshold, nz as int, 0, nz);
    let mb = map_boxes(combine, place, m, i0, sm, anchors, num_classes, threshold, nm);
    let zb = map_boxes(combine, place, z, 1 - i0, sz, anchors, num_classes, threshold, nz);
    if i0 == 0 {
        assert(mb + zb =~= mb);
    } else {
        assert(zb + mb =~= mb);
    }
}

fn map_shape_check(m: &FeatureMap, num_classes: usize) -> (r: bool)
    requires
        num_classes <= i32::MAX,
    ensures
        r == map_shape_ok(*m, num_classes as int),
{
    if m.depth != 4 * NUM_ANCHOR + NUM_ANCHOR + num_classes {
        return false;
    }
    let len = m.values.len();
    match m.rows.checked_mul(m.cols) {
        Some(cells) => match cells.checked_mul(m.depth) {
            Some(n) => n == len,
            None => false,
        },
        None => {
            assert(m.rows * m.cols * m.depth >= m.rows * m.cols) by (nonlinear_arith)
                requires
                    m.depth >= 1,
                    m.rows * m.cols >= 0,
            ;
            false
        },
    }
}

fn map_stride_check(m: &FeatureMap, model_width: usize, model_height: usize) -> (r: Option<usize>)
    ensures
        r is Some <==> map_geometry_ok(*m, model_width as int, model_height as int),
        r matches Some(s) ==> s == map_stride(*m, model_height as int),
{
    if m.rows == 0 || m.cols == 0 {
        return None;
    }
    if model_height % m.rows != 0 || model_width % m.cols != 0 {
        return None;
    }
    let stride = model_height / m.rows;
    if stride != model_width / m.cols {
        return None;
    }
    Some(stride)
}

fn anchor_best_class<M: Fn(u32, u32) -> u32>(
    combine: &M,
    m: &FeatureMap,
    cell: usize,
    b: usize,
    num_classes: usize,
) -> (r: Option<(usize, u32)>)
    requires
        num_classes <= i32::MAX,
        map_shape_ok(*m, num_classes as int),
        cell < m.rows * m.cols,
        b < NUM_ANCHOR,
        is_total_fn2(*combine),
    ensures
        r == anchor_best(*combine, *m, cell as int, b as int, num_classes as nat),
        r matches Some(p) ==> p.0 < num_classes && !is_nan(p.1),
{
    let len = m.values.len();
    proof {
        lemma_flat_index(cell as int, m.rows * m.cols, 0, m.depth as int);
    }
    let base = cell * m.depth;
    let obj = m.values[base + 4 * NUM_ANCHOR + b];
    let mut best: Option<(usize, u32)> = None;
    let mut k: usize = 0;
    while k < num_classes
        invariant
            len == m.values@.len(),
            k <= num_classes,
            num_classes <= i32::MAX,
            map_shape_ok(*m, num_classes as int),
            cell < m.rows * m.cols,
            b < NUM_ANCHOR,
            base == cell * m.depth,
            obj == cell_value(*m, cell as int, 4 * NUM_ANCHOR + b),
            is_total_fn2(*combine),
            best == anchor_best(*combine, *m, cell as int, b as int, k as nat),
            best matches Some(p) ==> p.0 < k && !is_nan(p.1),
        decreases num_classes - k,
    {
        proof {
            lemma_flat_index(cell as int, m.rows * m.cols, 4 * NUM_ANCHOR + NUM_ANCHOR + k, m.depth as int);
        }
        let v = m.values[base + 4 * NUM_ANCHOR + NUM_ANCHOR + k];
        let s = combine(obj, v);
        proof {
            lemma_value2(*combine, obj, v, s);
        }
        if !is_nan_bits(s) {
            let replace = match best {
                None => true,
                Some(p) => order_key(s) >= order_key(p.1),
            };
            if replace {
                best = Some((k, s));
            }
        }
        k = k + 1;
    }
    best
}

fn decode_anchor<M: Fn(u32, u32) -> u32, P: Fn(AnchorCell) -> Corners>(
    combine: &M,
    place: &P,
    m: &FeatureMap,
    scale: usize,
    stride: usize,
    anchors: &[u32; 12],
    num_classes: usize,
    threshold: u32,
    cell: usize,
    b: usize,
) -> (r: Option<TargetBox>)
    requires
        num_classes <= i32::MAX,
        map_shape_ok(*m, num_classes as int),
        cell < m.rows * m.cols,
        b < NUM_ANCHOR,
        scale < 2,
        is_total_fn2(*combine),
        is_total_fn1(*place),
    ensures
        r == anchor_box(*combine, *place, *m, scale as int, stride as int, anchors@, num_classes as nat, threshold, cell as int, b as int),
        r matches Some(x) ==> 0 <= x.class < num_classes && score_passes(x.score, threshold),
{
    match anchor_best_class(combine, m, cell, b, num_classes) {
        Some(best) => {
            if is_finite_bits(best.1) && greater(best.1, threshold) {
                let len = m.values.len();
                proof {
                    lemma_flat_index(cell as int, m.rows * m.cols, 4 * b + 3, m.depth as int);
                    if m.cols == 0 {
                        assert(m.rows * m.cols == 0) by (nonlinear_arith)
                            requires
                                m.cols == 0,
                        ;
                    }
                }
                let base = cell * m.depth;
                let a = scale * 2 * NUM_ANCHOR + b * 2;
                let g = AnchorCell {
                    row: cell / m.cols,
                    col: cell % m.cols,
                    stride: stride,
                    tx: m.values[base + 4 * b],
                    ty: m.values[base + 4 * b + 1],
                    tw: m.values[base + 4 * b + 2],
                    th: m.values[base + 4 * b + 3],
                    anchor_width: anchors[a],
                    anchor_height: anchors[a + 1],
                };
                let c = place(g);
                proof {
                    assert(g == anchor_cell(*m, scale as int, stride as int, anchors@, cell as int, b as int));
                    lemma_value1(*place, g, c);
                }
                Some(TargetBox { x1: c.x1, y1: c.y1, x2: c.x2, y2: c.y2, score: best.1, class: best.0 as i32 })
            } else {
                None
            }
        },
        None => None,
    }
}

/// Appends the boxes of one map to `boxes`.
fn decode_map<M: Fn(u32, u32) -> u32, P: Fn(AnchorCell) -> Corners>(
    combine: &M,
    place: &P,
    m: &FeatureMap,
    scale: usize,
    stride: usize,
    anchors: &[u32; 12],
    num_classes: usize,
    threshold: u32,
    boxes: &mut Vec<TargetBox>,
)
    requires
        num_classes <= i32::MAX,
        map_shape_ok(*m, num_classes as int),
        scale < 2,
        is_total_fn2(*combine),
        is_total_fn1(*place),
        candidates_valid(old(boxes)@, num_classes as int, threshold),
    ensures
        final(boxes)@ == old(boxes)@ + map_boxes(
            *combine,
            *place,
            *m,
            scale as int,
            stride as int,
            anchors@,
            num_classes as nat,
            threshold,
            (m.rows * m.cols) as nat,
        ),
        candidates_valid(final(boxes)@, num_classes as int, threshold),
{
    let ghost start = boxes@;
    let len = m.values.len();
    proof {
        assert(m.rows * m.cols * m.depth >= m.rows * m.cols) by (nonlinear_arith)
            requires
                m.depth >= 1,
                m.rows * m.cols >= 0,
        ;
    }
    let cells = m.rows * m.cols;
    let mut cell: usize = 0;
    assert(start + Seq::<TargetBox>::empty() =~= start);
    while cell < cells
        invariant
            cell <= cells,
            cells == m.rows * m.cols,
            num_classes <= i32::MAX,
            map_shape_ok(*m, num_classes as int),
            scale < 2,
            is_total_fn2(*combine),
            is_total_fn1(*place),
            boxes@ == start + map_boxes(*combine, *place, *m, scale as int, stride as int, anchors@, num_classes as nat, threshold, cell as nat),
            candidates_valid(boxes@, num_classes as int, threshold),
        decreases cells - cell,
    {
        let ghost before = boxes@;
        let mut b: usize = 0;
        while b < NUM_ANCHOR
            invariant
                b <= NUM_ANCHOR,
                cell < cells,
                cells == m.rows * m.cols,
                num_classes <= i32::MAX,
                map_shape_ok(*m, num_classes as int),
                scale < 2,
                is_total_fn2(*combine),
                is_total_fn1(*place),
                boxes@ == before + cell_boxes(*combine, *place, *m, scale as int, stride as int, anchors@, num_classes as nat, threshold, cell as int, b as nat),
                candidates_valid(boxes@, num_classes as int, threshold),
            decreases NUM_ANCHOR - b,
        {
            let ghost mid = boxes@;
            let found = decode_anchor(combine, place, m, scale, stride, anchors, num_classes, threshold, cell, b);
            match found {
                Some(x) => {
                    boxes.push(x);
                    proof {
                        lemma_valid_push(mid, x, num_classes as int, threshold);
                    }
                },
                None => {},
            }
            proof {
                assert(boxes@ =~= mid + opt_seq(found));
                assert(cell_boxes(*combine, *place, *m, scale as int, stride as int, anchors@, num_classes as nat, threshold, cell as int, (b + 1) as nat)
                    == cell_boxes(*combine, *place, *m, scale as int, stride as int, anchors@, num_classes as nat, threshold, cell as int, b as nat)
                        + opt_seq(found));
                assert(boxes@ =~= before + cell_boxes(*combine, *place, *m, scale as int, stride as int, anchors@, num_classes as nat, threshold, cell as int, (b + 1) as nat));
            }
            b = b + 1;
        }
        proof {
            assert(map_boxes(*combine, *place, *m, scale as int, stride as int, anchors@, num_classes as nat, threshold, (cell + 1) as nat)
                == map_boxes(*combine, *place, *m, scale as int, stride as int, anchors@, num_classes as nat, threshold, cell as nat)
                    + cell_boxes(*combine, *place, *m, scale as int, stride as int, anchors@, num_classes as nat, threshold, cell as int, NUM_ANCHOR as nat));
            assert(boxes@ =~= start + map_boxes(*combine, *place, *m, scale as int, stride as int, anchors@, num_classes as nat, threshold, (cell + 1) as nat));
        }
        cell = cell + 1;
    }
}

/// Decodes the two maps of the multi-scale anchor head, the first with the
/// first half of `anchors` and the second with the second half.
///
/// Both maps are checked first: a map whose depth is not `15 + num_classes` or
/// whose length is not `rows * cols * depth` gives `ShapeMismatch`; then a map
/// whose grid does not divide `model_width x model_height` exactly, by one
/// stride on both axes, gives `InvalidGeometry`. Otherwise every cell and
/// anchor, map by map in row-major order, yields the box described by
/// `anchor_box`. There must be at least one class.
pub fn decode_multi_scale<M: Fn(u32, u32) -> u32, P: Fn(AnchorCell) -> Corners>(
    maps: &[FeatureMap; 2],
    model_width: usize,
    model_height: usize,
    num_classes: usize,
    anchors: &[u32; 12],
    threshold: u32,
    combine: M,
    place: P,
) -> (r: Result<Vec<TargetBox>, DecodeError>)
    requires
        0 < num_classes <= i32::MAX,
        is_total_fn2(combine),
        is_total_fn1(place),
    ensures
        (r == Err::<Vec<TargetBox>, DecodeError>(DecodeError::ShapeMismatch))
            <==> !(map_shape_ok(maps@[0], num_classes as int) && map_shape_ok(maps@[1], num_classes as int)),
        (r == Err::<Vec<TargetBox>, DecodeError>(DecodeError::InvalidGeometry)) <==> {
            &&& map_shape_ok(maps@[0], num_classes as int)
            &&& map_shape_ok(maps@[1], num_classes as int)
            &&& !(map_geometry_ok(maps@[0], model_width as int, model_height as int)
                && map_geometry_ok(maps@[1], model_width as int, model_height as int))
        },
        r matches Ok(boxes) ==> boxes@ == map_boxes(
            combine,
            place,
            maps@[0],
            0,
            map_stride(maps@[0], model_height as int),
            anchors@,
            num_classes as nat,
            threshold,
            (maps@[0].rows * maps@[0].cols) as nat,
        ) + map_boxes(
            combine,
            place,
            maps@[1],
            1,
            map_stride(maps@[1], model_height as int),
            anchors@,
            num_classes as nat,
            threshold,
            (maps@[1].rows * maps@[1].cols) as nat,
        ),
        r matches Ok(boxes) ==> candidates_valid(boxes@, num_classes as int, threshold),
{
    let first = &maps[0];
    let second = &maps[1];
    if !map_shape_check(first, num_classes) || !map_shape_check(second, num_classes) {
        return Err(DecodeError::ShapeMismatch);
    }
    let s0 = match map_stride_check(first, model_width, model_height) {
        Some(s) => s,
        None => return Err(DecodeError::InvalidGeometry),
    };
    let s1 = match map_stride_check(second, model_width, model_height) {
        Some(s) => s,
        None => return Err(DecodeError::InvalidGeometry),
    };
    let mut boxes: Vec<TargetBox> = Vec::new();
    decode_map(&combine, &place, first, 0, s0, anchors, num_classes, threshold, &mut boxes);
    decode_map(&combine, &place, second, 1, s1, anchors, num_classes, threshold, &mut boxes);
    Ok(boxes)
}

} // verus!
